use macrun::cli::KvVersionArg;
use macrun::k2mx::{check_k2mx_response, k2mx_base_url, provider_secrets_url, K2MxError};
use macrun::vault::kv_write_url;

#[test]
fn k2mx_settings_are_checked_and_trimmed() {
    assert_eq!(k2mx_base_url("https://k2mx.local///", "tok").unwrap(), "https://k2mx.local");
    assert!(matches!(k2mx_base_url(" ", "tok"), Err(K2MxError::EmptyBaseUrl)));
    assert!(matches!(k2mx_base_url("https://k2mx.local", "\n"), Err(K2MxError::EmptyBootstrapToken)));
    assert_eq!(
        provider_secrets_url("https://k2mx.local"),
        "https://k2mx.local/v1/admin/provider-secrets"
    );
}

#[test]
fn k2mx_responses_outside_the_success_range_are_refused() {
    assert_eq!(check_k2mx_response(201, "{\"id\":\"x\"}".to_owned()).unwrap(), "{\"id\":\"x\"}");
    match check_k2mx_response(500, "boom".to_owned()) {
        Err(K2MxError::RequestFailed(status, body)) => {
            assert_eq!(status, 500);
            assert_eq!(body, "boom");
        }
        _ => panic!("expected a refusal"),
    }
}

#[test]
fn kv_urls_follow_the_engine_version() {
    assert_eq!(
        kv_write_url("http://v:8200/", "/secret/", "/myapp/prod/", KvVersionArg::V1),
        "http://v:8200/v1/secret/myapp/prod"
    );
    assert_eq!(
        kv_write_url("http://v:8200", "secret", "myapp", KvVersionArg::V2),
        "http://v:8200/v1/secret/data/myapp"
    );
}
