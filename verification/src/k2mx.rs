//! The computing side of the k2mx admin API client.
use vstd::prelude::*;

use crate::text::{is_blank, push_str_chars, string_from_chars, trim, trim_end_char, trim_end_matches_char};

verus! {

broadcast use vstd::string::group_string_axioms;

/// A request to register a provider secret.
#[derive(Clone, Debug)]
pub struct CreateProviderSecretRequest {
    pub provider_id: String,
    pub version: String,
    pub tenant_id: String,
    pub client_id: String,
    pub client_secret_wrapped: String,
    pub active_from: Option<String>,
    pub retired_at: Option<String>,
}

/// The identifier k2mx gives a created provider secret.
#[derive(Clone, Debug)]
pub struct CreateResult {
    pub id: String,
}

/// Why a k2mx client could not be made or a request was refused.
#[derive(Clone, Debug)]
pub enum K2MxError {
    EmptyBaseUrl,
    EmptyBootstrapToken,
    /// k2mx answered with a status outside 200..=299; the body is kept.
    RequestFailed(u16, String),
}

/// Checks the client settings and gives the base URL without trailing `/`s.
pub fn k2mx_base_url(base_url: &str, bootstrap_token: &str) -> (r: Result<String, K2MxError>)
    ensures
        trim(base_url@).len() == 0 ==> r matches Err(K2MxError::EmptyBaseUrl),
        trim(base_url@).len() != 0 && trim(bootstrap_token@).len() == 0 ==> r matches Err(K2MxError::EmptyBootstrapToken),
        r is Ok <==> (trim(base_url@).len() != 0 && trim(bootstrap_token@).len() != 0),
        r matches Ok(u) ==> u@ == trim_end_char(base_url@, '/'),
{
    if is_blank(base_url) {
        return Err(K2MxError::EmptyBaseUrl);
    }
    if is_blank(bootstrap_token) {
        return Err(K2MxError::EmptyBootstrapToken);
    }
    Ok(trim_end_matches_char(base_url, '/'))
}

/// The characters `/v1/admin/provider-secrets`.
pub open spec fn provider_secrets_path() -> Seq<char> {
    seq!['/', 'v', '1', '/', 'a', 'd', 'm', 'i', 'n', '/', 'p', 'r', 'o', 'v', 'i', 'd', 'e', 'r', '-', 's', 'e', 'c', 'r', 'e', 't', 's']
}

/// The URL at which provider secrets are created.
pub fn provider_secrets_url(base_url: &str) -> (r: String)
    ensures
        r@ == base_url@ + provider_secrets_path(),
{
    let mut v: Vec<char> = Vec::new();
    push_str_chars(&mut v, base_url);
    push_str_chars(&mut v, "/v1/admin/provider-secrets");
    proof { reveal_strlit("/v1/admin/provider-secrets"); }
    assert(v@ =~= base_url@ + provider_secrets_path());
    string_from_chars(&v)
}

/// Accepts a response whose status is in 200..=299, giving its body.
pub fn check_k2mx_response(status: u16, body: String) -> (r: Result<String, K2MxError>)
    ensures
        (200 <= status <= 299) ==> r == Ok::<String, K2MxError>(body),
        !(200 <= status <= 299) ==> (r matches Err(K2MxError::RequestFailed(s, b)) && s == status && b == body),
{
    if 200 <= status && status <= 299 {
        Ok(body)
    } else {
        Err(K2MxError::RequestFailed(status, body))
    }
}

} // verus!
