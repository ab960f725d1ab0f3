//! The computing side of Vault's transit engine: key versions, settings and requests.
use vstd::prelude::*;

use crate::cli::KvVersionArg;
use crate::sealed::{base64_decode, base64_decoded, base64_encode, base64_encoded};
use crate::text::{
    chars_of, copy_str, find_char, index_of_char, is_blank, parse_u32_spec, parse_u32_window,
    push_str_chars, string_from_chars, trim, trim_end_char, trim_end_matches_char,
    trim_matches_char, trim_start_char,
};

verus! {

broadcast use vstd::string::group_string_axioms;

/// The ciphertext that Vault's transit engine returned.
pub struct EncryptResponse {
    pub ciphertext: String,
}

/// The characters `vault`.
pub open spec fn vault_word() -> Seq<char> {
    seq!['v', 'a', 'u', 'l', 't']
}

/// The key version of a transit ciphertext `vault:v<N>:<data>`: the first `:`-separated
/// field is `vault`, a third field exists, and the second is `v` followed by what
/// `u32::from_str` accepts.
pub open spec fn key_version_spec(c: Seq<char>) -> Option<u32> {
    let k1 = index_of_char(c, ':');
    let rest = c.skip(k1 + 1);
    let k2 = index_of_char(rest, ':');
    if k1 < c.len() && k2 < rest.len() && c.take(k1) == vault_word() {
        let version = rest.take(k2);
        if version.len() > 0 && version[0] == 'v' {
            parse_u32_spec(version.drop_first())
        } else {
            None
        }
    } else {
        None
    }
}

/// Reads the key version out of a transit ciphertext such as `vault:v3:abcdef`.
pub fn parse_key_version(ciphertext: &str) -> (r: Option<u32>)
    ensures
        r == key_version_spec(ciphertext@),
{
    let v = chars_of(ciphertext);
    let n = v.len();
    assert(v@.subrange(0, n as int) =~= ciphertext@);
    let k1 = find_char(&v, 0, n, ':');
    if k1 == n {
        return None;
    }
    let k2 = find_char(&v, k1 + 1, n, ':');
    let ghost rest = ciphertext@.skip(k1 + 1);
    assert(v@.subrange(k1 + 1, n as int) =~= rest);
    if k2 == n {
        return None;
    }
    let ghost first = ciphertext@.take(k1 as int);
    let is_vault = k1 == 5 && v[0] == 'v' && v[1] == 'a' && v[2] == 'u' && v[3] == 'l' && v[4] == 't';
    proof {
        if k1 == 5 {
            assert(first[0] == v@[0] && first[1] == v@[1] && first[2] == v@[2] && first[3] == v@[3] && first[4] == v@[4]);
        }
        if is_vault {
            assert(first =~= vault_word());
        }
        if first == vault_word() {
            assert(first.len() == 5);
            assert(first[0] == 'v' && first[1] == 'a' && first[2] == 'u' && first[3] == 'l' && first[4] == 't');
        }
    }
    if !is_vault {
        return None;
    }
    let ghost version = rest.take(k2 - k1 - 1);
    assert(v@.subrange(k1 + 1, k2 as int) =~= version);
    if k2 == k1 + 1 || v[k1 + 1] != 'v' {
        assert(version.len() > 0 ==> version[0] == v@[k1 + 1]);
        return None;
    }
    assert(version[0] == v@[k1 + 1]);
    assert(v@.subrange(k1 + 2, k2 as int) =~= version.drop_first());
    parse_u32_window(&v, k1 + 2, k2)
}

/// Where and how to reach Vault's transit engine.
pub struct VaultSettings {
    /// The base URL, without trailing `/`.
    pub vault_addr: String,
    /// The transit mount path, without leading or trailing `/`.
    pub transit_path: String,
    /// The token sent with every request.
    pub token: String,
}

/// Why a Vault request could not be made or was refused.
#[derive(Clone, Debug)]
pub enum VaultError {
    EmptyAddress,
    EmptyTransitPath,
    EmptyToken,
    EmptyKeyName,
    /// Vault answered with a status outside 200..=299; the body is kept.
    RequestFailed(u16, String),
    /// The plaintext Vault returned is not valid base64.
    InvalidBase64,
    /// The decoded plaintext is not UTF-8.
    InvalidUtf8,
}

/// Checks and normalizes the settings of a Vault client: no field may be blank; the
/// address loses its trailing `/`s and the transit path its leading and trailing `/`s.
pub fn vault_settings(vault_addr: &str, transit_path: &str, token: &str) -> (r: Result<VaultSettings, VaultError>)
    ensures
        (trim(vault_addr@).len() == 0) ==> r matches Err(VaultError::EmptyAddress),
        (trim(vault_addr@).len() != 0 && trim(transit_path@).len() == 0) ==> r matches Err(VaultError::EmptyTransitPath),
        (trim(vault_addr@).len() != 0 && trim(transit_path@).len() != 0 && trim(token@).len() == 0) ==> r matches Err(VaultError::EmptyToken),
        r is Ok <==> (trim(vault_addr@).len() != 0 && trim(transit_path@).len() != 0 && trim(token@).len() != 0),
        r matches Ok(s) ==> (s.vault_addr@ == trim_end_char(vault_addr@, '/')
            && s.transit_path@ == trim_end_char(trim_start_char(transit_path@, '/'), '/')
            && s.token@ == token@),
{
    if is_blank(vault_addr) {
        return Err(VaultError::EmptyAddress);
    }
    if is_blank(transit_path) {
        return Err(VaultError::EmptyTransitPath);
    }
    if is_blank(token) {
        return Err(VaultError::EmptyToken);
    }
    Ok(VaultSettings {
        vault_addr: trim_end_matches_char(vault_addr, '/'),
        transit_path: trim_matches_char(transit_path, '/'),
        token: copy_str(token),
    })
}

/// The characters `/v1/`.
pub open spec fn api_prefix() -> Seq<char> {
    seq!['/', 'v', '1', '/']
}

/// The URL of a transit operation: `<addr>/v1/<transit>/<op>/<key>`.
pub open spec fn transit_url(s: VaultSettings, op: Seq<char>, key_name: Seq<char>) -> Seq<char> {
    s.vault_addr@ + api_prefix() + s.transit_path@ + seq!['/'] + op + seq!['/'] + key_name
}

/// The characters `encrypt`.
pub open spec fn encrypt_op() -> Seq<char> {
    seq!['e', 'n', 'c', 'r', 'y', 'p', 't']
}

/// The characters `decrypt`.
pub open spec fn decrypt_op() -> Seq<char> {
    seq!['d', 'e', 'c', 'r', 'y', 'p', 't']
}

/// The URL of transit operation `op` for `key_name`; a blank key name is refused.
fn transit_endpoint(settings: &VaultSettings, op: &str, key_name: &str) -> (r: Result<String, VaultError>)
    ensures
        r matches Err(e) <==> trim(key_name@).len() == 0,
        r matches Err(e) ==> e is EmptyKeyName,
        r matches Ok(u) ==> u@ == transit_url(*settings, op@, key_name@),
{
    if is_blank(key_name) {
        return Err(VaultError::EmptyKeyName);
    }
    let mut v: Vec<char> = Vec::new();
    push_str_chars(&mut v, settings.vault_addr.as_str());
    push_str_chars(&mut v, "/v1/");
    proof { reveal_strlit("/v1/"); }
    push_str_chars(&mut v, settings.transit_path.as_str());
    v.push('/');
    push_str_chars(&mut v, op);
    v.push('/');
    push_str_chars(&mut v, key_name);
    assert(v@ =~= transit_url(*settings, op@, key_name@));
    Ok(string_from_chars(&v))
}

/// The URL of a transit encryption with key `key_name`.
pub fn encrypt_url(settings: &VaultSettings, key_name: &str) -> (r: Result<String, VaultError>)
    ensures
        r matches Err(e) <==> trim(key_name@).len() == 0,
        r matches Err(e) ==> e is EmptyKeyName,
        r matches Ok(u) ==> u@ == transit_url(*settings, encrypt_op(), key_name@),
{
    let op = "encrypt";
    proof { reveal_strlit("encrypt"); }
    assert(op@ =~= encrypt_op());
    transit_endpoint(settings, op, key_name)
}

/// The URL of a transit decryption with key `key_name`.
pub fn decrypt_url(settings: &VaultSettings, key_name: &str) -> (r: Result<String, VaultError>)
    ensures
        r matches Err(e) <==> trim(key_name@).len() == 0,
        r matches Err(e) ==> e is EmptyKeyName,
        r matches Ok(u) ==> u@ == transit_url(*settings, decrypt_op(), key_name@),
{
    let op = "decrypt";
    proof { reveal_strlit("decrypt"); }
    assert(op@ =~= decrypt_op());
    transit_endpoint(settings, op, key_name)
}

/// The plaintext field of a transit encryption request: the bytes in base64.
pub fn encode_plaintext(plaintext: &[u8]) -> (r: String)
    requires
        plaintext@.len() <= usize::MAX / 2,
    ensures
        r@ == base64_encoded(plaintext@),
{
    base64_encode(plaintext)
}

/// Accepts a response whose status is in 200..=299, giving its body; any other
/// status refuses it.
pub fn check_response(status: u16, body: String) -> (r: Result<String, VaultError>)
    ensures
        (200 <= status <= 299) ==> r == Ok::<String, VaultError>(body),
        !(200 <= status <= 299) ==> (r matches Err(VaultError::RequestFailed(s, b)) && s == status && b == body),
{
    if 200 <= status && status <= 299 {
        Ok(body)
    } else {
        Err(VaultError::RequestFailed(status, body))
    }
}

/// The text that the UTF-8 bytes `bytes` spell (std `String::from_utf8`), or `None`
/// when they are not valid UTF-8.
#[verifier::external_body]
fn string_from_utf8(bytes: Vec<u8>) -> (r: Option<String>)
    ensures
        match r {
            Some(s) => vstd::utf8::valid_utf8(bytes@) && s@ == vstd::utf8::decode_utf8(bytes@),
            None => !vstd::utf8::valid_utf8(bytes@),
        },
{
    String::from_utf8(bytes).ok()
}

/// The plaintext that the decoded bytes of a transit decryption spell: refused when
/// the base64 did not decode (`None`) or the bytes are not UTF-8.
pub fn plaintext_from_decoded(decoded: Option<Vec<u8>>) -> (r: Result<String, VaultError>)
    ensures
        decoded is None ==> r matches Err(VaultError::InvalidBase64),
        decoded matches Some(b) ==> (!vstd::utf8::valid_utf8(b@) ==> r matches Err(VaultError::InvalidUtf8)),
        decoded matches Some(b) ==> (vstd::utf8::valid_utf8(b@) ==> (r matches Ok(s) && s@ == vstd::utf8::decode_utf8(b@))),
{
    match decoded {
        None => Err(VaultError::InvalidBase64),
        Some(bytes) => match string_from_utf8(bytes) {
            Some(s) => Ok(s),
            None => Err(VaultError::InvalidUtf8),
        },
    }
}

/// The plaintext of a transit decryption response: base64, then UTF-8.
pub fn decode_plaintext(encoded: &str) -> (r: Result<String, VaultError>)
    ensures
        base64_decoded(encoded@) is None ==> r matches Err(VaultError::InvalidBase64),
        base64_decoded(encoded@) matches Some(b) ==> (!vstd::utf8::valid_utf8(b) ==> r matches Err(VaultError::InvalidUtf8)),
        base64_decoded(encoded@) matches Some(b) ==> (vstd::utf8::valid_utf8(b) ==> (r matches Ok(s) && s@ == vstd::utf8::decode_utf8(b))),
{
    plaintext_from_decoded(base64_decode(encoded))
}

/// The characters `/data/`.
pub open spec fn kv2_data_segment() -> Seq<char> {
    seq!['/', 'd', 'a', 't', 'a', '/']
}

/// The URL a KV write goes to: `<addr>/v1/<mount>/<path>` for version 1 and
/// `<addr>/v1/<mount>/data/<path>` for version 2, the address without trailing `/`s
/// and the mount and path without surrounding `/`s. This layout is this library's
/// choice, taken from the paths of Vault's HTTP API for the two KV engine versions.
pub fn kv_write_url(vault_addr: &str, mount: &str, path: &str, version: KvVersionArg) -> (r: String)
    ensures
        r@ == trim_end_char(vault_addr@, '/') + api_prefix() + trim_end_char(trim_start_char(mount@, '/'), '/')
            + (match version {
                KvVersionArg::V1 => seq!['/'],
                KvVersionArg::V2 => kv2_data_segment(),
            }) + trim_end_char(trim_start_char(path@, '/'), '/'),
{
    let addr = trim_end_matches_char(vault_addr, '/');
    let m = trim_matches_char(mount, '/');
    let p = trim_matches_char(path, '/');
    let mut v: Vec<char> = Vec::new();
    push_str_chars(&mut v, addr.as_str());
    push_str_chars(&mut v, "/v1/");
    proof { reveal_strlit("/v1/"); reveal_strlit("/data/"); }
    push_str_chars(&mut v, m.as_str());
    match version {
        KvVersionArg::V1 => v.push('/'),
        KvVersionArg::V2 => push_str_chars(&mut v, "/data/"),
    }
    push_str_chars(&mut v, p.as_str());
    assert(v@ =~= trim_end_char(vault_addr@, '/') + api_prefix() + trim_end_char(trim_start_char(mount@, '/'), '/')
            + (match version {
                KvVersionArg::V1 => seq!['/'],
                KvVersionArg::V2 => kv2_data_segment(),
            }) + trim_end_char(trim_start_char(path@, '/'), '/'));
    string_from_chars(&v)
}

} // verus!
