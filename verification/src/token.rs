use vstd::prelude::*;

use crate::error::Error;
use vstd::string::StringExecFns;

verus! {

// ---------------------------------------------------------------------------
// The token endpoint's JSON response
// ---------------------------------------------------------------------------

/// Whether serde_json parses this text as a JSON document; success is a
/// function of the text alone.
pub uninterp spec fn is_json_text(s: Seq<char>) -> bool;

/// Relies on serde_json::from_str::<Value>: parsing is deterministic, so
/// its success depends on the text alone.
#[verifier::external_body]
fn is_json(body: &str) -> (r: bool)
    ensures
        r == is_json_text(body@),
{
    serde_json::from_str::<serde_json::Value>(body).is_ok()
}

/// The string field under `key` of the JSON document `text`: what
/// serde_json's from_str, Value::get and Value::as_str give together.
/// `None` when the text is not JSON, not an object carrying `key`, or the
/// field is not a string; a function of the text and the key alone.
pub uninterp spec fn json_string_field_of(text: Seq<char>, key: Seq<char>) -> Option<Seq<char>>;

/// Relies on serde_json::from_str::<Value>, Value::get with a string index,
/// and Value::as_str: each is deterministic, so what the chain yields
/// depends on the text and the key alone.
#[verifier::external_body]
fn json_string_field(body: &str, key: &str) -> (r: Option<String>)
    ensures
        r is Some <==> json_string_field_of(body@, key@) is Some,
        r matches Some(s) ==> json_string_field_of(body@, key@) == Some(s@),
{
    match serde_json::from_str::<serde_json::Value>(body) {
        Err(_) => None,
        Ok(v) => match v.get(key) {
            None => None,
            Some(f) => match f.as_str() {
                None => None,
                Some(s) => Some(s.to_owned()),
            },
        },
    }
}

/// Combines the two extracted credential fields, reporting the token as
/// missing before the signature, as the platform's response is inspected.
pub fn token_pair(token: Option<String>, sig: Option<String>) -> (r: Result<
    (String, String),
    Error,
>)
    ensures
        r is Ok <==> (token is Some && sig is Some),
        token matches Some(t) ==> (sig matches Some(s) ==> r == Ok::<_, Error>((t, s))),
        token is None ==> r == Err::<(String, String), _>(Error::MissingToken),
        (token is Some && sig is None) ==> r == Err::<(String, String), _>(
            Error::MissingSignature,
        ),
{
    match (token, sig) {
        (Some(t), Some(s)) => Ok((t, s)),
        (None, _) => Err(Error::MissingToken),
        (_, None) => Err(Error::MissingSignature),
    }
}

/// Reads the token endpoint's response body: the `token` and `sig` string
/// fields of its JSON object. A body that is not JSON fails with
/// `DeserializeError`; an absent or non-string `token` field fails with
/// `MissingToken`; then an absent or non-string `sig` field fails with
/// `MissingSignature`.
pub fn extract_token_sig(body: &str) -> (r: Result<(String, String), Error>)
    ensures
        r is Ok <==> (is_json_text(body@) && json_string_field_of(body@, "token"@) is Some
            && json_string_field_of(body@, "sig"@) is Some),
        r matches Ok((t, s)) ==> json_string_field_of(body@, "token"@) == Some(t@)
            && json_string_field_of(body@, "sig"@) == Some(s@),
        (r matches Err(e) && e is DeserializeError) <==> !is_json_text(body@),
        (r matches Err(e) && e is MissingToken) <==> (is_json_text(body@)
            && json_string_field_of(body@, "token"@) is None),
        (r matches Err(e) && e is MissingSignature) <==> (is_json_text(body@)
            && json_string_field_of(body@, "token"@) is Some && json_string_field_of(
            body@,
            "sig"@,
        ) is None),
{
    if !is_json(body) {
        return Err(Error::DeserializeError);
    }
    token_pair(json_string_field(body, "token"), json_string_field(body, "sig"))
}

// ---------------------------------------------------------------------------
// The endpoints
// ---------------------------------------------------------------------------

/// The access-token endpoint for a channel.
pub fn access_token_url(channel: &str) -> (r: String)
    ensures
        r@ == "https://api.twitch.tv/api/channels/"@ + channel@ + "/access_token"@,
{
    let mut r = "https://api.twitch.tv/api/channels/".to_owned();
    r.append(channel);
    r.append("/access_token");
    r
}

/// The master-playlist endpoint for a channel, before query parameters.
pub fn playlist_url(channel: &str) -> (r: String)
    ensures
        r@ == "https://usher.ttvnw.net/api/channel/hls/"@ + channel@ + ".m3u8"@,
{
    let mut r = "https://usher.ttvnw.net/api/channel/hls/".to_owned();
    r.append(channel);
    r.append(".m3u8");
    r
}

/// The header that carries the client identifier on the token request.
pub fn client_id_header() -> (r: &'static str)
    ensures
        r@ == "Client-ID"@,
{
    "Client-ID"
}

/// The query parameters of the playlist request: the token pair first, then
/// the fixed constants the platform expects on every fetch.
pub fn playlist_query_params(token: String, sig: String) -> (r: Vec<(String, String)>)
    ensures
        r@.len() == 6,
        r@[0].0@ == "token"@ && r@[0].1 == token,
        r@[1].0@ == "sig"@ && r@[1].1 == sig,
        r@[2].0@ == "player_backend"@ && r@[2].1@ == "html5"@,
        r@[3].0@ == "player"@ && r@[3].1@ == "twitchweb"@,
        r@[4].0@ == "type"@ && r@[4].1@ == "any"@,
        r@[5].0@ == "allow_source"@ && r@[5].1@ == "true"@,
{
    let mut r: Vec<(String, String)> = Vec::new();
    r.push(("token".to_owned(), token));
    r.push(("sig".to_owned(), sig));
    r.push(("player_backend".to_owned(), "html5".to_owned()));
    r.push(("player".to_owned(), "twitchweb".to_owned()));
    r.push(("type".to_owned(), "any".to_owned()));
    r.push(("allow_source".to_owned(), "true".to_owned()));
    r
}

} // verus!
