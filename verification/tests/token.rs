use twitchlink::token::{
    access_token_url, client_id_header, extract_token_sig, playlist_query_params, playlist_url,
    token_pair,
};
use twitchlink::Error;

#[test]
fn token_and_signature_are_extracted_from_json() {
    let body = "{\"token\":\"tok123\",\"sig\":\"sig456\",\"expires\":99}";
    let (token, sig) = extract_token_sig(body).unwrap();
    assert_eq!(token, "tok123");
    assert_eq!(sig, "sig456");
}

#[test]
fn malformed_json_is_a_deserialize_error() {
    assert_eq!(
        extract_token_sig("{not json at all"),
        Err(Error::DeserializeError)
    );
    assert_eq!(extract_token_sig(""), Err(Error::DeserializeError));
}

#[test]
fn missing_token_field_is_reported() {
    let body = "{\"sig\":\"sig456\"}";
    assert_eq!(extract_token_sig(body), Err(Error::MissingToken));
}

#[test]
fn missing_signature_field_is_reported() {
    let body = "{\"token\":\"tok123\"}";
    assert_eq!(extract_token_sig(body), Err(Error::MissingSignature));
}

#[test]
fn non_string_fields_count_as_missing() {
    let body = "{\"token\":17,\"sig\":\"s\"}";
    assert_eq!(extract_token_sig(body), Err(Error::MissingToken));
    let body = "{\"token\":\"t\",\"sig\":[1,2]}";
    assert_eq!(extract_token_sig(body), Err(Error::MissingSignature));
}

#[test]
fn a_non_object_document_misses_both_fields() {
    assert_eq!(extract_token_sig("[1,2,3]"), Err(Error::MissingToken));
}

#[test]
fn token_pair_reports_the_token_first() {
    assert_eq!(
        token_pair(Some("t".to_string()), Some("s".to_string())),
        Ok(("t".to_string(), "s".to_string()))
    );
    assert_eq!(token_pair(None, Some("s".to_string())), Err(Error::MissingToken));
    assert_eq!(token_pair(None, None), Err(Error::MissingToken));
    assert_eq!(
        token_pair(Some("t".to_string()), None),
        Err(Error::MissingSignature)
    );
}

#[test]
fn the_request_constants_are_fixed() {
    assert_eq!(client_id_header(), "Client-ID");
    let params = playlist_query_params("tok".to_string(), "sg".to_string());
    assert_eq!(
        params,
        vec![
            ("token".to_string(), "tok".to_string()),
            ("sig".to_string(), "sg".to_string()),
            ("player_backend".to_string(), "html5".to_string()),
            ("player".to_string(), "twitchweb".to_string()),
            ("type".to_string(), "any".to_string()),
            ("allow_source".to_string(), "true".to_string()),
        ]
    );
}

#[test]
fn endpoint_urls_carry_the_channel() {
    assert_eq!(
        access_token_url("somechannel"),
        "https://api.twitch.tv/api/channels/somechannel/access_token"
    );
    assert_eq!(
        playlist_url("somechannel"),
        "https://usher.ttvnw.net/api/channel/hls/somechannel.m3u8"
    );
}
