use twitchlink::{parse, parse_with_warnings, Error};

fn two_variant_playlist() -> String {
    let mut p = String::new();
    p.push_str("#EXT-X-STREAM-INF:PROGRAM-ID=1,BANDWIDTH=6000000,RESOLUTION=1920x1080,CODECS=\"avc1\",VIDEO=\"chunked\"\n");
    p.push_str("http://example.com/chunked.m3u8\n");
    p.push_str("#EXT-X-STREAM-INF:PROGRAM-ID=1,BANDWIDTH=3000000,RESOLUTION=1280x720,CODECS=\"avc1\",VIDEO=\"720\"\n");
    p.push_str("http://example.com/720.m3u8\n");
    p
}

#[test]
fn two_pairs_yield_best_then_720p() {
    let streams = parse(&two_variant_playlist()).unwrap();
    assert_eq!(streams.len(), 2);

    assert_eq!(streams[0].quality, None);
    assert_eq!(streams[0].ty, "best");
    assert_eq!(streams[0].resolution, "1920x1080");
    assert_eq!(streams[0].bandwidth, "6000000");
    assert_eq!(streams[0].link, "http://example.com/chunked.m3u8");

    assert_eq!(streams[1].quality, Some(720));
    assert_eq!(streams[1].ty, "720p");
    assert_eq!(streams[1].resolution, "1280x720");
    assert_eq!(streams[1].bandwidth, "3000000");
    assert_eq!(streams[1].link, "http://example.com/720.m3u8");
}

#[test]
fn tag_480_parses_and_audio_only_is_skipped() {
    let mut p = String::new();
    p.push_str("#EXT-X-STREAM-INF:BANDWIDTH=128000,RESOLUTION=0x0,VIDEO=\"audio_only\"\n");
    p.push_str("http://example.com/audio.m3u8\n");
    p.push_str("#EXT-X-STREAM-INF:BANDWIDTH=1000000,RESOLUTION=852x480,VIDEO=\"480\"\n");
    p.push_str("http://example.com/480.m3u8\n");
    let streams = parse(&p).unwrap();
    assert_eq!(streams.len(), 1);
    assert_eq!(streams[0].quality, Some(480));
    assert_eq!(streams[0].ty, "480p");
    assert_eq!(streams[0].link, "http://example.com/480.m3u8");
}

#[test]
fn unknown_tags_are_returned_as_warnings() {
    let mut p = String::new();
    p.push_str("#EXT-X-STREAM-INF:BANDWIDTH=128000,RESOLUTION=0x0,VIDEO=\"audio_only\"\n");
    p.push_str("http://example.com/audio.m3u8\n");
    p.push_str("#EXT-X-STREAM-INF:BANDWIDTH=1000000,RESOLUTION=852x480,VIDEO=\"480\"\n");
    p.push_str("http://example.com/480.m3u8\n");
    let (streams, warnings) = parse_with_warnings(&p).unwrap();
    assert_eq!(streams.len(), 1);
    assert_eq!(warnings, vec!["audio_only".to_string()]);
}

#[test]
fn recognized_tags_produce_no_warnings() {
    let (streams, warnings) = parse_with_warnings(&two_variant_playlist()).unwrap();
    assert_eq!(streams.len(), 2);
    assert_eq!(warnings.len(), 0);
}

#[test]
fn each_skipped_tag_warns_once_in_order() {
    let mut p = String::new();
    p.push_str("#EXT-X-STREAM-INF:BANDWIDTH=1,RESOLUTION=0x0,VIDEO=\"audio_only\"\n");
    p.push_str("uri-one\n");
    p.push_str("#EXT-X-STREAM-INF:BANDWIDTH=2,RESOLUTION=0x0,VIDEO=\"hd\"\n");
    p.push_str("uri-two\n");
    let (streams, warnings) = parse_with_warnings(&p).unwrap();
    assert_eq!(streams.len(), 0);
    assert_eq!(warnings, vec!["audio_only".to_string(), "hd".to_string()]);
}

#[test]
fn empty_playlist_yields_no_variants() {
    let streams = parse("").unwrap();
    assert_eq!(streams.len(), 0);
}

#[test]
fn duplicate_quality_keys_collapse_to_the_last() {
    let mut p = String::new();
    p.push_str("#EXT-X-STREAM-INF:BANDWIDTH=1,RESOLUTION=1280x720,VIDEO=\"720\"\n");
    p.push_str("http://example.com/first.m3u8\n");
    p.push_str("#EXT-X-STREAM-INF:BANDWIDTH=2,RESOLUTION=1280x720,VIDEO=\"720\"\n");
    p.push_str("http://example.com/second.m3u8\n");
    let streams = parse(&p).unwrap();
    assert_eq!(streams.len(), 1);
    assert_eq!(streams[0].bandwidth, "2");
    assert_eq!(streams[0].link, "http://example.com/second.m3u8");
}

#[test]
fn variant_count_equals_distinct_keys() {
    let mut p = two_variant_playlist();
    // A third pair repeating the 720 key: still two distinct keys.
    p.push_str("#EXT-X-STREAM-INF:BANDWIDTH=9,RESOLUTION=1280x720,VIDEO=\"720\"\n");
    p.push_str("http://example.com/repeat.m3u8\n");
    let streams = parse(&p).unwrap();
    assert_eq!(streams.len(), 2);
}

#[test]
fn missing_bandwidth_is_an_invalid_playlist() {
    let p = "#EXT-X-STREAM-INF:RESOLUTION=1280x720,VIDEO=\"720\"\nhttp://example.com/x.m3u8\n";
    assert_eq!(parse(p), Err(Error::InvalidPlaylist));
}

#[test]
fn unterminated_resolution_is_an_invalid_playlist() {
    // RESOLUTION is last on the line, so no comma terminates it.
    let p = "#EXT-X-STREAM-INF:BANDWIDTH=1000,VIDEO=\"720\",RESOLUTION=1280x720\nuri\n";
    assert_eq!(parse(p), Err(Error::InvalidPlaylist));
}

#[test]
fn uri_without_attributes_is_ignored() {
    let p = "http://example.com/lost.m3u8\n";
    let streams = parse(p).unwrap();
    assert_eq!(streams.len(), 0);
}

#[test]
fn second_attribute_line_replaces_a_pending_one() {
    let mut p = String::new();
    p.push_str("#EXT-X-STREAM-INF:BANDWIDTH=1,RESOLUTION=1920x1080,VIDEO=\"1080\"\n");
    p.push_str("#EXT-X-STREAM-INF:BANDWIDTH=2,RESOLUTION=1280x720,VIDEO=\"720\"\n");
    p.push_str("http://example.com/only.m3u8\n");
    let streams = parse(&p).unwrap();
    assert_eq!(streams.len(), 1);
    assert_eq!(streams[0].quality, Some(720));
    assert_eq!(streams[0].resolution, "1280x720");
}

#[test]
fn comment_lines_between_attributes_and_uri_are_skipped() {
    let mut p = String::new();
    p.push_str("#EXT-X-STREAM-INF:BANDWIDTH=1,RESOLUTION=1280x720,VIDEO=\"720\"\n");
    p.push_str("#EXT-X-SOME-OTHER-DIRECTIVE\n");
    p.push_str("http://example.com/x.m3u8\n");
    let streams = parse(&p).unwrap();
    assert_eq!(streams.len(), 1);
    assert_eq!(streams[0].link, "http://example.com/x.m3u8");
}

#[test]
fn carriage_returns_are_stripped_from_lines() {
    let p = "#EXT-X-STREAM-INF:BANDWIDTH=1,RESOLUTION=1280x720,VIDEO=\"720\"\r\nhttp://example.com/x.m3u8\r\n";
    let streams = parse(p).unwrap();
    assert_eq!(streams.len(), 1);
    assert_eq!(streams[0].link, "http://example.com/x.m3u8");
}

#[test]
fn tag_with_numeric_prefix_takes_its_first_three_digits() {
    let p = "#EXT-X-STREAM-INF:BANDWIDTH=1,RESOLUTION=852x480,VIDEO=\"480p30\"\nuri\n";
    let streams = parse(p).unwrap();
    assert_eq!(streams.len(), 1);
    assert_eq!(streams[0].quality, Some(480));
    assert_eq!(streams[0].ty, "480p");
}

#[test]
fn plus_sign_prefix_parses_like_the_number() {
    let p = "#EXT-X-STREAM-INF:BANDWIDTH=1,RESOLUTION=1x1,VIDEO=\"+48\"\nuri\n";
    let streams = parse(p).unwrap();
    assert_eq!(streams.len(), 1);
    assert_eq!(streams[0].quality, Some(48));
    assert_eq!(streams[0].ty, "48p");
}

#[test]
fn short_unknown_tag_is_skipped_without_aborting() {
    let mut p = String::new();
    p.push_str("#EXT-X-STREAM-INF:BANDWIDTH=1,RESOLUTION=1x1,VIDEO=\"hd\"\n");
    p.push_str("http://example.com/hd.m3u8\n");
    p.push_str("#EXT-X-STREAM-INF:BANDWIDTH=2,RESOLUTION=1280x720,VIDEO=\"720\"\n");
    p.push_str("http://example.com/720.m3u8\n");
    let streams = parse(&p).unwrap();
    assert_eq!(streams.len(), 1);
    assert_eq!(streams[0].quality, Some(720));
}
