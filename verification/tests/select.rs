use twitchlink::{order, parse, select, Error, Quality, Stream};

fn stream(quality: Option<u32>, ty: &str, link: &str) -> Stream {
    Stream {
        resolution: "0x0".to_string(),
        bandwidth: "0".to_string(),
        link: link.to_string(),
        quality,
        ty: ty.to_string(),
    }
}

#[test]
fn empty_collection_is_offline_under_every_policy() {
    let none: Vec<Stream> = Vec::new();
    assert_eq!(select(&none, &Quality::Best), Err(Error::StreamOffline));
    assert_eq!(select(&none, &Quality::Lowest), Err(Error::StreamOffline));
    assert_eq!(
        select(&none, &Quality::Custom("720".to_string())),
        Err(Error::StreamOffline)
    );
}

#[test]
fn best_picks_the_head_of_the_ordered_collection() {
    let vs = vec![
        stream(Some(480), "480p", "c"),
        stream(None, "best", "a"),
        stream(Some(720), "720p", "b"),
    ];
    let ordered = order(vs);
    assert_eq!(ordered[0].link, "a");
    assert_eq!(ordered[1].link, "b");
    assert_eq!(ordered[2].link, "c");

    let picked = select(&ordered, &Quality::Best).unwrap();
    assert_eq!(picked, ordered[0]);
    let picked = select(&ordered, &Quality::Lowest).unwrap();
    assert_eq!(picked, ordered[2]);
}

#[test]
fn numeric_only_collections_sort_highest_first() {
    let vs = vec![
        stream(Some(160), "160p", "low"),
        stream(Some(1080), "1080p", "high"),
        stream(Some(720), "720p", "mid"),
    ];
    let ordered = order(vs);
    assert_eq!(ordered[0].quality, Some(1080));
    assert_eq!(ordered[1].quality, Some(720));
    assert_eq!(ordered[2].quality, Some(160));
}

#[test]
fn equal_keys_keep_their_given_order() {
    let vs = vec![
        stream(Some(720), "720p", "first"),
        stream(Some(1080), "1080p", "top"),
        stream(Some(720), "720p", "second"),
    ];
    let ordered = order(vs);
    assert_eq!(ordered[0].link, "top");
    assert_eq!(ordered[1].link, "first");
    assert_eq!(ordered[2].link, "second");
}

#[test]
fn source_variant_always_sorts_first() {
    let vs = vec![stream(Some(1080), "1080p", "n"), stream(None, "best", "s")];
    let ordered = order(vs);
    assert_eq!(ordered[0].quality, None);
}

#[test]
fn select_works_without_pre_ordering() {
    let vs = vec![
        stream(Some(480), "480p", "c"),
        stream(Some(720), "720p", "b"),
    ];
    let picked = select(&vs, &Quality::Best).unwrap();
    assert_eq!(picked.link, "b");
    let picked = select(&vs, &Quality::Lowest).unwrap();
    assert_eq!(picked.link, "c");
}

#[test]
fn custom_labels_match_with_and_without_the_trailing_p() {
    let vs = vec![stream(None, "best", "a"), stream(Some(720), "720p", "b")];
    let with_p = select(&vs, &Quality::Custom("720p".to_string())).unwrap();
    let without_p = select(&vs, &Quality::Custom("720".to_string())).unwrap();
    assert_eq!(with_p, without_p);
    assert_eq!(with_p.link, "b");
}

#[test]
fn custom_label_is_case_insensitive() {
    let vs = vec![stream(None, "best", "a"), stream(Some(720), "720p", "b")];
    let picked = select(&vs, &Quality::Custom("720P".to_string())).unwrap();
    assert_eq!(picked.link, "b");
}

#[test]
fn unavailable_custom_label_reports_the_normalized_label() {
    let vs = vec![stream(None, "best", "a"), stream(Some(720), "720p", "b")];
    assert_eq!(
        select(&vs, &Quality::Custom("1080p".to_string())),
        Err(Error::QualityUnavailable("1080p".to_string()))
    );
    assert_eq!(
        select(&vs, &Quality::Custom("1080".to_string())),
        Err(Error::QualityUnavailable("1080p".to_string()))
    );
}

#[test]
fn best_label_is_selectable_by_name() {
    let vs = vec![stream(None, "best", "a"), stream(Some(720), "720p", "b")];
    // "best" has no trailing 'p', so the lookup normalizes it to "bestp".
    assert_eq!(
        select(&vs, &Quality::Custom("best".to_string())),
        Err(Error::QualityUnavailable("bestp".to_string()))
    );
}

#[test]
fn selection_composes_with_parsing() {
    let mut p = String::new();
    p.push_str("#EXT-X-STREAM-INF:BANDWIDTH=6000000,RESOLUTION=1920x1080,VIDEO=\"chunked\"\n");
    p.push_str("http://example.com/chunked.m3u8\n");
    p.push_str("#EXT-X-STREAM-INF:BANDWIDTH=3000000,RESOLUTION=1280x720,VIDEO=\"720\"\n");
    p.push_str("http://example.com/720.m3u8\n");
    let streams = parse(&p).unwrap();
    let best = select(&streams, &Quality::Best).unwrap();
    assert_eq!(best.link, "http://example.com/chunked.m3u8");
    let lowest = select(&streams, &Quality::Lowest).unwrap();
    assert_eq!(lowest.link, "http://example.com/720.m3u8");
    // A label the collection does not carry.
    assert_eq!(
        select(&streams, &Quality::Custom("1080p".to_string())),
        Err(Error::QualityUnavailable("1080p".to_string()))
    );
}

#[test]
fn quality_words_parse_case_insensitively() {
    assert_eq!(Quality::from_str("best"), Ok(Quality::Best));
    assert_eq!(Quality::from_str("BEST"), Ok(Quality::Best));
    assert_eq!(Quality::from_str("highest"), Ok(Quality::Best));
    assert_eq!(Quality::from_str("worst"), Ok(Quality::Lowest));
    assert_eq!(Quality::from_str("lowest"), Ok(Quality::Lowest));
    assert_eq!(
        Quality::from_str("720P"),
        Ok(Quality::Custom("720p".to_string()))
    );
    assert_eq!(
        Quality::from_str("audio_only"),
        Ok(Quality::Custom("audio_only".to_string()))
    );
}
