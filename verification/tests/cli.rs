use twitchlink::{get_channel_name, Client, Item, Output, Stream};

#[test]
fn channel_name_is_the_trailing_path_segment() {
    assert_eq!(get_channel_name("https://twitch.tv/somechan"), "somechan");
    assert_eq!(get_channel_name("twitch.tv/a/b"), "b");
    assert_eq!(get_channel_name("somechan"), "somechan");
    assert_eq!(get_channel_name("trailing/"), "");
    assert_eq!(get_channel_name(""), "");
}

#[test]
fn client_keeps_its_id() {
    let c = Client::new("abc123".to_string());
    assert_eq!(c.client_id, "abc123");
}

#[test]
fn item_takes_the_display_fields_of_a_stream() {
    let s = Stream {
        resolution: "1920x1080".to_string(),
        bandwidth: "6000000".to_string(),
        link: "http://example.com/x.m3u8".to_string(),
        quality: None,
        ty: "best".to_string(),
    };
    let item = Item::from(s);
    assert_eq!(item.quality, "best");
    assert_eq!(item.resolution, "1920x1080");
    assert_eq!(item.bitrate, "6000000");
}

#[test]
fn output_mode_follows_the_flags() {
    assert_eq!(Output::from_args(false, true, false), Output::PrintAll);
    assert_eq!(Output::from_args(false, true, true), Output::PrintOne);
    assert_eq!(Output::from_args(true, true, true), Output::PrintOneJson);
    assert_eq!(Output::from_args(true, true, false), Output::PrintAllJson);
    assert_eq!(Output::from_args(true, false, true), Output::PrintStreamsJson);
    assert_eq!(Output::from_args(true, false, false), Output::PrintStreamsJson);
    assert_eq!(Output::from_args(false, false, true), Output::OpenPlayer);
    assert_eq!(Output::from_args(false, false, false), Output::OpenPlayer);
}
