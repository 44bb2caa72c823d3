use coach_app::audio_server::{
    claim_audio_server_port, route_status, set_cache_buster,
    audio_delay_ms, audio_url, content_range_value, cors_headers, cover_url, find_range_header,
    get_cache_buster, guess_mime, init_audio_server_port, mime_for_lowercase_extension, parse_request_kind, plan_range,
    publish_track, register_track, response_headers_for, response_status_for, route_request, track_registry, unregister_track, update_cache_buster,
    video_delay_ms, video_offset_ms, video_url, AudioServer, MediaKind, RangePlan, RequestRoute,
};

fn server_with_port() -> AudioServer {
    let mut s = AudioServer::new();
    init_audio_server_port(&mut s, 8080);
    s
}

fn path_of(url: &str) -> &str {
    &url["http://127.0.0.1:8080".len()..]
}

#[test]
fn urls_name_port_track_and_version() {
    let s = server_with_port();
    assert_eq!(get_cache_buster(&s), 0);
    assert_eq!(audio_url(&s, 3), "http://127.0.0.1:8080/track/3?v=0");
    assert_eq!(video_url(&s, 12), "http://127.0.0.1:8080/video/12?v=0");
    assert_eq!(cover_url(&s, 4, 1), "http://127.0.0.1:8080/cover/4/1?v=0");
}

#[test]
fn cache_buster_follows_the_clock() {
    let mut s = server_with_port();
    let secs = update_cache_buster(&mut s);
    assert_eq!(get_cache_buster(&s), secs);
    let now = std::time::SystemTime::now()
        .duration_since(std::time::UNIX_EPOCH)
        .unwrap()
        .as_secs();
    let v = get_cache_buster(&s);
    assert!(v > 0 && v <= now);
    assert_eq!(audio_url(&s, 1), format!("http://127.0.0.1:8080/track/1?v={v}"));
}

#[test]
fn request_kinds() {
    assert_eq!(parse_request_kind("/track/5?v=1"), Some((MediaKind::Audio, 5)));
    assert_eq!(parse_request_kind("/video/7"), Some((MediaKind::Video, 7)));
    assert_eq!(parse_request_kind("/cover/2/3?v=9"), Some((MediaKind::Cover(3), 2)));
    assert_eq!(parse_request_kind("/cover/2/3/4"), Some((MediaKind::Cover(3), 2)));
    assert_eq!(parse_request_kind("/cover/2"), None);
    assert_eq!(parse_request_kind("/cover/x/3"), None);
    assert_eq!(parse_request_kind("/track/abc"), None);
    assert_eq!(parse_request_kind("/track/+5"), Some((MediaKind::Audio, 5)));
    assert_eq!(parse_request_kind("/track/-5"), None);
    assert_eq!(parse_request_kind("/other/5"), None);
    assert_eq!(parse_request_kind(""), None);
}

#[test]
fn handed_out_urls_route_back() {
    let mut s = server_with_port();
    update_cache_buster(&mut s);
    assert_eq!(parse_request_kind(path_of(&audio_url(&s, 9))), Some((MediaKind::Audio, 9)));
    assert_eq!(parse_request_kind(path_of(&video_url(&s, 9))), Some((MediaKind::Video, 9)));
    assert_eq!(
        parse_request_kind(path_of(&cover_url(&s, 9, 2))),
        Some((MediaKind::Cover(2), 9))
    );
}

#[test]
fn registry_and_routes() {
    let mut s = server_with_port();
    register_track(
        &mut s,
        4,
        "/songs/a.mp3".to_string(),
        Some("/songs/a.webm".to_string()),
        vec!["/songs/a.jpg".to_string()],
        -250,
    );
    assert_eq!(track_registry(&s).len(), 1);
    assert_eq!(video_offset_ms(&s, 4), -250);
    assert_eq!(audio_delay_ms(&s, 4), 250);
    assert_eq!(video_delay_ms(&s, 4), 0);
    assert_eq!(video_offset_ms(&s, 5), 0);
    let url = audio_url(&s, 4);
    match route_request(&s, false, path_of(&url)) {
        RequestRoute::File(p) => assert_eq!(p, "/songs/a.mp3"),
        other => panic!("{other:?}"),
    }
    match route_request(&s, false, "/cover/4/0") {
        RequestRoute::File(p) => assert_eq!(p, "/songs/a.jpg"),
        other => panic!("{other:?}"),
    }
    assert!(matches!(route_request(&s, false, "/cover/4/1"), RequestRoute::NotFound));
    assert!(matches!(route_request(&s, true, "/track/4"), RequestRoute::Preflight));
    assert!(matches!(route_request(&s, false, "/nothing"), RequestRoute::NotFound));
    unregister_track(&mut s, 4);
    assert!(matches!(route_request(&s, false, path_of(&url)), RequestRoute::NotFound));
    assert_eq!(video_offset_ms(&s, 4), 0);
}

#[test]
fn positive_offset_delays_the_video() {
    let mut s = server_with_port();
    register_track(&mut s, 1, "/a.mp3".to_string(), None, Vec::new(), 120);
    assert_eq!(video_delay_ms(&s, 1), 120);
    assert_eq!(audio_delay_ms(&s, 1), 0);
    register_track(&mut s, 2, "/b.mp3".to_string(), None, Vec::new(), i64::MIN);
    assert_eq!(audio_delay_ms(&s, 2), i64::MIN.unsigned_abs());
}

#[test]
fn mime_types() {
    assert_eq!(guess_mime("/a/x.MP3"), "audio/mpeg");
    assert_eq!(guess_mime("/a/x.jpeg"), "image/jpeg");
    assert_eq!(guess_mime("/a/x.JPG"), "image/jpeg");
    assert_eq!(guess_mime("/a/x.webm"), "video/webm");
    assert_eq!(guess_mime("/a/x.mkv"), "video/x-matroska");
    assert_eq!(guess_mime("/a/x.m\u{212A}v"), "video/x-matroska");
    assert_eq!(guess_mime("/a/x"), "application/octet-stream");
    assert_eq!(guess_mime("/a/x.txt"), "application/octet-stream");
    assert_eq!(mime_for_lowercase_extension("flac"), "audio/flac");
    assert_eq!(mime_for_lowercase_extension("mov"), "video/quicktime");
    assert_eq!(mime_for_lowercase_extension("MP3"), "application/octet-stream");
}

#[test]
fn range_header_lookup() {
    let headers = vec![
        ("Host".to_string(), "x".to_string()),
        ("range".to_string(), "bytes=0-1".to_string()),
        ("Range".to_string(), "bytes=5-".to_string()),
    ];
    assert_eq!(find_range_header(&headers), Some("bytes=0-1".to_string()));
    assert_eq!(find_range_header(&Vec::new()), None);
}

#[test]
fn range_plans() {
    assert_eq!(plan_range(None, 1000), RangePlan::Whole);
    assert_eq!(plan_range(Some("items=0-1"), 1000), RangePlan::Whole);
    assert_eq!(plan_range(Some("bytes=0-99"), 1000), RangePlan::Partial { start: 0, end: 99 });
    assert_eq!(plan_range(Some("bytes=-100"), 1000), RangePlan::Partial { start: 900, end: 999 });
    assert_eq!(plan_range(Some("bytes=500-"), 1000), RangePlan::Partial { start: 500, end: 999 });
    assert_eq!(plan_range(Some("bytes=900-2000"), 1000), RangePlan::Partial { start: 900, end: 999 });
    assert_eq!(plan_range(Some("bytes=1000-"), 1000), RangePlan::Unsatisfiable);
    assert_eq!(plan_range(Some("bytes=0-"), 0), RangePlan::Unsatisfiable);
    assert_eq!(plan_range(Some("bytes=abc-5"), 1000), RangePlan::Partial { start: 0, end: 5 });
    assert_eq!(plan_range(Some("bytes=5-x"), 1000), RangePlan::Partial { start: 5, end: 999 });
    assert_eq!(plan_range(Some("bytes=-5000"), 1000), RangePlan::Partial { start: 0, end: 999 });
    assert_eq!(plan_range(Some("bytes=10-5"), 1000), RangePlan::Unsatisfiable);
}

#[test]
fn content_range_header() {
    assert_eq!(content_range_value(0, 99, 1000), "bytes 0-99/1000");
}

fn pairs(v: &[(&str, &str)]) -> Vec<(String, String)> {
    v.iter().map(|(a, b)| (a.to_string(), b.to_string())).collect()
}

#[test]
fn response_status_and_headers() {
    let cors = pairs(&[
        ("Access-Control-Allow-Origin", "*"),
        ("Access-Control-Allow-Methods", "GET, HEAD, OPTIONS"),
        ("Access-Control-Allow-Headers", "Range, Content-Type"),
        ("Access-Control-Expose-Headers", "Content-Range, Accept-Ranges, Content-Length"),
    ]);
    assert_eq!(cors_headers(), cors);
    assert_eq!(response_status_for(RangePlan::Whole), 200);
    assert_eq!(response_status_for(RangePlan::Partial { start: 0, end: 1 }), 206);
    assert_eq!(response_status_for(RangePlan::Unsatisfiable), 416);

    let mut whole = pairs(&[("Content-Type", "audio/mpeg"), ("Accept-Ranges", "bytes")]);
    whole.extend(cors.clone());
    assert_eq!(response_headers_for(RangePlan::Whole, "audio/mpeg", 10), whole);

    let mut part = pairs(&[
        ("Content-Type", "video/webm"),
        ("Content-Range", "bytes 2-5/10"),
        ("Accept-Ranges", "bytes"),
    ]);
    part.extend(cors.clone());
    assert_eq!(response_headers_for(RangePlan::Partial { start: 2, end: 5 }, "video/webm", 10), part);
    assert_eq!(response_headers_for(RangePlan::Unsatisfiable, "video/webm", 10), cors);
}

#[test]
fn published_tracks_are_served() {
    let mut s = server_with_port();
    let links = publish_track(
        &mut s,
        4,
        "/s/a.mp3".to_string(),
        Some("/s/a.webm".to_string()),
        vec!["/s/a.jpg".to_string(), "/s/a_1.png".to_string()],
        -30,
    );
    assert_eq!(links.url, audio_url(&s, 4));
    assert_eq!(links.cover_urls, vec![cover_url(&s, 4, 0), cover_url(&s, 4, 1)]);
    assert_eq!(links.video_url, Some(video_url(&s, 4)));
    match route_request(&s, false, path_of(&links.cover_urls[1])) {
        RequestRoute::File(p) => assert_eq!(p, "/s/a_1.png"),
        other => panic!("{:?}", other),
    }
    assert_eq!(audio_delay_ms(&s, 4), 30);
    let plain = publish_track(&mut s, 5, "/s/b.mp3".to_string(), None, Vec::new(), 0);
    assert!(plain.cover_urls.is_empty());
    assert_eq!(plain.video_url, None);
}

#[test]
fn cache_buster_setter_and_port_claim() {
    let mut s = AudioServer::new();
    assert!(claim_audio_server_port(&mut s, 9000));
    assert!(!claim_audio_server_port(&mut s, 9001));
    set_cache_buster(&mut s, 77);
    assert_eq!(get_cache_buster(&s), 77);
    assert_eq!(audio_url(&s, 2), "http://127.0.0.1:9000/track/2?v=77");
}

#[test]
fn empty_answers() {
    assert_eq!(route_status(&RequestRoute::Preflight), Some(204));
    assert_eq!(route_status(&RequestRoute::NotFound), Some(404));
    assert_eq!(route_status(&RequestRoute::File("/a.mp3".to_string())), None);
    let s = server_with_port();
    assert_eq!(route_status(&route_request(&s, true, "/track/1")), Some(204));
    assert_eq!(route_status(&route_request(&s, false, "/track/1")), Some(404));
}
