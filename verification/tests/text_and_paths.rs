use coach_app::paths::{
    extension, file_stem, first_free_name, gain_sidecar_path, has_extension, has_plain_extension,
    try_gain_sidecar_path, try_video_offset_sidecar_path, unique_dest_candidate, video_offset_sidecar_path,
};
use coach_app::text::{
    is_white_space_char, lower_ascii_char, parse_i64_chars, parse_u64_chars, parse_usize_chars,
    split_lines, split_words, to_chars, trim_chars,
};
use std::path::Path;

fn text(v: &[char]) -> String {
    v.iter().collect()
}

#[test]
fn white_space_matches_std_for_every_char() {
    for code in 0u32..=0x10FFFF {
        if let Some(c) = char::from_u32(code) {
            assert_eq!(is_white_space_char(c), c.is_whitespace(), "{:x}", code);
        }
    }
}

#[test]
fn ascii_lowercase_matches_std() {
    for code in 0u32..0x3000 {
        if let Some(c) = char::from_u32(code) {
            assert_eq!(lower_ascii_char(c), c.to_ascii_lowercase());
        }
    }
}

#[test]
fn number_parsing_matches_std() {
    let samples = [
        "", "+", "-", "0", "+5", "-5", "007", "12a", " 5", "5 ", "-0", "+-1", "--1",
        "18446744073709551615", "18446744073709551616", "9223372036854775807",
        "9223372036854775808", "-9223372036854775808", "-9223372036854775809", "٣",
    ];
    for s in samples {
        let c = to_chars(s);
        assert_eq!(parse_u64_chars(&c), s.parse::<u64>().ok(), "{s:?}");
        assert_eq!(parse_usize_chars(&c), s.parse::<usize>().ok(), "{s:?}");
        assert_eq!(parse_i64_chars(&c), s.parse::<i64>().ok(), "{s:?}");
    }
}

#[test]
fn lines_match_std() {
    let samples = [
        "", "\n", "a", "a\n", "a\r\n", "a\rb\n", "a\r", "a\n\nb", "\r\n\r\n", "x\ny\r\nz",
    ];
    for s in samples {
        let got: Vec<String> = split_lines(&to_chars(s)).iter().map(|l| text(l)).collect();
        let want: Vec<String> = s.lines().map(|l| l.to_string()).collect();
        assert_eq!(got, want, "{s:?}");
    }
}

#[test]
fn words_and_trim_match_std() {
    let samples = ["", "  ", "a", " a  b ", "\u{3000}x\ty\u{85}", "123 Artist - Title"];
    for s in samples {
        let got: Vec<String> = split_words(&to_chars(s)).iter().map(|w| text(w)).collect();
        let want: Vec<String> = s.split_whitespace().map(|w| w.to_string()).collect();
        assert_eq!(got, want, "{s:?}");
        assert_eq!(text(&trim_chars(&to_chars(s))), s.trim());
    }
}

#[test]
fn extension_and_stem_follow_std_path() {
    let samples = [
        "a.txt", ".bashrc", "a.", "..a", "a.b.c", "dir/a.b", "a.txt/", "x.tar.gz", "noext",
        "/music/01 Song.MP3", "", "/",
    ];
    for s in samples {
        let p = Path::new(s);
        let ext = p.extension().and_then(|e| e.to_str()).unwrap_or("");
        assert_eq!(text(&extension(s)), ext, "{s:?}");
        let stem = p.file_stem().and_then(|e| e.to_str()).map(|t| t.to_string());
        assert_eq!(file_stem(s).map(|v| text(&v)), stem, "{s:?}");
    }
}

#[test]
fn has_extension_ignores_ascii_case() {
    assert!(has_extension("/a/cover.JPG", &["jpg", "jpeg"]));
    assert!(!has_extension("/a/cover.png", &["jpg", "jpeg"]));
    assert!(!has_extension("/a/cover", &["jpg", "jpeg"]));
}

#[test]
fn sidecar_paths() {
    assert_eq!(gain_sidecar_path("/songs/Song.mp3"), "/songs/Song.mp3.gain");
    assert_eq!(gain_sidecar_path("/songs/Song"), "/songs/Song.gain");
    assert_eq!(video_offset_sidecar_path("/songs/Song.webm"), "/songs/Song.webm.videooffset");
    assert_eq!(video_offset_sidecar_path("/songs/Song"), "/songs/Song.videooffset");
    assert_eq!(gain_sidecar_path("/songs/Song.mp3/"), "/songs/Song.mp3.gain");
    assert_eq!(gain_sidecar_path("/songs/a\\b.ogg"), "/songs/a\\b.ogg.gain");
    assert_eq!(gain_sidecar_path("/"), "/");
    assert_eq!(try_gain_sidecar_path("/songs/Song.mp3"), Some("/songs/Song.mp3.gain".to_string()));
    assert_eq!(
        try_video_offset_sidecar_path("/songs/Song.webm"),
        Some("/songs/Song.webm.videooffset".to_string())
    );
    assert!(has_plain_extension("/songs/Song.mp3"));
    assert!(has_plain_extension("/songs/Song"));
}

#[test]
fn first_free_names() {
    let taken: Vec<String> = vec!["Song.mp3".into(), "Song_1.mp3".into(), "Other.mp3".into()];
    assert_eq!(first_free_name("Song.mp3", &taken), "Song_2.mp3");
    assert_eq!(first_free_name("New.mp3", &taken), "New.mp3");
    assert_eq!(first_free_name("Other.mp3", &taken), "Other_1.mp3");
    assert_eq!(first_free_name("x", &Vec::new()), "x");
}

#[test]
fn unique_destination_names() {
    assert_eq!(unique_dest_candidate("Song.mp3", 0), "Song.mp3");
    assert_eq!(unique_dest_candidate("Song.mp3", 1), "Song_1.mp3");
    assert_eq!(unique_dest_candidate("Song.mp3", 12), "Song_12.mp3");
    assert_eq!(unique_dest_candidate("noext", 2), "noext_2");
    assert_eq!(unique_dest_candidate("a.", 1), "a_1.");
    assert_eq!(unique_dest_candidate("", 1), "track_1");
}
