use coach_app::data_uri::{makise_data_uri, png_data_uri};
use coach_app::library::{
    archive_entry_path, choose_images, choose_track_visual, classify_song_file, clean_folder_name,
    extract_song_title, filter_tracks, find_containing, is_hitsound_name, is_osz_name, is_track_file,
    pick_track_visual, plan_folder, sanitize_filename, saved_tracks, select_track_media,
    video_offset_from_text, video_offset_text, FolderFile, SongFile,
};
use coach_app::audio_server::{register_track, AudioServer};
use coach_app::osu::{extract_background, extract_video_offset, parse_osu_metadata};
use coach_app::paths::{gain_sidecar_path, video_offset_sidecar_path};
use std::path::Path;

fn strings(v: &[&str]) -> Vec<String> {
    v.iter().map(|s| s.to_string()).collect()
}

const BEATMAP: &str = "osu file format v14\r\n\r\n[General]\r\nAudioFilename: audio.mp3\r\n\r\n[Metadata]\r\nTitle:  Brave Shine \r\nArtist:Aimer\r\nArtist: Aimer (TV Size)\r\n\r\n[Events]\r\n//Background and Video events\r\nVideo,-120,\"clip.mp4\"\r\n  0,0,\"bg.jpg\",0,0\r\n[TimingPoints]\r\nVideo,300,\"late.mp4\"\r\n";

#[test]
fn beatmap_metadata() {
    let (artist, title) = parse_osu_metadata(BEATMAP);
    assert_eq!(artist.as_deref(), Some("Aimer (TV Size)"));
    assert_eq!(title.as_deref(), Some("Brave Shine"));
    assert_eq!(parse_osu_metadata("nothing"), (None, None));
}

#[test]
fn beatmap_background() {
    assert_eq!(extract_background(BEATMAP).as_deref(), Some("bg.jpg"));
    assert_eq!(extract_background("0,0,\"\"\n1,0,\"x.png\""), None);
    assert_eq!(extract_background("0,0,\"first.png\"\n0,0,\"second.png\""), Some("first.png".to_string()));
    assert_eq!(extract_background("0,0,\"open"), None);
}

#[test]
fn beatmap_video_offset() {
    assert_eq!(extract_video_offset(BEATMAP), Some(-120));
    assert_eq!(extract_video_offset("Video,50,\"a.mp4\"\n[Events]\n"), None);
    assert_eq!(extract_video_offset("[events]\nVideo, 75 ,\"a.mp4\""), Some(75));
    assert_eq!(extract_video_offset("[Events]\n[Colours]\nVideo,75,\"a.mp4\""), None);
    assert_eq!(extract_video_offset("[Events]\nVideo,x,\"a.mp4\"\nVideo,9,\"b.mp4\""), Some(9));
}

#[test]
fn song_titles() {
    assert_eq!(extract_song_title("01 My Song.mp3"), "My Song");
    assert_eq!(extract_song_title("123.mp3"), "123");
    assert_eq!(extract_song_title("Song.mp3"), "Song");
    assert_eq!(extract_song_title("01-Song.mp3"), "-Song");
    assert_eq!(extract_song_title("2002 Song"), "Song");
}

#[test]
fn hit_sounds() {
    assert!(is_hitsound_name("soft-hitclap2"));
    assert!(is_hitsound_name("Normal-SliderSlide"));
    assert!(is_hitsound_name("combobreak"));
    assert!(is_hitsound_name("count3s"));
    assert!(!is_hitsound_name("Song"));
    assert!(!is_hitsound_name("audio"));
}

#[test]
fn folder_names() {
    assert_eq!(clean_folder_name("123456 Artist - Title"), "Artist - Title");
    assert_eq!(clean_folder_name("Artist 2"), "Artist 2");
    assert_eq!(clean_folder_name("123"), "");
    assert_eq!(clean_folder_name("  42   a  b "), "a b");
}

#[test]
fn file_name_sanitizing() {
    assert_eq!(sanitize_filename("a<b>:c?.. "), "a_b__c_");
    assert_eq!(sanitize_filename("..."), "track");
    assert_eq!(sanitize_filename("\u{1}x"), "_x");
    assert_eq!(sanitize_filename("AC/DC | Live"), "AC_DC _ Live");
    for name in ["a:b. ", "...", "Clean name", "x\u{1}y?"] {
        let once = sanitize_filename(name);
        assert_eq!(sanitize_filename(&once), once);
    }
    assert_eq!(sanitize_filename("Aimer - Brave Shine"), "Aimer - Brave Shine");
}

#[test]
fn video_offset_sidecar_text() {
    assert_eq!(video_offset_from_text(" -42\n"), -42);
    assert_eq!(video_offset_from_text("abc"), 0);
    assert_eq!(video_offset_from_text(""), 0);
    assert_eq!(video_offset_text(-120), "-120");
    assert_eq!(video_offset_text(0), "0");
    for v in [i64::MIN, -1, 0, 7, 300, i64::MAX] {
        assert_eq!(video_offset_text(v), v.to_string());
        assert_eq!(video_offset_from_text(&video_offset_text(v)), v);
    }
}

#[test]
fn song_files() {
    assert_eq!(classify_song_file("/s/a.mp4"), SongFile::ConvertVideo);
    assert_eq!(classify_song_file("/s/a.FLV"), SongFile::ConvertVideo);
    assert_eq!(classify_song_file("/s/a.webm"), SongFile::Skip);
    assert_eq!(classify_song_file("/s/a.txt"), SongFile::Skip);
    assert_eq!(classify_song_file("/s/normal-hitclap.wav"), SongFile::Skip);
    assert_eq!(classify_song_file("/s/01 Song.MP3"), SongFile::Audio("Song".to_string()));
}

#[test]
fn files_deleted_with_a_track() {
    let t = "/s/Song.mp3";
    assert!(is_track_file(t, "Song.mp3"));
    assert!(is_track_file(t, "song.mp3.gain"));
    assert!(is_track_file(t, "Song.webm.videooffset"));
    assert!(is_track_file(t, "song.videooffset"));
    assert!(!is_track_file(t, "Song_2.jpg"));
    assert!(is_track_file(t, "Song.webm"));
    assert!(!is_track_file(t, "Song_x.jpg"));
    assert!(!is_track_file(t, "Other.mp3"));
    assert!(!is_track_file(t, "Song.txt"));
    assert!(!is_track_file(t, "Songs.mp3"));
}

#[test]
fn sidecars_go_with_their_track() {
    for track in ["/s/Song.mp3", "/s/My.Song.OGG", "/s/plain", "/s/dot."] {
        for sidecar in [gain_sidecar_path(track), video_offset_sidecar_path(track)] {
            let name = Path::new(&sidecar).file_name().unwrap().to_str().unwrap().to_string();
            assert!(is_track_file(track, &name), "{track} {name}");
        }
    }
    assert!(is_track_file("/s/My.Song.OGG", "My.Song.OGG"));
}

#[test]
fn images_without_video() {
    let imgs = strings(&["/f/b.jpg", "/f/a.JPG", "/f/c.png"]);
    assert_eq!(choose_images(imgs.clone(), None, false), strings(&["/f/a.JPG", "/f/b.jpg"]));
    assert_eq!(choose_images(imgs.clone(), Some("B.JPG"), false), strings(&["/f/b.jpg", "/f/a.JPG"]));
    let pngs = strings(&["/f/z.webp", "/f/y.png"]);
    assert_eq!(choose_images(pngs.clone(), None, false), strings(&["/f/z.webp"]));
    assert_eq!(choose_images(pngs.clone(), Some("y.png"), false), strings(&["/f/y.png"]));
    assert_eq!(choose_images(Vec::new(), None, false), Vec::<String>::new());
}

#[test]
fn images_with_video() {
    let imgs = strings(&["/f/b.jpg", "/f/a.jpg", "/f/c.png"]);
    assert_eq!(choose_images(imgs.clone(), Some("c.png"), true), strings(&["/f/c.png"]));
    assert_eq!(choose_images(imgs.clone(), None, true), strings(&["/f/a.jpg"]));
    let pngs = strings(&["/f/z.webp", "/f/y.png", "/f/x.gif"]);
    assert_eq!(choose_images(pngs, None, true), strings(&["/f/y.png"]));
}

#[test]
fn flattening_plan() {
    let files = vec![
        FolderFile { path: "/songs/123 Folder/normal-hitclap.ogg".into(), osu_text: None },
        FolderFile { path: "/songs/123 Folder/audio.mp3".into(), osu_text: None },
        FolderFile { path: "/songs/123 Folder/map.osu".into(), osu_text: Some(BEATMAP.into()) },
        FolderFile { path: "/songs/123 Folder/clip.mp4".into(), osu_text: None },
        FolderFile { path: "/songs/123 Folder/bg.jpg".into(), osu_text: None },
        FolderFile { path: "/songs/123 Folder/other.png".into(), osu_text: None },
    ];
    let plan = plan_folder("/songs/123 Folder", &files).unwrap();
    assert_eq!(plan.title, "Aimer (TV Size) - Brave Shine");
    assert_eq!(plan.audio_source, "/songs/123 Folder/audio.mp3");
    assert_eq!(plan.audio_name, "Aimer (TV Size) - Brave Shine.mp3");
    assert_eq!(plan.image_sources, strings(&["/songs/123 Folder/bg.jpg"]));
    assert_eq!(plan.image_names, strings(&["Aimer (TV Size) - Brave Shine.jpg"]));
    let video = plan.video.unwrap();
    assert_eq!(video.source, "/songs/123 Folder/clip.mp4");
    assert_eq!(video.name, "Aimer (TV Size) - Brave Shine.mp4");
    assert!(video.convert);
}

#[test]
fn flattening_without_beatmap() {
    let files = vec![
        FolderFile { path: "/songs/77 Some Band/song.OGG".into(), osu_text: None },
        FolderFile { path: "/songs/77 Some Band/b.jpg".into(), osu_text: None },
        FolderFile { path: "/songs/77 Some Band/a.jpg".into(), osu_text: None },
    ];
    let plan = plan_folder("/songs/77 Some Band", &files).unwrap();
    assert_eq!(plan.title, "Some Band");
    assert_eq!(plan.audio_name, "Some Band.ogg");
    assert_eq!(plan.image_sources, strings(&["/songs/77 Some Band/a.jpg", "/songs/77 Some Band/b.jpg"]));
    assert_eq!(plan.image_names, strings(&["Some Band.jpg", "Some Band_1.jpg"]));
    assert!(plan.video.is_none());
    let none = vec![FolderFile { path: "/songs/x/soft-hitclap.mp3".into(), osu_text: None }];
    assert!(plan_folder("/songs/x", &none).is_none());
}

#[test]
fn track_media_without_video() {
    let names = strings(&["Song.mp3", "Song_10.jpg", "Song_2.png", "Song_2.jpg", "Song.png", "song.JPG", "Song 3.webp", "Other.jpg"]);
    let (covers, video) = select_track_media("/s/Song.mp3", &names);
    assert_eq!(covers, strings(&["song.JPG", "Song.png", "Song_2.jpg", "Song_2.png", "Song 3.webp", "Song_10.jpg"]));
    assert_eq!(video, None);
}

#[test]
fn track_media_with_video() {
    let names = strings(&["Song.png", "Song.webm", "Song.jpg", "Song_1.jpg", "song.mp4"]);
    let (covers, video) = select_track_media("/s/Song.mp3", &names);
    assert_eq!(covers, strings(&["Song.jpg"]));
    assert_eq!(video, Some("Song.webm".to_string()));
}

#[test]
fn found_media_goes_with_its_track() {
    let names = strings(&["Song.png", "Song.webm", "Song.jpg", "song.mp4"]);
    let (covers, video) = select_track_media("/s/Song.mp3", &names);
    for cover in &covers {
        assert!(is_track_file("/s/Song.mp3", cover));
    }
    assert!(is_track_file("/s/Song.mp3", &video.unwrap()));
    let (covers, _) = select_track_media("/s/Song.mp3", &strings(&["SONG.jpeg", "song.webp"]));
    assert_eq!(covers.len(), 2);
    for cover in &covers {
        assert!(is_track_file("/s/Song.mp3", cover));
    }
    let (_, video) = select_track_media("/s/Song.mp3", &strings(&["Song.m4v"]));
    assert!(!is_track_file("/s/Song.mp3", &video.unwrap()));
}

#[test]
fn visual_choice() {
    let mut server = AudioServer::new();
    register_track(&mut server, 3, "/a.mp3".into(), Some("/a.webm".into()), Vec::new(), 80);
    let video = "http://v".to_string();
    let covers = strings(&["c0", "c1", "c2"]);
    assert_eq!(
        pick_track_visual(&server, 3, Some(&video), &covers, 7, 11),
        Some(("http://v".to_string(), true, 80))
    );
    let mixed = 11u64 ^ 7u64.wrapping_mul(0x9E3779B97F4A7C15) ^ 3u64.wrapping_mul(0xBF58476D1CE4E5B9);
    let k = (mixed as usize) % 3;
    assert_eq!(pick_track_visual(&server, 3, None, &covers, 7, 11), Some((covers[k].clone(), false, 0)));
    assert_eq!(pick_track_visual(&server, 3, None, &Vec::new(), 7, 11), None);
    let chosen = choose_track_visual(&server, 3, None, &covers, 1).unwrap();
    assert!(covers.contains(&chosen.0));
}

#[test]
fn saved_list_and_search() {
    let tracks = vec![
        ("One".to_string(), Some("/s/one.mp3".to_string())),
        ("Two".to_string(), None),
        ("Three".to_string(), Some("/s/three.mp3".to_string())),
    ];
    let saved = saved_tracks(&tracks);
    assert_eq!(saved.len(), 2);
    assert_eq!(saved[0].name, "One");
    assert_eq!(saved[1].path, "/s/three.mp3");
    let names = strings(&["Brave Shine", "Shining Star", "Ärger"]);
    assert_eq!(filter_tracks(&names, "SHIN"), vec![0, 1]);
    assert_eq!(filter_tracks(&names, "ä"), vec![2]);
    assert_eq!(filter_tracks(&names, ""), vec![0, 1, 2]);
    assert_eq!(find_containing(&names, "Shin"), vec![0, 1]);
    assert_eq!(find_containing(&names, "SHIN"), Vec::<usize>::new());
}

#[test]
fn archives() {
    assert!(is_osz_name("Map.OSZ"));
    assert!(!is_osz_name("map.zip"));
    assert_eq!(archive_entry_path("/./a/b"), "a/b");
    assert_eq!(archive_entry_path("//././x"), "x");
    assert_eq!(archive_entry_path("a/./b"), "a/./b");
}

#[test]
fn data_uri() {
    assert_eq!(makise_data_uri(b"hi"), "data:image/png;base64,aGk=");
    assert_eq!(makise_data_uri(b""), "data:image/png;base64,");
    assert_eq!(makise_data_uri(b"png"), "data:image/png;base64,cG5n");
    assert_eq!(png_data_uri("QUJD"), "data:image/png;base64,QUJD");
}
