use coach_app::archive::{osz_archive_files, osz_files, ZipEntry};
use std::io::Write;

fn archive(files: &[(&str, &[u8])], dirs: &[&str]) -> Vec<u8> {
    let mut writer = zip::ZipWriter::new(std::io::Cursor::new(Vec::new()));
    let options = zip::write::SimpleFileOptions::default()
        .compression_method(zip::CompressionMethod::Stored);
    for dir in dirs {
        writer.add_directory(*dir, options).unwrap();
    }
    for (name, data) in files {
        writer.start_file(*name, options).unwrap();
        writer.write_all(data).unwrap();
    }
    writer.finish().unwrap().into_inner()
}

#[test]
fn beatmap_archive_unpacks_its_files() {
    let bytes = archive(
        &[("song.mp3", b"ID3"), ("maps/hard.osu", b"osu file format v14"), ("bg.jpg", b"")],
        &["maps/"],
    );
    let files = osz_archive_files(&bytes).unwrap();
    assert_eq!(
        files,
        vec![
            ("song.mp3".to_string(), b"ID3".to_vec()),
            ("maps/hard.osu".to_string(), b"osu file format v14".to_vec()),
            ("bg.jpg".to_string(), Vec::new()),
        ]
    );
}

#[test]
fn bytes_that_are_no_archive() {
    assert_eq!(osz_archive_files(b"not a zip file"), None);
    assert_eq!(osz_archive_files(b""), None);
}

#[test]
fn entries_without_enclosed_name() {
    let entry = |name: Option<&str>, is_dir: bool, enclosed: Option<&str>, data: &[u8]| {
        Some(ZipEntry {
            name: name.map(|n| n.to_string()),
            is_dir,
            enclosed: enclosed.map(|e| e.to_string()),
            data: data.to_vec(),
        })
    };
    let entries = vec![
        entry(Some("/abs/a.mp3"), false, None, b"a"),
        entry(Some("./b.jpg"), false, None, b"b"),
        entry(Some("dir/"), true, Some("dir"), b""),
        entry(None, false, Some("x"), b"x"),
        None,
        entry(Some("c/d.osu"), false, Some("c/d.osu"), b"d"),
    ];
    assert_eq!(
        osz_files(&entries),
        vec![
            ("abs/a.mp3".to_string(), b"a".to_vec()),
            ("b.jpg".to_string(), b"b".to_vec()),
            ("c/d.osu".to_string(), b"d".to_vec()),
        ]
    );
}
