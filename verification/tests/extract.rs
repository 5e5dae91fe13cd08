use iso_ripper::extract::{sanitize_path, ExtractAction, ExtractReport, Extraction};
use iso_ripper::udf::tree::UdfEntry;

fn write_of(action: ExtractAction) -> (String, bool) {
    match action {
        ExtractAction::Write { relative, make_dir } => (relative, make_dir),
        _ => panic!("nothing to write"),
    }
}

fn entry(path: &str, is_dir: bool) -> UdfEntry {
    UdfEntry { path: path.to_string(), size: 1, is_dir, modified: None, data_offset: 2048 }
}

#[test]
fn paths_become_relative() {
    assert_eq!(sanitize_path("/a/b.mp3"), Some("a/b.mp3".to_string()));
    assert_eq!(sanitize_path("///a"), Some("a".to_string()));
    assert_eq!(sanitize_path("a"), Some("a".to_string()));
    assert_eq!(sanitize_path("/"), Some("".to_string()));
    assert_eq!(sanitize_path("/a//./b"), Some("a//./b".to_string()));
}

#[test]
fn paths_with_a_parent_directory_are_refused() {
    assert_eq!(sanitize_path("/../etc/passwd"), None);
    assert_eq!(sanitize_path("/a/../b"), None);
    assert_eq!(sanitize_path("/a/.."), None);
    assert_eq!(sanitize_path(".."), None);
    assert_eq!(sanitize_path("/a/../../b"), None);
    assert_eq!(sanitize_path("/..a/b..c/..."), Some("..a/b..c/...".to_string()));
}

#[test]
fn the_extension_is_compared_without_case() {
    let mut extraction = Extraction::new("MP3");
    assert_eq!(write_of(extraction.offer("/Music/A.Mp3")), ("Music/A.Mp3".to_string(), true));
    assert_eq!(write_of(extraction.offer("/b.mp3")), ("b.mp3".to_string(), false));
    assert!(matches!(extraction.offer("/c.mp4"), ExtractAction::Skip));
    assert!(matches!(extraction.offer("/mp3"), ExtractAction::Skip));
    let mut sharp = Extraction::new("Ä");
    assert_eq!(write_of(sharp.offer("/x.ä")), ("x.ä".to_string(), true));
}

#[test]
fn lowercase_texts_can_be_handed_over() {
    let mut extraction = Extraction::of_lowercase("ogg");
    assert_eq!(
        write_of(extraction.offer_lowered("/A.OGG", "/a.ogg")),
        ("A.OGG".to_string(), true)
    );
    assert!(matches!(extraction.offer_lowered("/A.OGG", "/A.OGG"), ExtractAction::Skip));
}

#[test]
fn the_directory_is_made_for_the_first_file_only() {
    let mut extraction = Extraction::new("mp3");
    assert!(matches!(extraction.offer("/x/../a.mp3"), ExtractAction::Refuse));
    assert!(matches!(extraction.offer("/a.txt"), ExtractAction::Skip));
    assert!(write_of(extraction.offer("/a.mp3")).1);
    assert!(matches!(extraction.offer("/../a.mp3"), ExtractAction::Refuse));
    assert!(!write_of(extraction.offer("/b.mp3")).1);
    assert!(!write_of(extraction.offer("/c.mp3")).1);
}

#[test]
fn directories_of_a_volume_are_not_extracted() {
    let mut extraction = Extraction::new("mp3");
    assert!(matches!(extraction.offer_entry(&entry("/d.mp3", true)), ExtractAction::Skip));
    assert_eq!(
        write_of(extraction.offer_entry(&entry("/f.mp3", false))),
        ("f.mp3".to_string(), true)
    );
}

#[test]
fn the_report_counts_files_and_bytes() {
    let mut extraction = Extraction::new("mp3");
    assert_eq!(extraction.report(), ExtractReport { files_extracted: 0, bytes_written: 0 });
    extraction.wrote(65536);
    extraction.wrote(4);
    extraction.finished_file();
    extraction.finished_file();
    assert_eq!(extraction.report(), ExtractReport { files_extracted: 2, bytes_written: 65540 });
    extraction.wrote(u64::MAX);
    assert_eq!(extraction.report().bytes_written, 65539);
}

#[test]
fn the_report_of_a_whole_run() {
    let files: [(&str, &[u64]); 6] = [
        ("/a.MP3", &[65536, 10]),
        ("/b.txt", &[99]),
        ("/x/../c.mp3", &[99]),
        ("/d.mp3", &[]),
        ("/sub/e.mp3", &[5]),
        ("/mp3", &[99]),
    ];
    let mut extraction = Extraction::new("mp3");
    let mut made = 0;
    for (path, pieces) in files {
        if let ExtractAction::Write { make_dir, .. } = extraction.offer(path) {
            made += make_dir as u32;
            for piece in pieces {
                extraction.wrote(*piece);
            }
            extraction.finished_file();
        }
    }
    assert_eq!(made, 1);
    assert_eq!(extraction.report(), ExtractReport { files_extracted: 3, bytes_written: 65551 });
}
