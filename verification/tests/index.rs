use iso_ripper::index::{
    entry_line, entry_lines, index_file_name, index_iso9660, index_udf, iso_line, write_index,
    IndexHeader, IsoListed,
};
use iso_ripper::iso::{IsoAction, IsoKind, IsoWalk, WalkStats};
use iso_ripper::timestamp::Timestamp;
use iso_ripper::udf::tree::UdfEntry;

fn noon() -> Timestamp {
    Timestamp {
        year: 2020,
        month: 5,
        day: 6,
        hour: 12,
        minute: 0,
        second: 0,
        nanosecond: 0,
        offset_seconds: 0,
    }
}

fn entry(path: &str, size: u64, modified: Option<Timestamp>) -> UdfEntry {
    UdfEntry { path: path.to_string(), size, is_dir: false, modified, data_offset: 0 }
}

#[test]
fn lines_of_files_and_links() {
    assert_eq!(
        iso_line("/a.txt", &IsoListed::File { size: 42 }, noon()),
        "/a.txt\t42\t2020-05-06T12:00:00Z\tfile"
    );
    assert_eq!(
        iso_line("/l", &IsoListed::Symlink { target: Some("../b".to_string()) }, noon()),
        "/l\t0\t2020-05-06T12:00:00Z\tsymlink->../b"
    );
    assert_eq!(
        iso_line("/l", &IsoListed::Symlink { target: None }, noon()),
        "/l\t0\t2020-05-06T12:00:00Z\tsymlink->?"
    );
    assert_eq!(
        entry_line(&entry("/d/f", 7, Some(noon()))),
        "/d/f\t7\t2020-05-06T12:00:00Z\tfile"
    );
    assert_eq!(entry_line(&entry("/d/f", 7, None)), "/d/f\t7\t-\tfile");
}

#[test]
fn an_index_has_a_header_and_a_line_for_each_file() {
    let entries = vec![entry("/a", 1, None), entry("/b/c", 2, Some(noon()))];
    let stats = WalkStats { files: 2, dirs: 1, total_size: 3 };
    let text = index_udf("/isos/x.iso", "VOL", 4096, &stats, &entries);
    assert_eq!(
        text,
        "# iso-ripper index\n\
         # source: /isos/x.iso\n\
         # volume: VOL\n\
         # format: UDF\n\
         # iso_size: 4096\n\
         # files: 2\n\
         # dirs: 1\n\
         # total_content_size: 3\n\
         #\n\
         # PATH\tSIZE\tMODIFIED\tTYPE\n\
         /a\t1\t-\tfile\n\
         /b/c\t2\t2020-05-06T12:00:00Z\tfile\n"
    );
    let lines: Vec<&str> = text.lines().collect();
    assert_eq!(lines.len(), 10 + entries.len());
    assert_eq!(lines[10..].to_vec(), entry_lines(&entries));
}

#[test]
fn the_format_of_an_iso_file_system_has_its_extensions() {
    let stats = WalkStats::default();
    for (joliet, rock_ridge, format) in [
        (false, false, "# format: ISO9660"),
        (true, false, "# format: ISO9660+Joliet"),
        (false, true, "# format: ISO9660+RockRidge"),
        (true, true, "# format: ISO9660+Joliet+RockRidge"),
    ] {
        let text = index_iso9660("s", "  MY SET \t", joliet, rock_ridge, 9, &stats, &vec![]);
        let lines: Vec<&str> = text.lines().collect();
        assert_eq!(lines[2], "# volume: MY SET");
        assert_eq!(lines[3], format);
        assert_eq!(lines.len(), 10);
    }
}

#[test]
fn an_index_without_files_is_a_header() {
    let header = IndexHeader {
        source: "a".to_string(),
        volume: "".to_string(),
        format: "UDF".to_string(),
        iso_size: u64::MAX,
    };
    let text = write_index(&header, &WalkStats { files: 0, dirs: 0, total_size: 0 }, &vec![]);
    assert!(text.ends_with("# PATH\tSIZE\tMODIFIED\tTYPE\n"));
    assert!(text.contains("# volume: \n"));
    assert!(text.contains("# iso_size: 18446744073709551615\n"));
    assert_eq!(index_file_name("disc one"), "disc one.txt");
}

#[test]
fn an_index_can_be_read_back() {
    let entries = vec![entry("/a b/c", 12, Some(noon())), entry("/z", u64::MAX, None)];
    let stats = WalkStats { files: 2, dirs: 1, total_size: 11 };
    let text = index_udf("x y.iso", "My Disc", 99, &stats, &entries);
    let lines: Vec<&str> = text.split_terminator('\n').collect();
    assert_eq!(lines[1].strip_prefix("# source: "), Some("x y.iso"));
    assert_eq!(lines[2].strip_prefix("# volume: "), Some("My Disc"));
    assert_eq!(lines[4].strip_prefix("# iso_size: "), Some("99"));
    let fields: Vec<Vec<&str>> = lines[10..].iter().map(|l| l.split('\t').collect()).collect();
    assert_eq!(fields[0], vec!["/a b/c", "12", "2020-05-06T12:00:00Z", "file"]);
    assert_eq!(fields[1], vec!["/z", "18446744073709551615", "-", "file"]);
}

#[test]
fn an_index_of_a_walk_has_a_line_for_each_visit() {
    let met: [(&str, Option<IsoKind>); 8] = [
        ("\0", Some(IsoKind::Directory)),
        ("A.TXT;1", Some(IsoKind::File { size: 10 })),
        ("SUB", Some(IsoKind::Directory)),
        ("L", Some(IsoKind::Symlink)),
        ("B.;1", Some(IsoKind::File { size: 5 })),
        ("", None),
        (";1", Some(IsoKind::File { size: 7 })),
        ("C", Some(IsoKind::File { size: 1 })),
    ];
    let mut walk = IsoWalk::new();
    let mut lines = Vec::new();
    for (raw, kind) in met {
        let Some(kind) = kind else {
            walk.leave();
            continue;
        };
        if let IsoAction::Visit(path) = walk.meet(raw, kind) {
            let listed = match kind {
                IsoKind::File { size } => IsoListed::File { size },
                _ => IsoListed::Symlink { target: Some("B".to_string()) },
            };
            lines.push(iso_line(&path, &listed, noon()));
        }
    }
    assert_eq!(
        lines,
        vec![
            "/A.TXT\t10\t2020-05-06T12:00:00Z\tfile",
            "/SUB/L\t0\t2020-05-06T12:00:00Z\tsymlink->B",
            "/SUB/B\t5\t2020-05-06T12:00:00Z\tfile",
            "/C\t1\t2020-05-06T12:00:00Z\tfile",
        ]
    );
    let stats = walk.stats();
    assert_eq!(stats, WalkStats { files: 3, dirs: 1, total_size: 16 });
    assert_eq!(lines.iter().filter(|l| l.ends_with("\tfile")).count() as u64, stats.files);
}
