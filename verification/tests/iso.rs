use iso_ripper::iso::{entry_name, IsoAction, IsoKind, IsoWalk, WalkStats};

fn visited(action: IsoAction) -> String {
    match action {
        IsoAction::Visit(path) => path,
        _ => panic!("no file"),
    }
}

fn entered(action: IsoAction) -> String {
    match action {
        IsoAction::Enter(path) => path,
        _ => panic!("no directory"),
    }
}

#[test]
fn names_lose_version_and_trailing_dots() {
    assert_eq!(entry_name("FILE.TXT;1"), Some("FILE.TXT".to_string()));
    assert_eq!(entry_name("README.;1"), Some("README".to_string()));
    assert_eq!(entry_name("a;b;c"), Some("a".to_string()));
    assert_eq!(entry_name("x..."), Some("x".to_string()));
    assert_eq!(entry_name(".hidden"), Some(".hidden".to_string()));
}

#[test]
fn dot_entries_and_empty_names_do_not_count() {
    for raw in ["\0", "\x01", ".", "..", "", ";1", "...", "...;1"] {
        assert_eq!(entry_name(raw), None);
    }
    assert_eq!(entry_name("\0\0"), Some("\0\0".to_string()));
}

#[test]
fn a_walk_counts_and_names_what_it_meets() {
    let mut walk = IsoWalk::new();
    assert_eq!(walk.directory(), "");
    assert!(matches!(walk.meet("\0", IsoKind::Directory), IsoAction::Pass));
    assert!(matches!(walk.meet("\x01", IsoKind::Directory), IsoAction::Pass));
    assert_eq!(visited(walk.meet("A.TXT;1", IsoKind::File { size: 10 })), "/A.TXT");
    assert_eq!(entered(walk.meet("SUB", IsoKind::Directory)), "/SUB");
    assert_eq!(walk.directory(), "/SUB");
    assert_eq!(entered(walk.meet("DEEP", IsoKind::Directory)), "/SUB/DEEP");
    assert_eq!(visited(walk.meet("B.;1", IsoKind::File { size: 5 })), "/SUB/DEEP/B");
    walk.leave();
    assert_eq!(visited(walk.meet("LINK", IsoKind::Symlink)), "/SUB/LINK");
    walk.leave();
    assert_eq!(visited(walk.meet("C", IsoKind::File { size: 1 })), "/C");
    assert_eq!(walk.stats(), WalkStats { files: 3, dirs: 2, total_size: 16 });
    walk.leave();
    assert_eq!(walk.directory(), "");
}

#[test]
fn what_does_not_count_leaves_the_statistics_alone() {
    let mut walk = IsoWalk::new();
    assert!(matches!(walk.meet(";1", IsoKind::File { size: 7 }), IsoAction::Pass));
    assert!(matches!(walk.meet("..", IsoKind::Directory), IsoAction::Pass));
    assert_eq!(walk.stats(), WalkStats::default());
    assert_eq!(walk.stats(), WalkStats { files: 0, dirs: 0, total_size: 0 });
}

#[test]
fn counters_start_over_behind_the_last() {
    let mut walk = IsoWalk::new();
    walk.meet("a", IsoKind::File { size: u64::MAX });
    walk.meet("b", IsoKind::File { size: 3 });
    assert_eq!(walk.stats(), WalkStats { files: 2, dirs: 0, total_size: 2 });
}
