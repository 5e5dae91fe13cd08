use iso_ripper::progress::Progress;

#[test]
fn reports_are_numbered_and_counted() {
    let mut progress = Progress::new(3);
    assert_eq!(progress.summary(), (0, 0));
    assert_eq!(progress.exit_code(), 1);
    assert_eq!(progress.report_ok("a.iso", "(7 files)"), "[1/3] OK  a.iso (7 files)");
    assert_eq!(progress.report_err("b.iso", "boom"), "[2/3] ERR b.iso -- boom");
    assert_eq!(progress.report_ok("c.iso", "(0 files)"), "[3/3] OK  c.iso (0 files)");
    assert_eq!(progress.summary(), (2, 1));
    assert_eq!(progress.exit_code(), 0);
    assert_eq!(progress.closing_line(), "Done: 2 succeeded, 1 failed");
    assert_eq!(progress.total, 3);
}

#[test]
fn nothing_done_is_a_failure() {
    let mut progress = Progress::new(1);
    assert_eq!(progress.report_err("x.iso", "no"), "[1/1] ERR x.iso -- no");
    assert_eq!(progress.exit_code(), 1);
    assert_eq!(progress.closing_line(), "Done: 0 succeeded, 1 failed");
}
