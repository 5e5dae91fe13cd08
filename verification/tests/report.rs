use iso_ripper::extract::ExtractReport;
use iso_ripper::probe::ProbeResult;
use iso_ripper::report::{
    count_formats, count_line, extract_detail, index_detail, is_image_extension,
    is_lowered_image_extension, probe_note, probe_row, table_heading, table_rule, total_line,
    total_size, FormatCount, ProbeOutcome, ProbeRow,
};

fn result(file_size: u64, has_iso9660: bool, has_udf: bool) -> ProbeResult {
    ProbeResult {
        file_size,
        has_iso9660,
        has_joliet: false,
        has_rock_ridge: false,
        has_udf,
        has_el_torito: false,
    }
}

fn probed(name: &str, result: ProbeResult) -> ProbeRow {
    ProbeRow {
        name: name.to_string(),
        outcome: ProbeOutcome::Probed { result, size: "1.0 KB".to_string() },
    }
}

fn failed(name: &str) -> ProbeRow {
    ProbeRow {
        name: name.to_string(),
        outcome: ProbeOutcome::Failed { error: "opening it".to_string() },
    }
}

#[test]
fn images_are_known_by_their_extension() {
    assert!(is_image_extension("iso"));
    assert!(is_image_extension("ISO"));
    assert!(is_image_extension("Iso"));
    assert!(!is_image_extension("is"));
    assert!(!is_image_extension("iso1"));
    assert!(!is_image_extension(""));
    assert!(is_lowered_image_extension("iso"));
    assert!(!is_lowered_image_extension("ISO"));
}

#[test]
fn rows_are_laid_out_in_columns() {
    assert_eq!(
        table_heading(),
        format!("{:<60} {:>10} {:<30} {}", "FILENAME", "SIZE", "FORMAT", "NOTES")
    );
    assert_eq!(table_rule(), "-".repeat(110));
    assert_eq!(
        probe_row(&probed("a.iso", result(1, true, false))),
        format!("{:<60} {:>10} {:<30} {}", "a.iso", "1.0 KB", "ISO9660", "")
    );
    assert_eq!(
        probe_row(&probed("u.iso", result(1, false, true))),
        format!(
            "{:<60} {:>10} {:<30} {}",
            "u.iso", "1.0 KB", "UDF", "*** UDF-only, will be skipped ***"
        )
    );
    assert_eq!(
        probe_row(&failed("b.iso")),
        format!("{:<60} {:>10} {:<30} {:#}", "b.iso", "?", "ERROR", "opening it")
    );
}

#[test]
fn notes_point_out_what_is_skipped() {
    assert_eq!(probe_note(&result(1, false, true)), "*** UDF-only, will be skipped ***");
    assert_eq!(probe_note(&result(1, false, false)), "*** Unknown format ***");
    assert_eq!(probe_note(&result(1, true, false)), "");
    assert_eq!(probe_note(&result(1, true, true)), "");
}

#[test]
fn formats_are_counted_and_ranked() {
    let rows = vec![
        probed("1", result(10, false, true)),
        probed("2", result(20, true, false)),
        failed("3"),
        probed("4", result(30, true, false)),
        probed("5", result(40, false, false)),
        probed("6", result(50, true, false)),
        probed("7", result(60, false, true)),
    ];
    let counts = count_formats(&rows);
    let plain: Vec<(&str, u64)> = counts.iter().map(|c| (c.format.as_str(), c.count)).collect();
    assert_eq!(plain, vec![("ISO9660", 3), ("UDF", 2), ("Unknown", 1)]);
    assert_eq!(counts.iter().map(|c| c.count).sum::<u64>(), 6);
    assert_eq!(total_size(&rows), 210);
    assert_eq!(count_line(&counts[0]), "  ISO9660: 3");
    assert_eq!(total_line(7, "210.0 B"), "  Total: 7 ISOs, 210.0 B");
}

#[test]
fn nothing_probed_has_no_formats() {
    assert!(count_formats(&vec![]).is_empty());
    assert!(count_formats(&vec![failed("x")]).is_empty());
    assert_eq!(total_size(&vec![failed("x")]), 0);
    let count = FormatCount { format: "F".to_string(), count: 12 };
    assert_eq!(count_line(&count), "  F: 12");
}

#[test]
fn sizes_start_over_behind_the_last() {
    let rows = vec![
        probed("1", result(u64::MAX, true, false)),
        probed("2", result(5, true, false)),
    ];
    assert_eq!(total_size(&rows), 4);
}

#[test]
fn details_of_reports() {
    assert_eq!(index_detail(0), "(0 files)");
    assert_eq!(index_detail(12), "(12 files)");
    let report = ExtractReport { files_extracted: 3, bytes_written: 2048 };
    assert_eq!(extract_detail(&report, "2.0 KB"), "(3 files, 2.0 KB)");
}
