use size_scanner::commands::{
    delete_files, export_data, export_result, window_theme, ExportOutcome, Theme,
};
use size_scanner::control::{pause_scan, resume_scan, stop_scan, PAUSED, RUNNING, STOPPED};
use size_scanner::metadata::{is_reparse, kind, mtime_millis, Kind, Metadata, Timestamp};
use size_scanner::roots::{drive_root, get_drives, scan_roots, Probe};

const PLAIN: Metadata = Metadata {
    attributes: None,
    is_symlink: false,
    is_dir: false,
    is_file: true,
    len: 1,
    modified: None,
};

#[test]
fn reparse_points_are_known_by_their_bit() {
    assert!(is_reparse(&Metadata { attributes: Some(0x400), ..PLAIN }));
    assert!(is_reparse(&Metadata { attributes: Some(0x410), ..PLAIN }));
    assert!(!is_reparse(&Metadata { attributes: Some(0x3ff), ..PLAIN }));
    assert!(!is_reparse(&Metadata { attributes: Some(0x10), is_symlink: true, ..PLAIN }));
}

#[test]
fn without_attributes_links_are_reparse_points() {
    assert!(is_reparse(&Metadata { is_symlink: true, ..PLAIN }));
    assert!(!is_reparse(&PLAIN));
}

#[test]
fn entries_are_sorted_into_kinds() {
    assert_eq!(kind(&PLAIN), Kind::File);
    assert_eq!(kind(&Metadata { is_dir: true, is_file: false, ..PLAIN }), Kind::Dir);
    assert_eq!(kind(&Metadata { is_file: false, ..PLAIN }), Kind::Skip);
    assert_eq!(kind(&Metadata { attributes: Some(0x400), is_dir: true, ..PLAIN }), Kind::Skip);
}

#[test]
fn times_are_given_in_milliseconds() {
    let at = |secs, nanos| {
        mtime_millis(&Metadata { modified: Some(Timestamp::SinceEpoch { secs, nanos }), ..PLAIN })
    };
    assert_eq!(at(0, 0), Some(0));
    assert_eq!(at(1_700_000_000, 999_999_999), Some(1_700_000_000_999));
    assert_eq!(at(9_223_372_036_854_775, 807_000_000), Some(i64::MAX));
    assert_eq!(at(9_223_372_036_854_775, 808_000_000), Some(i64::MIN));
    assert_eq!(at(u64::MAX, 0), Some((u64::MAX as u128 * 1000) as i64));
}

#[test]
fn times_may_be_missing() {
    assert_eq!(mtime_millis(&PLAIN), None);
    assert_eq!(mtime_millis(&Metadata { modified: Some(Timestamp::BeforeEpoch), ..PLAIN }), None);
}

#[test]
fn commands_write_the_control_byte() {
    assert_eq!(stop_scan(Some(RUNNING)), Some(STOPPED));
    assert_eq!(pause_scan(Some(RUNNING)), Some(PAUSED));
    assert_eq!(resume_scan(Some(PAUSED)), Some(RUNNING));
    assert_eq!(resume_scan(Some(STOPPED)), Some(RUNNING));
    assert_eq!(pause_scan(Some(STOPPED)), Some(PAUSED));
}

#[test]
fn commands_without_a_scan_do_nothing() {
    assert_eq!(stop_scan(None), None);
    assert_eq!(pause_scan(None), None);
    assert_eq!(resume_scan(None), None);
}

#[test]
fn drive_roots_are_spelled_out() {
    assert_eq!(drive_root(0), "A:\\");
    assert_eq!(drive_root(25), "Z:\\");
}

#[test]
fn existing_drives_are_listed_in_order() {
    let mut found = [false; 26];
    found[3] = true;
    found[2] = true;
    found[25] = true;
    assert_eq!(get_drives(&Probe::Letters(found)), vec!["C:\\", "D:\\", "Z:\\"]);
}

#[test]
fn drive_c_stands_in_for_none() {
    assert_eq!(get_drives(&Probe::Letters([false; 26])), vec!["C:\\"]);
}

#[test]
fn a_system_without_drives_has_one_root() {
    assert_eq!(get_drives(&Probe::SingleRoot), vec!["/"]);
}

#[test]
fn a_folder_narrows_the_scan() {
    assert_eq!(scan_roots(Some(" /home ".to_string())), Some(vec![" /home ".to_string()]));
    assert_eq!(scan_roots(None), None);
    assert_eq!(scan_roots(Some("".to_string())), None);
    assert_eq!(scan_roots(Some(" \t\r\n\u{3000}".to_string())), None);
    assert_eq!(scan_roots(Some("\u{200b}".to_string())), Some(vec!["\u{200b}".to_string()]));
}

#[test]
fn blank_names_are_those_of_white_space() {
    let white: Vec<char> = ('\0'..=char::MAX)
        .filter(|c| scan_roots(Some(c.to_string())).is_none())
        .collect();
    let mut expected: Vec<char> = ('\u{9}'..='\u{d}').collect();
    expected.extend([' ', '\u{85}', '\u{a0}', '\u{1680}']);
    expected.extend('\u{2000}'..='\u{200a}');
    expected.extend(['\u{2028}', '\u{2029}', '\u{202f}', '\u{205f}', '\u{3000}']);
    assert_eq!(white, expected);
}

#[test]
fn only_light_is_light() {
    assert_eq!(window_theme(&"light".to_string()), Theme::Light);
    assert_eq!(window_theme(&"dark".to_string()), Theme::Dark);
    assert_eq!(window_theme(&"Light".to_string()), Theme::Dark);
}

#[test]
fn deletions_are_reported_one_by_one() {
    let results = delete_files(vec![
        ("/a".to_string(), None),
        ("/b".to_string(), Some("denied".to_string())),
    ]);
    assert_eq!(results.len(), 2);
    assert_eq!((results[0].path.as_str(), results[0].ok), ("/a", true));
    assert_eq!(results[0].error, None);
    assert_eq!((results[1].path.as_str(), results[1].ok), ("/b", false));
    assert_eq!(results[1].error, Some("denied".to_string()));
}

#[test]
fn a_csv_export_is_planned() {
    let headers = vec!["h".to_string()];
    let rows = vec![vec!["c".to_string()]];
    let plan = export_data(&"csv".to_string(), &headers, &rows);
    assert_eq!(plan.content, "\u{feff}\"h\"\r\n\"c\"");
    assert_eq!((plan.filter_name, plan.ext), ("CSV Files", "csv"));
}

#[test]
fn any_other_export_is_text() {
    let headers = vec!["h".to_string()];
    let rows = vec![vec!["cc".to_string()]];
    let plan = export_data(&"CSV".to_string(), &headers, &rows);
    assert_eq!(plan.content, "\u{feff}h \r\n--\r\ncc");
    assert_eq!((plan.filter_name, plan.ext), ("Text Files", "txt"));
}

#[test]
fn exports_are_reported() {
    let told = |outcome| export_result(outcome).map(|r| (r.ok, r.error));
    assert_eq!(told(ExportOutcome::Written), Ok((true, None)));
    assert_eq!(told(ExportOutcome::Cancelled), Ok((false, None)));
    assert_eq!(
        told(ExportOutcome::WriteFailed("full".to_string())),
        Ok((false, Some("full".to_string())))
    );
    assert_eq!(told(ExportOutcome::NoPath("url".to_string())), Err("url".to_string()));
    assert_eq!(told(ExportOutcome::DialogFailed("gone".to_string())), Err("gone".to_string()));
}
