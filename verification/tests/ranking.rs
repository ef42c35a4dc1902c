use size_scanner::context::{Mode, ScanCtx};
use size_scanner::control::Check;
use size_scanner::item::{compare_text, HeapItem};
use std::cmp::Ordering;

fn kept(limit: usize, entries: &[(u64, &str)]) -> Vec<(u64, String)> {
    let mut ctx = ScanCtx::new(limit, Mode::Files);
    for (size, path) in entries {
        ctx.maybe_insert(*size, path, None);
    }
    let (items, scanned) = ctx.into_items();
    assert_eq!(scanned, 0);
    items.into_iter().map(|i| (i.size, i.path)).collect()
}

fn owned(entries: &[(u64, &str)]) -> Vec<(u64, String)> {
    entries.iter().map(|(size, path)| (*size, path.to_string())).collect()
}

fn item(size: u64, path: &str, modified: Option<i64>) -> HeapItem {
    HeapItem { size, path: path.to_string(), modified }
}

#[test]
fn the_largest_are_kept() {
    assert_eq!(
        kept(3, &[(1, "a"), (5, "b"), (3, "c"), (4, "d"), (2, "e")]),
        owned(&[(5, "b"), (4, "d"), (3, "c")])
    );
}

#[test]
fn fewer_than_the_limit_are_all_kept() {
    assert_eq!(kept(9, &[(1, "a"), (2, "b")]), owned(&[(2, "b"), (1, "a")]));
    assert_eq!(kept(0, &[(1, "a")]), owned(&[]));
}

#[test]
fn an_equal_size_does_not_push_out() {
    assert_eq!(kept(1, &[(5, "z"), (5, "a")]), owned(&[(5, "z")]));
}

#[test]
fn among_equal_sizes_the_first_path_gives_way() {
    assert_eq!(kept(2, &[(5, "b"), (5, "a"), (6, "c")]), owned(&[(6, "c"), (5, "b")]));
}

#[test]
fn equal_sizes_are_listed_by_path() {
    assert_eq!(
        kept(5, &[(5, "c"), (7, "z"), (5, "a"), (5, "b")]),
        owned(&[(7, "z"), (5, "a"), (5, "b"), (5, "c")])
    );
}

#[test]
fn texts_compare_like_strings() {
    let texts = ["", "a", "ab", "b", "B", "é", "z", "日", "日本", "\u{10000}", "\u{ffff}"];
    for a in texts {
        for b in texts {
            assert_eq!(compare_text(a, b), a.cmp(b), "{a} {b}");
        }
    }
}

#[test]
fn entries_compare_by_size_then_path() {
    assert_eq!(item(1, "z", None).cmp(&item(2, "a", None)), Ordering::Less);
    assert_eq!(item(2, "b", None).cmp(&item(2, "a", None)), Ordering::Greater);
    assert_eq!(item(2, "a", Some(1)).cmp(&item(2, "a", None)), Ordering::Equal);
    assert_eq!(item(2, "a", None).partial_cmp(&item(2, "b", None)), Some(Ordering::Less));
}

#[test]
fn equality_leaves_the_time_out() {
    assert!(item(2, "a", Some(1)) == item(2, "a", None));
    assert!(item(2, "a", None) != item(2, "b", None));
    assert!(item(2, "a", None) != item(3, "a", None));
    assert!(item(2, "a", None) < item(3, "a", None));
}

#[test]
fn recording_counts_and_reports() {
    let mut ctx = ScanCtx::new(1, Mode::Folders);
    assert!(ctx.record(1, "a", None, 2).is_none());
    let report = ctx.record(2, "b", Some(4), 2).unwrap();
    assert_eq!((report.scanned, report.label), (2, "folders"));
    let (items, scanned) = ctx.into_items();
    assert_eq!(scanned, 2);
    assert_eq!((items[0].size, items[0].path.as_str(), items[0].modified), (2, "b", Some(4)));
    let copy = items[0].clone();
    assert_eq!(copy.path, "b");
}

#[test]
fn nothing_counted_is_a_multiple_too() {
    let ctx = ScanCtx::new(1, Mode::Files);
    let report = ctx.report(3000).unwrap();
    assert_eq!((report.scanned, report.label), (0, "files"));
}

#[test]
fn the_control_byte_is_read() {
    assert_eq!(ScanCtx::check(0), Check::Go);
    assert_eq!(ScanCtx::check(1), Check::Wait);
    assert_eq!(ScanCtx::check(2), Check::Stop);
    assert_eq!(ScanCtx::check(200), Check::Go);
}
