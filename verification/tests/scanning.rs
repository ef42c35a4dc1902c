use size_scanner::control::{PAUSED, RUNNING, STOPPED};
use size_scanner::metadata::{Metadata, Timestamp};
use size_scanner::scan::{run_scan, Action, Event, ScanResult, ScanRun};

/// An entry of a made-up directory.
enum Entry {
    Unreadable,
    Unknown(&'static str),
    File(&'static str, u64),
    Link(&'static str),
    Pipe(&'static str),
    Dir(&'static str, Option<Vec<Entry>>),
}

use Entry::{Dir, File, Link, Pipe, Unknown, Unreadable};

const NOTHING: Metadata = Metadata {
    attributes: None,
    is_symlink: false,
    is_dir: false,
    is_file: false,
    len: 0,
    modified: None,
};

fn seconds(secs: u64) -> Option<Timestamp> {
    Some(Timestamp::SinceEpoch { secs, nanos: 0 })
}

fn path_of(entry: &Entry) -> &'static str {
    match entry {
        Unreadable => "",
        Unknown(path) | File(path, _) | Link(path) | Pipe(path) | Dir(path, _) => path,
    }
}

fn metadata_of(entry: &Entry) -> Option<Metadata> {
    match entry {
        Unreadable | Unknown(_) => None,
        File(_, len) => Some(Metadata { is_file: true, len: *len, modified: seconds(*len), ..NOTHING }),
        Link(_) => Some(Metadata { is_symlink: true, is_dir: true, is_file: true, len: 999, ..NOTHING }),
        Pipe(_) => Some(Metadata { len: 999, ..NOTHING }),
        Dir(..) => Some(Metadata { is_dir: true, len: 4096, modified: seconds(7), ..NOTHING }),
    }
}

/// Drives a scan over made-up roots. The control byte is the one given for each time it is read, or
/// says to go on once those are used up.
fn drive(run: &mut ScanRun, roots: &[Entry], bytes: &[u8]) -> (Vec<(u64, &'static str)>, usize) {
    let mut reports = Vec::new();
    let mut waits = 0;
    let mut polls = 0;
    let mut open: Vec<(&Entry, usize)> = Vec::new();
    let mut last: Option<&Entry> = None;
    let mut action = run.next_action();
    loop {
        let event = match action {
            Action::Poll | Action::Wait => {
                if action == Action::Wait {
                    waits += 1;
                }
                let byte = bytes.get(polls).copied().unwrap_or(RUNNING);
                polls += 1;
                Event::Control(byte)
            }
            Action::StatRoot(i) => Event::Meta { path: path_of(&roots[i]), md: metadata_of(&roots[i]) },
            Action::OpenRoot(i) => {
                open.clear();
                last = Some(&roots[i]);
                open_last(&mut open, last)
            }
            Action::OpenEntry => open_last(&mut open, last),
            Action::Next => {
                let (dir, at) = open.pop().unwrap();
                let entries = match dir {
                    Dir(_, Some(entries)) => entries,
                    _ => unreachable!(),
                };
                if at < entries.len() {
                    open.push((dir, at + 1));
                    last = Some(&entries[at]);
                    Event::Entry(!matches!(entries[at], Unreadable))
                } else {
                    Event::End { path: path_of(dir) }
                }
            }
            Action::Stat => {
                let entry = last.unwrap();
                Event::Meta { path: path_of(entry), md: metadata_of(entry) }
            }
            Action::Done => return (reports, waits),
        };
        assert!(run.fits(&event));
        let reply = run.step(event);
        if let Some(progress) = reply.progress {
            reports.push((progress.scanned, progress.label));
        }
        action = reply.action;
    }
}

fn open_last<'a>(open: &mut Vec<(&'a Entry, usize)>, last: Option<&'a Entry>) -> Event<'static> {
    match last {
        Some(Dir(_, Some(_))) => {
            open.push((last.unwrap(), 0));
            Event::Opened(true)
        }
        _ => Event::Opened(false),
    }
}

fn scan(limit: usize, mode: &str, roots: &[Entry], bytes: &[u8]) -> ScanResult {
    let mut run = run_scan(limit, &mode.to_string(), roots.len());
    drive(&mut run, roots, bytes);
    run.finish()
}

fn listed(result: &ScanResult) -> Vec<(u64, &str, Option<i64>)> {
    result.items.iter().map(|i| (i.size, i.path.as_str(), i.modified)).collect()
}

fn disk() -> Vec<Entry> {
    vec![
        Dir(
            "/a",
            Some(vec![
                File("/a/1", 10),
                Unreadable,
                Dir("/a/b", Some(vec![File("/a/b/2", 30), File("/a/b/3", 5), Dir("/a/b/c", Some(vec![]))])),
                Unknown("/a/x"),
                Link("/a/loop"),
                Pipe("/a/pipe"),
                Dir("/a/locked", None),
                File("/a/4", 20),
            ]),
        ),
        Dir("/d", Some(vec![File("/d/5", 25)])),
    ]
}

#[test]
fn files_compete_by_their_own_size() {
    let result = scan(3, "files", &disk(), &[]);
    assert_eq!(
        listed(&result),
        vec![(30, "/a/b/2", Some(30_000)), (25, "/d/5", Some(25_000)), (20, "/a/4", Some(20_000))]
    );
    assert_eq!(result.scanned, 5);
    assert_eq!(result.label, "files");
}

#[test]
fn folders_compete_by_their_total_size() {
    let result = scan(10, "folders", &disk(), &[]);
    assert_eq!(
        listed(&result),
        vec![
            (65, "/a", Some(7000)),
            (35, "/a/b", Some(7000)),
            (25, "/d", Some(7000)),
            (0, "/a/b/c", Some(7000)),
        ]
    );
    assert_eq!(result.scanned, 4);
    assert_eq!(result.label, "folders");
}

#[test]
fn any_other_mode_is_files() {
    let result = scan(1, "Folders", &disk(), &[]);
    assert_eq!(result.label, "files");
    assert_eq!(listed(&result), vec![(30, "/a/b/2", Some(30_000))]);
}

#[test]
fn a_limit_of_none_still_counts() {
    let result = scan(0, "files", &disk(), &[]);
    assert_eq!(listed(&result), vec![]);
    assert_eq!(result.scanned, 5);
}

#[test]
fn no_roots_no_scan() {
    let run = run_scan(5, &"files".to_string(), 0);
    assert_eq!(run.next_action(), Action::Done);
    let result = run.finish();
    assert_eq!((result.items.len(), result.scanned), (0, 0));
}

#[test]
fn a_root_that_cannot_be_read_is_passed_over() {
    let roots = vec![Dir("/locked", None), Dir("/ok", Some(vec![File("/ok/f", 1)]))];
    assert_eq!(listed(&scan(5, "folders", &roots, &[])), vec![(1, "/ok", Some(7000))]);
    assert_eq!(listed(&scan(5, "files", &roots, &[])), vec![(1, "/ok/f", Some(1000))]);
}

#[test]
fn a_root_without_metadata_has_no_time() {
    // Made up as unknown, it opens to nothing, so the times are told by hand.
    let mut run = run_scan(5, &"folders".to_string(), 1);
    assert_eq!(run.step(Event::Control(RUNNING)).action, Action::StatRoot(0));
    assert_eq!(run.step(Event::Meta { path: "/", md: None }).action, Action::Poll);
    assert_eq!(run.step(Event::Control(RUNNING)).action, Action::OpenRoot(0));
    assert_eq!(run.step(Event::Opened(true)).action, Action::Next);
    assert_eq!(run.step(Event::End { path: "/" }).action, Action::Done);
    assert_eq!(listed(&run.finish()), vec![(0, "/", None)]);
}

#[test]
fn pauses_leave_no_trace() {
    let mut run = run_scan(3, &"files".to_string(), 2);
    let (_, waits) = drive(&mut run, &disk(), &[PAUSED, PAUSED, RUNNING, PAUSED, RUNNING, RUNNING, PAUSED]);
    assert_eq!(waits, 4);
    let calm = scan(3, "files", &disk(), &[]);
    assert_eq!(listed(&run.finish()), listed(&calm));
}

#[test]
fn other_control_bytes_go_on() {
    let odd = scan(3, "files", &disk(), &[3, 255, 17]);
    assert_eq!(listed(&odd), listed(&scan(3, "files", &disk(), &[])));
}

#[test]
fn a_stop_keeps_what_was_found() {
    // Read before the root, on entering it, and before each of its entries.
    let result = scan(5, "files", &disk(), &[0, 0, 0, STOPPED]);
    assert_eq!(listed(&result), vec![(10, "/a/1", Some(10_000))]);
    assert_eq!(result.scanned, 1);
    let nothing = scan(5, "files", &disk(), &[STOPPED]);
    assert_eq!(nothing.scanned, 0);
}

#[test]
fn a_stopped_folder_is_not_counted() {
    let stops = [0, 0, 0, STOPPED, STOPPED];
    let result = scan(5, "folders", &disk(), &stops);
    assert_eq!(listed(&result), vec![]);
    assert_eq!(result.scanned, 0);
}

#[test]
fn a_stop_that_is_taken_back_skips_one_root_of_folders() {
    let result = scan(5, "folders", &disk(), &[0, 0, 0, STOPPED]);
    assert_eq!(listed(&result), vec![(25, "/d", Some(7000))]);
}

#[test]
fn a_stop_in_files_mode_is_final() {
    let mut run = run_scan(5, &"files".to_string(), 2);
    drive(&mut run, &disk(), &[0, 0, STOPPED, RUNNING]);
    assert_eq!(run.next_action(), Action::Done);
    let reply = run.step(Event::Control(RUNNING));
    assert_eq!(reply.action, Action::Done);
    assert!(reply.progress.is_none());
}

#[test]
fn the_order_of_entries_does_not_change_the_sizes() {
    let sizes = |names: &[(&'static str, u64)]| -> Vec<u64> {
        let entries = names.iter().map(|(name, size)| File(name, *size)).collect();
        let result = scan(3, "files", &[Dir("/", Some(entries))], &[]);
        result.items.iter().map(|i| i.size).collect()
    };
    let one = sizes(&[("a", 4), ("b", 9), ("c", 4), ("d", 1), ("e", 4)]);
    let two = sizes(&[("e", 4), ("d", 1), ("c", 4), ("b", 9), ("a", 4)]);
    assert_eq!(one, vec![9, 4, 4]);
    assert_eq!(one, two);
}

#[test]
fn files_are_reported_by_three_thousands() {
    let entries: Vec<Entry> = (0..7000).map(|i| File("f", i)).collect();
    let mut run = run_scan(2, &"files".to_string(), 1);
    let (reports, _) = drive(&mut run, &[Dir("/", Some(entries))], &[]);
    assert_eq!(reports, vec![(3000, "files"), (6000, "files")]);
    let result = run.finish();
    assert_eq!(result.scanned, 7000);
    assert_eq!(result.items.iter().map(|i| i.size).collect::<Vec<u64>>(), vec![6999, 6998]);
}

#[test]
fn folders_are_reported_by_five_hundreds() {
    let entries: Vec<Entry> = (0..1200).map(|_| Dir("d", Some(vec![File("f", 2)]))).collect();
    let mut run = run_scan(1, &"folders".to_string(), 1);
    let (reports, _) = drive(&mut run, &[Dir("/", Some(entries))], &[]);
    assert_eq!(reports, vec![(500, "folders"), (1000, "folders")]);
    assert_eq!(listed(&run.finish()), vec![(2400, "/", Some(7000))]);
}

#[test]
fn an_event_out_of_turn_changes_nothing() {
    let mut run = run_scan(5, &"files".to_string(), 1);
    assert_eq!(run.step(Event::Opened(true)).action, Action::Poll);
    assert_eq!(run.step(Event::End { path: "/" }).action, Action::Poll);
    assert_eq!(run.step(Event::Control(RUNNING)).action, Action::Poll);
    assert_eq!(run.step(Event::Control(RUNNING)).action, Action::OpenRoot(0));
    assert_eq!(run.step(Event::Control(PAUSED)).action, Action::OpenRoot(0));
}

#[test]
fn totals_beyond_the_count_do_not_fit() {
    let mut run = run_scan(5, &"folders".to_string(), 1);
    for event in [
        Event::Control(RUNNING),
        Event::Meta { path: "/", md: None },
        Event::Control(RUNNING),
        Event::Opened(true),
        Event::Entry(true),
        Event::Control(RUNNING),
        Event::Meta { path: "/f", md: Some(Metadata { is_file: true, len: u64::MAX, ..NOTHING }) },
        Event::Entry(true),
        Event::Control(RUNNING),
    ] {
        assert!(run.fits(&event));
        run.step(event);
    }
    let one = Event::Meta { path: "/g", md: Some(Metadata { is_file: true, len: 1, ..NOTHING }) };
    let none = Event::Meta { path: "/g", md: Some(Metadata { is_file: true, len: 0, ..NOTHING }) };
    assert!(!run.fits(&one));
    assert!(run.fits(&none));
}

#[test]
fn a_longer_limit_only_extends_the_list() {
    for mode in ["files", "folders"] {
        let long = scan(10, mode, &disk(), &[]);
        for limit in 0..10 {
            let short = scan(limit, mode, &disk(), &[]);
            assert_eq!(short.scanned, long.scanned);
            assert_eq!(short.items.len(), limit.min(long.items.len()));
            for (a, b) in short.items.iter().zip(long.items.iter()) {
                assert_eq!(a.size, b.size);
            }
        }
    }
}

#[test]
fn a_folder_weighs_as_much_as_the_files_below_it() {
    let files = scan(10, "files", &disk()[..1], &[]);
    let folders = scan(10, "folders", &disk()[..1], &[]);
    let total: u64 = files.items.iter().map(|i| i.size).sum();
    assert_eq!((folders.items[0].path.as_str(), folders.items[0].size), ("/a", total));
    assert!(folders.items.iter().all(|i| i.size <= total));
}

#[test]
fn reports_stop_with_the_scan() {
    let entries: Vec<Entry> = (0..7000).map(|i| File("f", i)).collect();
    let mut bytes = vec![RUNNING; 3002];
    bytes.push(STOPPED);
    let mut run = run_scan(2, &"files".to_string(), 1);
    let (reports, _) = drive(&mut run, &[Dir("/", Some(entries))], &bytes);
    assert_eq!(reports, vec![(3000, "files")]);
    assert_eq!(run.finish().scanned, 3000);
}
