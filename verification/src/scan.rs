//! The walk through the directories, one question to the file system at a time.
//!
//! A scan never touches the file system itself. It asks for one thing after another (an
//! `Action`), is told what came of it (an `Event`) and asks for the next. Whoever drives it keeps
//! the open directories: opening one puts it on top of those that are open, and reporting the end
//! of one takes it off again.

use crate::context::{ContextView, Mode, Progress, ProgressView, ScanCtx};
use crate::control::{Check, PAUSED};
use crate::item::{Item, ItemView};
use crate::metadata::{Kind, Metadata};
use crate::{context, control, metadata, rank};
use vstd::prelude::*;

verus! {

/// A report is due after every so many files.
pub const FILES_PER_REPORT: u64 = 3000;

/// A report is due after every so many directories.
pub const FOLDERS_PER_REPORT: u64 = 500;

/// How many entries a mode counts from one report to the next.
pub open spec fn report_interval(mode: Mode) -> int {
    match mode {
        Mode::Files => FILES_PER_REPORT as int,
        Mode::Folders => FOLDERS_PER_REPORT as int,
    }
}

/// What a scan asks for.
#[derive(Clone, Copy, Debug, PartialEq, Eq, Structural)]
pub enum Action {
    /// Read the control byte.
    Poll,
    /// Sleep for `PAUSE_MILLIS`, then read the control byte.
    Wait,
    /// Get the metadata of this root.
    StatRoot(usize),
    /// Forget the open directories, then open this root.
    OpenRoot(usize),
    /// Open the directory that the last entry is.
    OpenEntry,
    /// Get the next entry of the topmost open directory.
    Next,
    /// Get the metadata of the last entry.
    Stat,
    /// Nothing: the scan is over.
    Done,
}

/// What came of an action.
#[derive(Clone, Copy, Debug)]
pub enum Event<'a> {
    /// The control byte.
    Control(u8),
    /// Whether the directory could be opened.
    Opened(bool),
    /// The directory has another entry; whether it could be read.
    Entry(bool),
    /// The topmost open directory, this one, has no more entries and has been closed.
    End { path: &'a str },
    /// The metadata, if they could be had, of the root or the entry of this path.
    Meta { path: &'a str, md: Option<Metadata> },
}

/// What came of an action, free of how a path is stored.
pub enum EventView {
    Control(u8),
    Opened(bool),
    Entry(bool),
    End { path: Seq<char> },
    Meta { path: Seq<char>, md: Option<Metadata> },
}

impl<'a> View for Event<'a> {
    type V = EventView;

    open spec fn view(&self) -> EventView {
        match *self {
            Event::Control(byte) => EventView::Control(byte),
            Event::Opened(ok) => EventView::Opened(ok),
            Event::Entry(ok) => EventView::Entry(ok),
            Event::End { path } => EventView::End { path: path@ },
            Event::Meta { path, md } => EventView::Meta { path: path@, md },
        }
    }
}

/// Where a scan stands, that is, what it is waiting to be told.
#[derive(Clone, Copy, Debug, PartialEq, Eq, Structural)]
pub enum Phase {
    /// Whether to start on the current root.
    Root,
    /// When the current root was modified.
    RootMeta,
    /// Whether to walk into a directory, modified at this time.
    Enter { modified: Option<i64> },
    /// Whether that directory could be opened.
    Open { modified: Option<i64> },
    /// Whether the topmost open directory has another entry.
    Next,
    /// Whether to go on to an entry, which could be read or could not.
    Entry { ok: bool },
    /// What that entry is.
    Stat,
    /// Nothing any more.
    Done,
}

/// An open directory, free of machine limits.
pub struct FrameView {
    pub modified: Option<i64>,
    pub total: int,
}

/// An open directory: when it was modified and how many bytes were found in it so far.
struct Frame {
    modified: Option<i64>,
    total: u64,
}

impl View for Frame {
    type V = FrameView;

    closed spec fn view(&self) -> FrameView {
        FrameView { modified: self.modified, total: self.total as int }
    }
}

/// The bytes found so far in all of the open directories together.
pub open spec fn pending(frames: Seq<FrameView>) -> int
    decreases frames.len(),
{
    if frames.len() == 0 {
        0
    } else {
        pending(frames.drop_last()) + frames.last().total
    }
}

/// A scan, free of how it is stored.
pub struct ScanView {
    pub ctx: ContextView,
    /// How many roots there are.
    pub roots: int,
    /// The current one.
    pub root: int,
    /// The open directories, the topmost last.
    pub frames: Seq<FrameView>,
    pub phase: Phase,
}

/// What a scan answers to an event, free of how it is stored.
pub struct ReplyView {
    pub progress: Option<ProgressView>,
    pub action: Action,
}

impl ScanView {
    /// What the scan asks for, paused or not.
    pub open spec fn asks(self) -> Action {
        match self.phase {
            Phase::Root => Action::Poll,
            Phase::RootMeta => Action::StatRoot(self.root as usize),
            Phase::Enter { .. } => Action::Poll,
            Phase::Open { .. } => if self.frames.len() == 0 {
                Action::OpenRoot(self.root as usize)
            } else {
                Action::OpenEntry
            },
            Phase::Next => Action::Next,
            Phase::Entry { .. } => Action::Poll,
            Phase::Stat => Action::Stat,
            Phase::Done => Action::Done,
        }
    }

    /// `e` is an event of the kind that the scan is waiting for.
    pub open spec fn answered_by(self, e: EventView) -> bool {
        match self.asks() {
            Action::Poll => e is Control,
            Action::Wait => e is Control,
            Action::StatRoot(_) => e is Meta,
            Action::OpenRoot(_) => e is Opened,
            Action::OpenEntry => e is Opened,
            Action::Next => e is Entry || e is End,
            Action::Stat => e is Meta,
            Action::Done => false,
        }
    }

    /// The entry that is counted and competes on `e`: in files mode a file, once its metadata are
    /// known; in folders mode a directory, once it has been walked to its end.
    pub open spec fn competes(self, e: EventView) -> Option<ItemView> {
        match (self.phase, e) {
            (Phase::Stat, EventView::Meta { path, md: Some(md) }) => if self.ctx.mode == Mode::Files
                && metadata::kind_of(md) == Kind::File {
                Some(ItemView { size: md.len, path, modified: metadata::modified_millis(md) })
            } else {
                None
            },
            (Phase::Next, EventView::End { path }) => if self.ctx.mode == Mode::Folders {
                Some(
                    ItemView {
                        size: self.frames.last().total as u64,
                        path,
                        modified: self.frames.last().modified,
                    },
                )
            } else {
                None
            },
            _ => None,
        }
    }

    /// On to the next root, or to the end after the last one.
    pub open spec fn next_root(self) -> ScanView {
        ScanView {
            root: self.root + 1,
            frames: Seq::empty(),
            phase: if self.root + 1 < self.roots {
                Phase::Root
            } else {
                Phase::Done
            },
            ..self
        }
    }

    /// The topmost open directory holds `bytes` more.
    pub open spec fn add_bytes(self, bytes: int) -> ScanView {
        ScanView {
            frames: self.frames.drop_last().push(
                FrameView { total: self.frames.last().total + bytes, ..self.frames.last() },
            ),
            ..self
        }
    }

    /// A directory of `bytes` bytes lies behind: back to the one that it was found in, or, if it
    /// was a root, on to the next root.
    pub open spec fn returned(self, bytes: int) -> ScanView {
        if self.frames.len() == 0 {
            self.next_root()
        } else {
            ScanView { phase: Phase::Next, ..self.add_bytes(bytes) }
        }
    }

    /// A stop was requested within a walk: in files mode the scan is over; in folders mode the
    /// walk of the current root is, and the next root asks for itself.
    pub open spec fn stopped(self) -> ScanView {
        match self.ctx.mode {
            Mode::Files => ScanView { frames: Seq::empty(), phase: Phase::Done, ..self },
            Mode::Folders => self.next_root(),
        }
    }

    /// Where `e` leaves the walk.
    pub open spec fn moves(self, e: EventView) -> ScanView {
        match (self.phase, e) {
            (Phase::Root, EventView::Control(byte)) => match control::check_of(byte) {
                Check::Wait => self,
                Check::Stop => ScanView { phase: Phase::Done, ..self },
                Check::Go => ScanView {
                    phase: match self.ctx.mode {
                        Mode::Files => Phase::Enter { modified: None },
                        Mode::Folders => Phase::RootMeta,
                    },
                    ..self
                },
            },
            (Phase::RootMeta, EventView::Meta { path: _, md }) => ScanView {
                phase: Phase::Enter {
                    modified: match md {
                        Some(md) => metadata::modified_millis(md),
                        None => None,
                    },
                },
                ..self
            },
            (Phase::Enter { modified }, EventView::Control(byte)) => match control::check_of(byte) {
                Check::Wait => self,
                Check::Stop => self.stopped(),
                Check::Go => ScanView { phase: Phase::Open { modified }, ..self },
            },
            (Phase::Open { modified }, EventView::Opened(ok)) => if ok {
                ScanView {
                    frames: self.frames.push(FrameView { modified, total: 0 }),
                    phase: Phase::Next,
                    ..self
                }
            } else {
                self.returned(0)
            },
            (Phase::Next, EventView::Entry(ok)) => ScanView { phase: Phase::Entry { ok }, ..self },
            (Phase::Next, EventView::End { path: _ }) => ScanView {
                frames: self.frames.drop_last(),
                ..self
            }.returned(self.frames.last().total),
            (Phase::Entry { ok }, EventView::Control(byte)) => match control::check_of(byte) {
                Check::Wait => self,
                Check::Stop => self.stopped(),
                Check::Go => ScanView {
                    phase: if ok {
                        Phase::Stat
                    } else {
                        Phase::Next
                    },
                    ..self
                },
            },
            (Phase::Stat, EventView::Meta { path: _, md: Some(md) }) => match metadata::kind_of(
                md,
            ) {
                Kind::Skip => ScanView { phase: Phase::Next, ..self },
                Kind::Dir => ScanView {
                    phase: Phase::Enter { modified: metadata::modified_millis(md) },
                    ..self
                },
                Kind::File => match self.ctx.mode {
                    Mode::Files => ScanView { phase: Phase::Next, ..self },
                    Mode::Folders => ScanView {
                        phase: Phase::Next,
                        ..self.add_bytes(md.len as int)
                    },
                },
            },
            (Phase::Stat, EventView::Meta { path: _, md: None }) => ScanView {
                phase: Phase::Next,
                ..self
            },
            _ => self,
        }
    }

    /// The scan after `e`.
    pub open spec fn after(self, e: EventView) -> ScanView {
        match self.competes(e) {
            Some(item) => ScanView { ctx: self.ctx.record(item), ..self.moves(e) },
            None => self.moves(e),
        }
    }

    /// What the scan answers to `e`: a report, if an entry was counted and one is due, and what it
    /// asks for next.
    pub open spec fn reply(self, e: EventView) -> ReplyView {
        ReplyView {
            progress: if self.competes(e) is Some {
                self.after(e).ctx.report(report_interval(self.ctx.mode))
            } else {
                None
            },
            action: if self.asks() == Action::Poll && e == EventView::Control(PAUSED) {
                Action::Wait
            } else {
                self.after(e).asks()
            },
        }
    }

    /// The counts can take `e` in: the number of entries counted, and the bytes found in all of the
    /// open directories together, stay within 64 bits.
    pub open spec fn fits(self, e: EventView) -> bool {
        &&& self.competes(e) is Some ==> self.ctx.scanned < u64::MAX
        &&& match (self.phase, e) {
            (Phase::Stat, EventView::Meta { path: _, md: Some(md) }) => self.ctx.mode
                == Mode::Folders && metadata::kind_of(md) == Kind::File ==> pending(self.frames)
                + md.len <= u64::MAX,
            _ => true,
        }
    }

    /// The scan is in order: the list is a ranking, as long as the limit and the number of entries
    /// counted allow, and a directory is open where there must be one.
    pub open spec fn wf(self) -> bool {
        &&& rank::ranked(self.ctx.kept)
        &&& self.ctx.kept.len() == if self.ctx.scanned < self.ctx.limit {
            self.ctx.scanned
        } else {
            self.ctx.limit as int
        }
        &&& 0 <= self.ctx.scanned <= u64::MAX
        &&& 0 <= self.root <= self.roots <= usize::MAX
        &&& forall|i: int| 0 <= i < self.frames.len() ==> 0 <= (#[trigger] self.frames[i]).total
        &&& pending(self.frames) <= u64::MAX
        &&& match self.phase {
            Phase::Root => self.frames.len() == 0 && self.root < self.roots,
            Phase::RootMeta => self.frames.len() == 0 && self.root < self.roots,
            Phase::Enter { .. } => self.root < self.roots,
            Phase::Open { .. } => self.root < self.roots,
            Phase::Next => self.frames.len() > 0 && self.root < self.roots,
            Phase::Entry { .. } => self.frames.len() > 0 && self.root < self.roots,
            Phase::Stat => self.frames.len() > 0 && self.root < self.roots,
            Phase::Done => self.frames.len() == 0,
        }
    }
}

/// What is pending is not negative, with or without the topmost directory.
pub proof fn lemma_pending(frames: Seq<FrameView>)
    requires
        forall|i: int| 0 <= i < frames.len() ==> 0 <= (#[trigger] frames[i]).total,
    ensures
        0 <= pending(frames),
        frames.len() > 0 ==> 0 <= pending(frames.drop_last()),
    decreases frames.len(),
{
    if frames.len() > 0 {
        lemma_pending(frames.drop_last());
    }
}

/// An event that the counts can take in leaves the scan in order.
pub proof fn law_scan_stays_in_order(s: ScanView, e: EventView)
    requires
        s.wf(),
        s.fits(e),
    ensures
        s.after(e).wf(),
{
    lemma_pending(s.frames);
    if s.competes(e) is Some {
        rank::lemma_keep(s.ctx.limit, s.ctx.kept, s.competes(e)->0);
    }
    if s.frames.len() > 0 {
        lemma_pending(s.frames.drop_last());
        let below = s.frames.drop_last();
        assert forall|x: FrameView| #[trigger] below.push(x).drop_last() == below by {
            assert(below.push(x).drop_last() =~= below);
        }
        if below.len() > 0 {
            let under = below.drop_last();
            assert forall|x: FrameView| #[trigger] under.push(x).drop_last() == under by {
                assert(under.push(x).drop_last() =~= under);
            }
        }
    }
    assert forall|x: FrameView| #[trigger] s.frames.push(x).drop_last() == s.frames by {
        assert(s.frames.push(x).drop_last() =~= s.frames);
    }
}

/// What a scan answers to an event: a progress report to hand on, if one is due, and what it asks
/// for next.
#[derive(Clone, Copy, Debug)]
pub struct Reply {
    pub progress: Option<Progress>,
    pub action: Action,
}

impl View for Reply {
    type V = ReplyView;

    open spec fn view(&self) -> ReplyView {
        ReplyView { progress: context::progress_view(self.progress), action: self.action }
    }
}

/// What a scan found.
#[derive(Debug)]
pub struct ScanResult {
    /// The largest entries, from the largest down.
    pub items: Vec<Item>,
    /// How many entries were counted.
    pub scanned: u64,
    /// What was counted.
    pub label: String,
}

/// A scan under way.
pub struct ScanRun {
    ctx: ScanCtx,
    roots: usize,
    root: usize,
    frames: Vec<Frame>,
    /// The bytes found so far in all of the open directories together.
    pending: u64,
    phase: Phase,
}

impl View for ScanRun {
    type V = ScanView;

    closed spec fn view(&self) -> ScanView {
        ScanView {
            ctx: self.ctx@,
            roots: self.roots as int,
            root: self.root as int,
            frames: Seq::new(self.frames@.len(), |i: int| self.frames@[i]@),
            phase: self.phase,
        }
    }
}

/// A scan of `roots` directories that lists at most `limit` entries: the largest folders if `mode`
/// is "folders", else the largest files.
pub fn run_scan(limit: usize, mode: &String, roots: usize) -> (run: ScanRun)
    ensures
        run.wf(),
        run@ == start(
            limit as nat,
            if mode@ == "folders"@ {
                Mode::Folders
            } else {
                Mode::Files
            },
            roots as int,
        ),
{
    let run = ScanRun {
        ctx: ScanCtx::new(limit, Mode::from_name(mode)),
        roots,
        root: 0,
        frames: Vec::new(),
        pending: 0,
        phase: if roots > 0 {
            Phase::Root
        } else {
            Phase::Done
        },
    };
    assert(run@.frames =~= Seq::<FrameView>::empty());
    run
}

/// A scan of `roots` directories that has not begun.
pub open spec fn start(limit: nat, mode: Mode, roots: int) -> ScanView {
    ScanView {
        ctx: ContextView { limit, mode, scanned: 0, kept: Seq::empty() },
        roots,
        root: 0,
        frames: Seq::empty(),
        phase: if roots > 0 {
            Phase::Root
        } else {
            Phase::Done
        },
    }
}

impl ScanRun {
    /// What is stored agrees with itself.
    pub closed spec fn tidy(&self) -> bool {
        &&& self.ctx.wf()
        &&& self.pending == pending(self@.frames)
    }

    /// The scan is in order.
    pub open spec fn wf(&self) -> bool {
        &&& self@.wf()
        &&& self.tidy()
    }

    /// What the scan asks for first.
    pub fn next_action(&self) -> (action: Action)
        requires
            self.wf(),
        ensures
            action == self@.asks(),
            action matches Action::StatRoot(i) ==> i == self@.root,
            action matches Action::OpenRoot(i) ==> i == self@.root,
    {
        match self.phase {
            Phase::Root => Action::Poll,
            Phase::RootMeta => Action::StatRoot(self.root),
            Phase::Enter { .. } => Action::Poll,
            Phase::Open { .. } => if self.frames.len() == 0 {
                Action::OpenRoot(self.root)
            } else {
                Action::OpenEntry
            },
            Phase::Next => Action::Next,
            Phase::Entry { .. } => Action::Poll,
            Phase::Stat => Action::Stat,
            Phase::Done => Action::Done,
        }
    }

    /// Whether the counts can take an event in.
    pub fn fits(&self, event: &Event) -> (fits: bool)
        requires
            self.wf(),
        ensures
            fits == self@.fits(event@),
    {
        match (self.phase, *event) {
            (Phase::Stat, Event::Meta { path: _, md: Some(md) }) => match metadata::kind(&md) {
                Kind::File => match self.ctx.mode() {
                    Mode::Files => self.ctx.scanned() < u64::MAX,
                    Mode::Folders => md.len <= u64::MAX - self.pending,
                },
                _ => true,
            },
            (Phase::Next, Event::End { path: _ }) => match self.ctx.mode() {
                Mode::Files => true,
                Mode::Folders => self.ctx.scanned() < u64::MAX,
            },
            _ => true,
        }
    }

    fn next_root(&mut self)
        requires
            old(self)@.root < old(self)@.roots <= usize::MAX,
            old(self).tidy(),
        ensures
            final(self)@ == old(self)@.next_root(),
            final(self).tidy(),
    {
        self.root = self.root + 1;
        self.frames.clear();
        self.pending = 0;
        self.phase = if self.root < self.roots {
            Phase::Root
        } else {
            Phase::Done
        };
        assert(self@.frames =~= Seq::<FrameView>::empty());
    }

    /// Adds to the topmost open directory without a change of what is pending.
    fn add_bytes(&mut self, bytes: u64)
        requires
            old(self)@.frames.len() > 0,
            old(self)@.frames.last().total + bytes <= u64::MAX,
        ensures
            final(self)@ == old(self)@.add_bytes(bytes as int),
            final(self).ctx == old(self).ctx,
            final(self).pending == old(self).pending,
    {
        let last: usize = self.frames.len() - 1;
        let modified = self.frames[last].modified;
        let total: u64 = self.frames[last].total + bytes;
        self.frames.set(last, Frame { modified, total });
        assert(self@.frames =~= old(self)@.add_bytes(bytes as int).frames);
    }

    /// Leaves a directory of `bytes` bytes, already taken off the open ones but still pending.
    fn returned(&mut self, bytes: u64)
        requires
            old(self)@.root < old(self)@.roots <= usize::MAX,
            old(self).ctx.wf(),
            old(self).pending == pending(old(self)@.frames) + bytes,
            forall|i: int|
                0 <= i < old(self)@.frames.len() ==> 0 <= (#[trigger] old(self)@.frames[i]).total,
        ensures
            final(self)@ == old(self)@.returned(bytes as int),
            final(self).tidy(),
    {
        proof {
            lemma_pending(self@.frames);
        }
        if self.frames.len() == 0 {
            self.pending = 0;
            self.next_root();
        } else {
            self.add_bytes(bytes);
            self.phase = Phase::Next;
            proof {
                let frames = old(self)@.frames;
                assert(self@.frames.drop_last() =~= frames.drop_last());
            }
        }
    }

    fn stopped(&mut self)
        requires
            old(self)@.root < old(self)@.roots <= usize::MAX,
            old(self).tidy(),
        ensures
            final(self)@ == old(self)@.stopped(),
            final(self).tidy(),
    {
        match self.ctx.mode() {
            Mode::Files => {
                self.frames.clear();
                self.pending = 0;
                self.phase = Phase::Done;
                assert(self@.frames =~= Seq::<FrameView>::empty());
            },
            Mode::Folders => {
                self.next_root();
            },
        }
    }

    /// Takes in what came of the last action and asks for the next. An event that does not answer
    /// that action changes nothing, and the action is asked for again.
    pub fn step(&mut self, event: Event) -> (reply: Reply)
        requires
            old(self).wf(),
            old(self)@.fits(event@),
        ensures
            final(self).wf(),
            final(self)@ == old(self)@.after(event@),
            reply@ == old(self)@.reply(event@),
            reply.action matches Action::StatRoot(i) ==> i == final(self)@.root,
            reply.action matches Action::OpenRoot(i) ==> i == final(self)@.root,
    {
        let ghost s = self@;
        let ghost e = event@;
        proof {
            law_scan_stays_in_order(s, e);
            lemma_pending(s.frames);
        }
        let mut progress: Option<Progress> = None;
        match (self.phase, event) {
            (Phase::Root, Event::Control(byte)) => match ScanCtx::check(byte) {
                Check::Wait => {
                    return Reply { progress, action: Action::Wait };
                },
                Check::Stop => {
                    self.phase = Phase::Done;
                },
                Check::Go => {
                    self.phase = match self.ctx.mode() {
                        Mode::Files => Phase::Enter { modified: None },
                        Mode::Folders => Phase::RootMeta,
                    };
                },
            },
            (Phase::RootMeta, Event::Meta { path: _, md }) => {
                self.phase = Phase::Enter {
                    modified: match md {
                        Some(md) => metadata::mtime_millis(&md),
                        None => None,
                    },
                };
            },
            (Phase::Enter { modified }, Event::Control(byte)) => match ScanCtx::check(byte) {
                Check::Wait => {
                    return Reply { progress, action: Action::Wait };
                },
                Check::Stop => {
                    self.stopped();
                },
                Check::Go => {
                    self.phase = Phase::Open { modified };
                },
            },
            (Phase::Open { modified }, Event::Opened(ok)) => if ok {
                self.frames.push(Frame { modified, total: 0 });
                self.phase = Phase::Next;
                assert(self@.frames =~= s.frames.push(FrameView { modified, total: 0 }));
                assert(self@.frames.drop_last() =~= s.frames);
            } else {
                self.returned(0);
            },
            (Phase::Next, Event::Entry(ok)) => {
                self.phase = Phase::Entry { ok };
            },
            (Phase::Next, Event::End { path }) => {
                match self.frames.pop() {
                    Some(frame) => {
                        assert(frame@ == s.frames.last());
                        assert(self@.frames =~= s.frames.drop_last());
                        match self.ctx.mode() {
                            Mode::Files => {},
                            Mode::Folders => {
                                progress =
                                self.ctx.record(
                                    frame.total,
                                    path,
                                    frame.modified,
                                    FOLDERS_PER_REPORT,
                                );
                            },
                        }
                        self.returned(frame.total);
                    },
                    None => {},
                }
            },
            (Phase::Entry { ok }, Event::Control(byte)) => match ScanCtx::check(byte) {
                Check::Wait => {
                    return Reply { progress, action: Action::Wait };
                },
                Check::Stop => {
                    self.stopped();
                },
                Check::Go => {
                    self.phase = if ok {
                        Phase::Stat
                    } else {
                        Phase::Next
                    };
                },
            },
            (Phase::Stat, Event::Meta { path, md: Some(md) }) => match metadata::kind(&md) {
                Kind::Skip => {
                    self.phase = Phase::Next;
                },
                Kind::Dir => {
                    self.phase = Phase::Enter { modified: metadata::mtime_millis(&md) };
                },
                Kind::File => {
                    match self.ctx.mode() {
                        Mode::Files => {
                            progress =
                            self.ctx.record(
                                md.len,
                                path,
                                metadata::mtime_millis(&md),
                                FILES_PER_REPORT,
                            );
                        },
                        Mode::Folders => {
                            self.add_bytes(md.len);
                            self.pending = self.pending + md.len;
                            assert(self@.frames.drop_last() =~= s.frames.drop_last());
                        },
                    }
                    self.phase = Phase::Next;
                },
            },
            (Phase::Stat, Event::Meta { path: _, md: None }) => {
                self.phase = Phase::Next;
            },
            _ => {},
        }
        let action = self.next_action();
        Reply { progress, action }
    }

    /// What the scan has found.
    pub fn finish(self) -> (result: ScanResult)
        ensures
            context::item_views(result.items@) == self@.ctx.kept,
            result.scanned == self@.ctx.scanned,
            result.label@ == context::label_of(self@.ctx.mode),
            result.items@.len() == self@.ctx.kept.len(),
            forall|i: int|
                #![trigger result.items@[i]]
                0 <= i < result.items@.len() ==> result.items@[i].size == self@.ctx.kept[i].size
                    && result.items@[i].path@ == self@.ctx.kept[i].path
                    && result.items@[i].modified == self@.ctx.kept[i].modified,
            self@.ctx.mode == Mode::Files ==> result.label@ == "files"@,
            self@.ctx.mode == Mode::Folders ==> result.label@ == "folders"@,
    {
        let label = self.ctx.mode().label().to_owned();
        let (items, scanned) = self.ctx.into_items();
        ScanResult { items, scanned, label }
    }
}

} // verus!
