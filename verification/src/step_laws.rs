//! What a scan does with each thing that it is told.

use crate::context::{Mode, ProgressView};
use crate::item::ItemView;
use crate::metadata::Metadata;
use crate::scan::{Action, Event, EventView, FrameView, Phase, Reply, ReplyView, ScanView};
use crate::{metadata, rank, scan};
use vstd::prelude::*;

verus! {

/// What is told reaches the scan as it is told, and what it answers is what is handed back.
pub proof fn law_nothing_is_lost_in_telling(event: Event, reply: Reply)
    ensures
        event matches Event::Control(byte) ==> event@ == EventView::Control(byte),
        event matches Event::Opened(ok) ==> event@ == EventView::Opened(ok),
        event matches Event::Entry(ok) ==> event@ == EventView::Entry(ok),
        event matches Event::End { path } ==> event@ == (EventView::End { path: path@ }),
        event matches Event::Meta { path, md } ==> event@ == (EventView::Meta { path: path@, md }),
        reply@.action == reply.action,
        reply@.progress is Some <==> reply.progress is Some,
        reply.progress matches Some(p) ==> reply@.progress == Some(
            ProgressView { scanned: p.scanned as int, label: p.label@ },
        ),
{
}

/// A scan begins with nothing counted, nothing listed and no directory open, before the first root;
/// without roots it is over.
pub proof fn law_start(limit: nat, mode: Mode, roots: int)
    ensures
        ({
            let s = scan::start(limit, mode, roots);
            &&& s.ctx.limit == limit
            &&& s.ctx.mode == mode
            &&& s.ctx.scanned == 0
            &&& s.ctx.kept.len() == 0
            &&& s.roots == roots
            &&& s.root == 0
            &&& s.frames.len() == 0
            &&& roots > 0 ==> s.phase == Phase::Root
            &&& roots <= 0 ==> s.phase == Phase::Done
        }),
{
}

/// What a scan asks for. Of a root it asks by the number of the current one and no other.
pub proof fn law_asks(s: ScanView)
    requires
        0 <= s.root <= usize::MAX,
    ensures
        s.phase == Phase::Root ==> s.asks() == Action::Poll,
        s.phase == Phase::RootMeta ==> s.asks() is StatRoot && s.asks()->StatRoot_0 == s.root,
        s.phase is Enter ==> s.asks() == Action::Poll,
        s.phase is Open && s.frames.len() == 0 ==> s.asks() is OpenRoot && s.asks()->OpenRoot_0
            == s.root,
        s.phase is Open && s.frames.len() > 0 ==> s.asks() == Action::OpenEntry,
        s.phase == Phase::Next ==> s.asks() == Action::Next,
        s.phase is Entry ==> s.asks() == Action::Poll,
        s.phase == Phase::Stat ==> s.asks() == Action::Stat,
        s.phase == Phase::Done ==> s.asks() == Action::Done,
{
}

/// Told to wait, a scan stays as it is and waits.
pub proof fn law_told_to_wait(s: ScanView)
    requires
        s.phase == Phase::Root || s.phase is Enter || s.phase is Entry,
    ensures
        s.after(EventView::Control(1)) == s,
        s.reply(EventView::Control(1)).action == Action::Wait,
        s.reply(EventView::Control(1)).progress is None,
{
}

/// Told to stop, a scan drops the walk that it is on and counts nothing. Before a root, and in files
/// mode anywhere, that is its end; within a root in folders mode the next root is up, if there is
/// one.
pub proof fn law_told_to_stop(s: ScanView)
    requires
        s.phase == Phase::Root || s.phase is Enter || s.phase is Entry,
        s.phase == Phase::Root ==> s.frames.len() == 0,
    ensures
        ({
            let t = s.after(EventView::Control(2));
            let reply = s.reply(EventView::Control(2));
            &&& t.ctx == s.ctx
            &&& t.roots == s.roots
            &&& t.frames.len() == 0
            &&& reply.progress is None
            &&& reply.action == t.asks()
            &&& s.phase == Phase::Root || s.ctx.mode == Mode::Files ==> t.phase == Phase::Done
                && t.root == s.root
            &&& s.phase != Phase::Root && s.ctx.mode == Mode::Folders ==> t.root == s.root + 1
            &&& s.phase != Phase::Root && s.ctx.mode == Mode::Folders && s.root + 1 < s.roots
                ==> t.phase == Phase::Root
            &&& s.phase != Phase::Root && s.ctx.mode == Mode::Folders && s.root + 1 >= s.roots
                ==> t.phase == Phase::Done
        }),
{
}

/// Told anything else, a scan takes the step that it was about to take: into the root, in folders
/// mode by way of its metadata; to opening the directory; or to the entry, unless that could not be
/// read.
pub proof fn law_told_to_go_on(s: ScanView, byte: u8)
    requires
        byte != 1,
        byte != 2,
        s.phase == Phase::Root || s.phase is Enter || s.phase is Entry,
    ensures
        ({
            let t = s.after(EventView::Control(byte));
            let reply = s.reply(EventView::Control(byte));
            &&& t == ScanView { phase: t.phase, ..s }
            &&& reply.progress is None
            &&& reply.action == t.asks()
            &&& s.phase == Phase::Root && s.ctx.mode == Mode::Files ==> t.phase == (Phase::Enter {
                modified: None,
            })
            &&& s.phase == Phase::Root && s.ctx.mode == Mode::Folders ==> t.phase == Phase::RootMeta
            &&& s.phase matches Phase::Enter { modified } ==> t.phase == (Phase::Open { modified })
            &&& s.phase == (Phase::Entry { ok: true }) ==> t.phase == Phase::Stat
            &&& s.phase == (Phase::Entry { ok: false }) ==> t.phase == Phase::Next
        }),
{
}

/// The time of a root is noted, if its metadata have one, and the walk of it begins.
pub proof fn law_root_metadata(s: ScanView, path: Seq<char>, md: Option<Metadata>)
    requires
        s.phase == Phase::RootMeta,
    ensures
        ({
            let e = EventView::Meta { path, md };
            let t = s.after(e);
            &&& t == ScanView { phase: t.phase, ..s }
            &&& md is None ==> t.phase == (Phase::Enter { modified: None })
            &&& md matches Some(m) ==> t.phase == (Phase::Enter {
                modified: metadata::modified_millis(m),
            })
            &&& s.reply(e) == ReplyView { progress: None, action: Action::Poll }
        }),
{
}

/// A directory that could be opened becomes the topmost one, empty so far. One that could not is
/// passed over: nothing is counted, and the walk goes on where the directory was met, or with the
/// next root.
pub proof fn law_directory_is_opened(s: ScanView, modified: Option<i64>)
    requires
        s.phase == (Phase::Open { modified }),
    ensures
        ({
            let t = s.after(EventView::Opened(true));
            &&& t == ScanView { phase: t.phase, frames: t.frames, ..s }
            &&& t.phase == Phase::Next
            &&& t.frames == s.frames.push(FrameView { modified, total: 0 })
            &&& s.reply(EventView::Opened(true)) == ReplyView {
                progress: None,
                action: Action::Next,
            }
        }),
        ({
            let t = s.after(EventView::Opened(false));
            &&& t.ctx == s.ctx
            &&& t.roots == s.roots
            &&& s.reply(EventView::Opened(false)).progress is None
            &&& s.reply(EventView::Opened(false)).action == t.asks()
            &&& s.frames.len() > 0 ==> t.phase == Phase::Next && t.root == s.root && t.frames
                == s.frames
            &&& s.frames.len() == 0 ==> t.root == s.root + 1 && t.frames.len() == 0
            &&& s.frames.len() == 0 && s.root + 1 < s.roots ==> t.phase == Phase::Root
            &&& s.frames.len() == 0 && s.root + 1 >= s.roots ==> t.phase == Phase::Done
        }),
{
    if s.frames.len() > 0 {
        assert(s.after(EventView::Opened(false)).frames =~= s.frames);
    }
}

/// Another entry is noted, with whether it could be read, and the control byte is asked for before
/// anything is done with it.
pub proof fn law_entry_is_noted(s: ScanView, ok: bool)
    requires
        s.phase == Phase::Next,
    ensures
        s.after(EventView::Entry(ok)) == (ScanView { phase: Phase::Entry { ok }, ..s }),
        s.reply(EventView::Entry(ok)) == (ReplyView { progress: None, action: Action::Poll }),
{
}

/// Where a directory ends, the walk goes back to the one that it was met in, which then holds its
/// bytes too, or on to the next root. In folders mode, and in that mode alone, the directory is
/// counted and competes by the bytes found in it, under its path and with its time.
pub proof fn law_directory_ends(s: ScanView, path: Seq<char>)
    requires
        s.phase == Phase::Next,
        s.frames.len() > 0,
        0 <= s.frames.last().total <= u64::MAX,
    ensures
        ({
            let e = EventView::End { path };
            let t = s.after(e);
            let n = s.frames.len();
            let below = s.frames[n - 1];
            &&& t.roots == s.roots
            &&& t.ctx.limit == s.ctx.limit
            &&& t.ctx.mode == s.ctx.mode
            &&& s.reply(e).action == t.asks()
            &&& n > 1 ==> t.root == s.root && t.phase == Phase::Next
            &&& n > 1 ==> t.frames == s.frames.take(n - 2).push(
                FrameView {
                    modified: s.frames[n - 2].modified,
                    total: s.frames[n - 2].total + below.total,
                },
            )
            &&& n == 1 ==> t.root == s.root + 1 && t.frames.len() == 0
            &&& n == 1 && s.root + 1 < s.roots ==> t.phase == Phase::Root
            &&& n == 1 && s.root + 1 >= s.roots ==> t.phase == Phase::Done
            &&& s.ctx.mode == Mode::Files ==> t.ctx == s.ctx && s.reply(e).progress is None
            &&& s.ctx.mode == Mode::Folders ==> t.ctx.scanned == s.ctx.scanned + 1
            &&& s.ctx.mode == Mode::Folders ==> t.ctx.kept == rank::keep(
                s.ctx.limit,
                s.ctx.kept,
                ItemView { size: below.total as u64, path, modified: below.modified },
            )
            &&& s.ctx.mode == Mode::Folders && (s.ctx.scanned + 1) % 500 == 0
                ==> s.reply(e).progress == Some(
                ProgressView { scanned: s.ctx.scanned + 1, label: "folders"@ },
            )
            &&& s.ctx.mode == Mode::Folders && (s.ctx.scanned + 1) % 500 != 0
                ==> s.reply(e).progress is None
        }),
{
    let e = EventView::End { path };
    let n = s.frames.len();
    if n > 1 {
        assert(s.after(e).frames =~= s.frames.take(n - 2).push(
            FrameView {
                modified: s.frames[n - 2].modified,
                total: s.frames[n - 2].total + s.frames[n - 1].total,
            },
        ));
    }
}

/// An entry without metadata, a reparse point, and whatever is neither file nor directory, is passed
/// over: on to the next entry.
pub proof fn law_entry_is_passed_over(s: ScanView, path: Seq<char>, md: Option<Metadata>)
    requires
        s.phase == Phase::Stat,
        md matches Some(m) ==> (match m.attributes {
            Some(bits) => bits & 0x400 != 0,
            None => m.is_symlink,
        }) || (!m.is_dir && !m.is_file),
    ensures
        s.after(EventView::Meta { path, md }) == (ScanView { phase: Phase::Next, ..s }),
        s.reply(EventView::Meta { path, md }) == (ReplyView {
            progress: None,
            action: Action::Next,
        }),
{
}

/// A directory that is no reparse point is walked into next, at whatever depth, with its time noted.
pub proof fn law_directory_is_met(s: ScanView, path: Seq<char>, md: Metadata)
    requires
        s.phase == Phase::Stat,
        md.is_dir,
        md.attributes matches Some(bits) ==> bits & 0x400 == 0,
        md.attributes is None ==> !md.is_symlink,
    ensures
        s.after(EventView::Meta { path, md: Some(md) }) == (ScanView {
            phase: Phase::Enter { modified: metadata::modified_millis(md) },
            ..s
        }),
        s.reply(EventView::Meta { path, md: Some(md) }) == (ReplyView {
            progress: None,
            action: Action::Poll,
        }),
{
}

/// A file that is no reparse point counts, whatever its size and at whatever depth. In files mode it
/// competes by its own size, under its path and with its time. In folders mode its bytes go to the
/// directory that it stands in. Either way the next entry is up.
pub proof fn law_file_is_met(s: ScanView, path: Seq<char>, md: Metadata)
    requires
        s.phase == Phase::Stat,
        s.frames.len() > 0,
        md.is_file,
        !md.is_dir,
        md.attributes matches Some(bits) ==> bits & 0x400 == 0,
        md.attributes is None ==> !md.is_symlink,
    ensures
        ({
            let e = EventView::Meta { path, md: Some(md) };
            let t = s.after(e);
            let n = s.frames.len();
            &&& t.phase == Phase::Next
            &&& t.root == s.root
            &&& t.roots == s.roots
            &&& t.ctx.limit == s.ctx.limit
            &&& t.ctx.mode == s.ctx.mode
            &&& s.reply(e).action == Action::Next
            &&& s.ctx.mode == Mode::Files ==> t.frames == s.frames
            &&& s.ctx.mode == Mode::Files ==> t.ctx.scanned == s.ctx.scanned + 1
            &&& s.ctx.mode == Mode::Files ==> t.ctx.kept == rank::keep(
                s.ctx.limit,
                s.ctx.kept,
                ItemView { size: md.len, path, modified: metadata::modified_millis(md) },
            )
            &&& s.ctx.mode == Mode::Files && (s.ctx.scanned + 1) % 3000 == 0
                ==> s.reply(e).progress == Some(
                ProgressView { scanned: s.ctx.scanned + 1, label: "files"@ },
            )
            &&& s.ctx.mode == Mode::Files && (s.ctx.scanned + 1) % 3000 != 0
                ==> s.reply(e).progress is None
            &&& s.ctx.mode == Mode::Folders ==> t.ctx == s.ctx && s.reply(e).progress is None
            &&& s.ctx.mode == Mode::Folders ==> t.frames == s.frames.take(n - 1).push(
                FrameView {
                    modified: s.frames[n - 1].modified,
                    total: s.frames[n - 1].total + md.len,
                },
            )
        }),
{
    let n = s.frames.len();
    assert(s.frames.take(n - 1) =~= s.frames.drop_last());
}

/// What does not answer the question that was asked changes nothing, and the question is asked
/// again.
pub proof fn law_out_of_turn(s: ScanView, e: EventView)
    requires
        s.phase == Phase::Root || s.phase is Enter || s.phase is Entry ==> !(e is Control),
        s.phase == Phase::RootMeta || s.phase == Phase::Stat ==> !(e is Meta),
        s.phase is Open ==> !(e is Opened),
        s.phase == Phase::Next ==> !(e is Entry) && !(e is End),
    ensures
        s.after(e) == s,
        s.reply(e) == (ReplyView { progress: None, action: s.asks() }),
{
}

/// The counts can take in whatever leaves them within 64 bits: a file or a directory that is
/// counted needs room for one more in the count; a file in folders mode needs room for its bytes
/// besides those found in all open directories; all else needs none.
pub proof fn law_fits(s: ScanView, e: EventView)
    ensures
        s.fits(e) <==> match (s.phase, e) {
            (Phase::Stat, EventView::Meta { path: _, md: Some(md) }) => {
                let counts = md.is_file && !md.is_dir && !(match md.attributes {
                    Some(bits) => bits & 0x400 != 0,
                    None => md.is_symlink,
                });
                &&& counts && s.ctx.mode == Mode::Files ==> s.ctx.scanned < u64::MAX
                &&& counts && s.ctx.mode == Mode::Folders ==> scan::pending(s.frames) + md.len
                    <= u64::MAX
            },
            (Phase::Next, EventView::End { path: _ }) => s.ctx.mode == Mode::Folders
                ==> s.ctx.scanned < u64::MAX,
            _ => true,
        },
{
}

/// The bytes found in all open directories are those of each of them together.
pub proof fn law_pending(frames: Seq<FrameView>, frame: FrameView)
    ensures
        scan::pending(Seq::empty()) == 0,
        scan::pending(frames.push(frame)) == scan::pending(frames) + frame.total,
{
    assert(frames.push(frame).drop_last() =~= frames);
}

} // verus!
