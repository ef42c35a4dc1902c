//! What a scan of a given directory tree finds.
//!
//! A tree says how the file system answers. From it follow both the events that a scan of it is
//! told and, told without regard to any scan, the entries that are to compete.

use crate::context::{ContextView, Mode, ProgressView};
use crate::control::{PAUSED, RUNNING, STOPPED};
use crate::item::ItemView;
use crate::metadata::{Kind, Metadata};
use crate::scan::{Action, EventView, FrameView, Phase, ScanView};
use crate::{context, metadata, rank, scan};
use vstd::prelude::*;

verus! {

/// An entry of a directory. A listing is that of a directory, or `None` if it cannot be read.
pub enum Node {
    /// The directory fails to give this entry.
    Unreadable,
    /// The entry has no metadata to be had.
    Unknown { path: Seq<char> },
    /// The listing matters for directories alone.
    Known { path: Seq<char>, md: Metadata, listing: Option<Seq<Node>> },
}

/// A root of a scan.
pub struct RootNode {
    pub path: Seq<char>,
    pub md: Option<Metadata>,
    pub listing: Option<Seq<Node>>,
}

/// The bytes that a walk finds below an entry; in files mode it does not add them up.
pub open spec fn node_bytes(mode: Mode, node: Node) -> int
    decreases node,
{
    match node {
        Node::Known { path, md, listing } => match metadata::kind_of(md) {
            Kind::Skip => 0,
            Kind::Dir => listing_bytes(mode, listing),
            Kind::File => match mode {
                Mode::Files => 0,
                Mode::Folders => md.len as int,
            },
        },
        _ => 0,
    }
}

/// The bytes below a directory of this listing.
pub open spec fn listing_bytes(mode: Mode, listing: Option<Seq<Node>>) -> int
    decreases listing,
{
    match listing {
        Some(nodes) => list_bytes(mode, nodes),
        None => 0,
    }
}

/// The bytes below all of these entries.
pub open spec fn list_bytes(mode: Mode, nodes: Seq<Node>) -> int
    decreases nodes,
{
    if nodes.len() == 0 {
        0
    } else {
        list_bytes(mode, nodes.drop_last()) + node_bytes(mode, nodes.last())
    }
}

/// The entries that compete: in files mode every file, as it is met; in folders mode every
/// directory that can be read, after all those below it.
pub open spec fn node_items(mode: Mode, node: Node) -> Seq<ItemView>
    decreases node,
{
    match node {
        Node::Known { path, md, listing } => match metadata::kind_of(md) {
            Kind::Skip => Seq::empty(),
            Kind::Dir => listing_items(mode, path, metadata::modified_millis(md), listing),
            Kind::File => match mode {
                Mode::Files => seq![
                    ItemView { size: md.len, path, modified: metadata::modified_millis(md) },
                ],
                Mode::Folders => Seq::empty(),
            },
        },
        _ => Seq::empty(),
    }
}

/// The entries that compete on account of one directory: those below it, and in folders mode the
/// directory itself, by all the bytes below it.
pub open spec fn listing_items(
    mode: Mode,
    path: Seq<char>,
    modified: Option<i64>,
    listing: Option<Seq<Node>>,
) -> Seq<ItemView>
    decreases listing,
{
    match listing {
        Some(nodes) => match mode {
            Mode::Files => list_items(mode, nodes),
            Mode::Folders => list_items(mode, nodes).push(
                ItemView { size: list_bytes(mode, nodes) as u64, path, modified },
            ),
        },
        None => Seq::empty(),
    }
}

/// The entries that compete on account of all of these.
pub open spec fn list_items(mode: Mode, nodes: Seq<Node>) -> Seq<ItemView>
    decreases nodes,
{
    if nodes.len() == 0 {
        Seq::empty()
    } else {
        list_items(mode, nodes.drop_last()) + node_items(mode, nodes.last())
    }
}

/// What a scan that nobody pauses or stops is told of an entry.
pub open spec fn node_events(node: Node) -> Seq<EventView>
    decreases node,
{
    let go = EventView::Control(RUNNING);
    match node {
        Node::Unreadable => seq![EventView::Entry(false), go],
        Node::Unknown { path } => seq![
            EventView::Entry(true),
            go,
            EventView::Meta { path, md: None },
        ],
        Node::Known { path, md, listing } => {
            let known = seq![EventView::Entry(true), go, EventView::Meta { path, md: Some(md) }];
            match metadata::kind_of(md) {
                Kind::Dir => known + listing_events(path, listing),
                _ => known,
            }
        },
    }
}

/// What it is told of a directory.
pub open spec fn listing_events(path: Seq<char>, listing: Option<Seq<Node>>) -> Seq<EventView>
    decreases listing,
{
    let go = EventView::Control(RUNNING);
    match listing {
        Some(nodes) => (seq![go, EventView::Opened(true)] + list_events(nodes)).push(
            EventView::End { path },
        ),
        None => seq![go, EventView::Opened(false)],
    }
}

/// What it is told of all of these entries.
pub open spec fn list_events(nodes: Seq<Node>) -> Seq<EventView>
    decreases nodes,
{
    if nodes.len() == 0 {
        Seq::empty()
    } else {
        list_events(nodes.drop_last()) + node_events(nodes.last())
    }
}

/// When a root was modified; in files mode nobody asks.
pub open spec fn root_modified(mode: Mode, root: RootNode) -> Option<i64> {
    match (mode, root.md) {
        (Mode::Folders, Some(md)) => metadata::modified_millis(md),
        _ => None,
    }
}

/// The entries that compete on account of all of these roots.
pub open spec fn scan_items(mode: Mode, roots: Seq<RootNode>) -> Seq<ItemView>
    decreases roots.len(),
{
    if roots.len() == 0 {
        Seq::empty()
    } else {
        let root = roots.last();
        scan_items(mode, roots.drop_last()) + listing_items(
            mode,
            root.path,
            root_modified(mode, root),
            root.listing,
        )
    }
}

/// What a scan that nobody pauses or stops is told of a root.
pub open spec fn root_events(mode: Mode, root: RootNode) -> Seq<EventView> {
    let go = EventView::Control(RUNNING);
    let asked = match mode {
        Mode::Files => seq![go],
        Mode::Folders => seq![go, EventView::Meta { path: root.path, md: root.md }],
    };
    asked + listing_events(root.path, root.listing)
}

/// What it is told of all of these roots.
pub open spec fn scan_events(mode: Mode, roots: Seq<RootNode>) -> Seq<EventView>
    decreases roots.len(),
{
    if roots.len() == 0 {
        Seq::empty()
    } else {
        scan_events(mode, roots.drop_last()) + root_events(mode, roots.last())
    }
}

/// A file that is no reparse point competes in files mode by its own size, and weighs it in folders
/// mode; a scan is told of it once.
pub proof fn law_tree_of_file(path: Seq<char>, md: Metadata, listing: Option<Seq<Node>>)
    requires
        md.is_file,
        !md.is_dir,
        md.attributes matches Some(bits) ==> bits & 0x400 == 0,
        md.attributes is None ==> !md.is_symlink,
    ensures
        ({
            let node = Node::Known { path, md, listing };
            &&& node_items(Mode::Files, node) == seq![
                ItemView { size: md.len, path, modified: metadata::modified_millis(md) },
            ]
            &&& node_items(Mode::Folders, node) == Seq::<ItemView>::empty()
            &&& node_bytes(Mode::Folders, node) == md.len
            &&& node_events(node) == seq![
                EventView::Entry(true),
                EventView::Control(0),
                EventView::Meta { path, md: Some(md) },
            ]
        }),
{
}

/// A directory that is no reparse point weighs what stands in it, and competes in folders mode by
/// that, behind all that competes on account of what stands in it. One that cannot be read weighs
/// nothing and competes with nothing.
pub proof fn law_tree_of_directory(
    mode: Mode,
    path: Seq<char>,
    md: Metadata,
    nodes: Seq<Node>,
)
    requires
        md.is_dir,
        md.attributes matches Some(bits) ==> bits & 0x400 == 0,
        md.attributes is None ==> !md.is_symlink,
    ensures
        ({
            let node = Node::Known { path, md, listing: Some(nodes) };
            let met = seq![
                EventView::Entry(true),
                EventView::Control(0),
                EventView::Meta { path, md: Some(md) },
                EventView::Control(0),
                EventView::Opened(true),
            ];
            &&& node_bytes(mode, node) == list_bytes(mode, nodes)
            &&& node_items(Mode::Files, node) == list_items(Mode::Files, nodes)
            &&& node_items(Mode::Folders, node) == list_items(Mode::Folders, nodes).push(
                ItemView {
                    size: list_bytes(Mode::Folders, nodes) as u64,
                    path,
                    modified: metadata::modified_millis(md),
                },
            )
            &&& node_events(node) == met + list_events(nodes) + seq![EventView::End { path }]
        }),
        ({
            let node = Node::Known { path, md, listing: None };
            &&& node_bytes(mode, node) == 0
            &&& node_items(mode, node) == Seq::<ItemView>::empty()
            &&& node_events(node) == seq![
                EventView::Entry(true),
                EventView::Control(0),
                EventView::Meta { path, md: Some(md) },
                EventView::Control(0),
                EventView::Opened(false),
            ]
        }),
{
    let node = Node::Known { path, md, listing: Some(nodes) };
    let met = seq![
        EventView::Entry(true),
        EventView::Control(0),
        EventView::Meta { path, md: Some(md) },
        EventView::Control(0),
        EventView::Opened(true),
    ];
    reveal_with_fuel(node_events, 2);
    reveal_with_fuel(listing_events, 2);
    assert(node_events(node) =~= met + list_events(nodes) + seq![EventView::End { path }]);
    assert(node_events(Node::Known { path, md, listing: None }) =~= seq![
        EventView::Entry(true),
        EventView::Control(0),
        EventView::Meta { path, md: Some(md) },
        EventView::Control(0),
        EventView::Opened(false),
    ]);
}

/// What cannot be read, has no metadata, is a reparse point, or is neither file nor directory weighs
/// nothing and competes with nothing.
pub proof fn law_tree_of_others(
    mode: Mode,
    path: Seq<char>,
    md: Metadata,
    listing: Option<Seq<Node>>,
)
    requires
        (match md.attributes {
            Some(bits) => bits & 0x400 != 0,
            None => md.is_symlink,
        }) || (!md.is_dir && !md.is_file),
    ensures
        node_bytes(mode, Node::Unreadable) == 0,
        node_items(mode, Node::Unreadable) == Seq::<ItemView>::empty(),
        node_bytes(mode, Node::Unknown { path }) == 0,
        node_items(mode, Node::Unknown { path }) == Seq::<ItemView>::empty(),
        node_bytes(mode, Node::Known { path, md, listing }) == 0,
        node_items(mode, Node::Known { path, md, listing }) == Seq::<ItemView>::empty(),
{
}

/// Entries of a directory add up: one more adds its own bytes, its own competitors and its own
/// events behind those of the ones before it. So do roots.
pub proof fn law_tree_adds_up(
    mode: Mode,
    nodes: Seq<Node>,
    node: Node,
    roots: Seq<RootNode>,
    root: RootNode,
)
    ensures
        list_bytes(mode, Seq::empty()) == 0,
        list_items(mode, Seq::empty()) == Seq::<ItemView>::empty(),
        list_events(Seq::empty()) == Seq::<EventView>::empty(),
        list_bytes(mode, nodes.push(node)) == list_bytes(mode, nodes) + node_bytes(mode, node),
        list_items(mode, nodes.push(node)) == list_items(mode, nodes) + node_items(mode, node),
        list_events(nodes.push(node)) == list_events(nodes) + node_events(node),
        scan_items(mode, Seq::empty()) == Seq::<ItemView>::empty(),
        scan_events(mode, Seq::empty()) == Seq::<EventView>::empty(),
        scan_items(mode, roots.push(root)) == scan_items(mode, roots) + listing_items(
            mode,
            root.path,
            root_modified(mode, root),
            root.listing,
        ),
        scan_events(mode, roots.push(root)) == scan_events(mode, roots) + root_events(mode, root),
{
    assert(nodes.push(node).drop_last() =~= nodes);
    assert(roots.push(root).drop_last() =~= roots);
}

/// The scan after all of these events, one by one.
pub open spec fn replay(s: ScanView, events: Seq<EventView>) -> ScanView
    decreases events.len(),
{
    if events.len() == 0 {
        s
    } else {
        replay(s, events.drop_last()).after(events.last())
    }
}

/// Each event answers what the scan asks for when it comes, and the counts can take it in.
pub open spec fn replays(s: ScanView, events: Seq<EventView>) -> bool
    decreases events.len(),
{
    if events.len() == 0 {
        true
    } else {
        let before = replay(s, events.drop_last());
        &&& replays(s, events.drop_last())
        &&& before.answered_by(events.last())
        &&& before.fits(events.last())
    }
}

/// The entries that are counted in the course of these events.
pub open spec fn counted(s: ScanView, events: Seq<EventView>) -> Seq<ItemView>
    decreases events.len(),
{
    if events.len() == 0 {
        Seq::empty()
    } else {
        let before = replay(s, events.drop_last());
        match before.competes(events.last()) {
            Some(item) => counted(s, events.drop_last()).push(item),
            None => counted(s, events.drop_last()),
        }
    }
}

/// There is room for so many more entries and bytes in the counts of a scan.
pub open spec fn has_room(s: ScanView, items: Seq<ItemView>, bytes: int) -> bool {
    &&& s.ctx.scanned + items.len() <= u64::MAX
    &&& scan::pending(s.frames) + bytes <= u64::MAX
}

/// One more event.
proof fn lemma_replay_push(s: ScanView, events: Seq<EventView>, e: EventView)
    ensures
        replay(s, events.push(e)) == replay(s, events).after(e),
        replays(s, events.push(e)) == (replays(s, events) && replay(s, events).answered_by(e)
            && replay(s, events).fits(e)),
{
    assert(events.push(e).drop_last() =~= events);
}

/// Events in two goes.
proof fn lemma_replay_add(s: ScanView, a: Seq<EventView>, b: Seq<EventView>)
    ensures
        replay(s, a + b) == replay(replay(s, a), b),
        replays(s, a + b) == (replays(s, a) && replays(replay(s, a), b)),
    decreases b.len(),
{
    if b.len() == 0 {
        assert(a + b =~= a);
    } else {
        lemma_replay_add(s, a, b.drop_last());
        assert((a + b).drop_last() =~= a + b.drop_last());
    }
}

/// Counted on one more event.
proof fn lemma_counted_push(s: ScanView, events: Seq<EventView>, e: EventView)
    ensures
        counted(s, events.push(e)) == match replay(s, events).competes(e) {
            Some(item) => counted(s, events).push(item),
            None => counted(s, events),
        },
{
    assert(events.push(e).drop_last() =~= events);
}

/// Counted in two goes.
proof fn lemma_counted_add(s: ScanView, a: Seq<EventView>, b: Seq<EventView>)
    ensures
        counted(s, a + b) == counted(s, a) + counted(replay(s, a), b),
    decreases b.len(),
{
    if b.len() == 0 {
        assert(a + b =~= a);
        assert(counted(s, a) + counted(replay(s, a), b) =~= counted(s, a));
    } else {
        lemma_counted_add(s, a, b.drop_last());
        lemma_replay_add(s, a, b.drop_last());
        assert((a + b).drop_last() =~= a + b.drop_last());
        assert(counted(s, a + b) =~= counted(s, a) + counted(replay(s, a), b));
    }
}

/// Events that no entry competes on count nothing.
proof fn lemma_counted_none(s: ScanView, e: EventView, f: EventView)
    requires
        s.competes(e) is None,
        s.after(e).competes(f) is None,
    ensures
        counted(s, seq![e, f]) == Seq::<ItemView>::empty(),
{
    lemma_replay_push(s, Seq::empty(), e);
    lemma_counted_push(s, Seq::empty(), e);
    lemma_counted_push(s, Seq::empty().push(e), f);
    assert(seq![e, f] =~= Seq::empty().push(e).push(f));
}

/// The first two events.
proof fn lemma_replay_two(s: ScanView, e: EventView, f: EventView)
    ensures
        replay(s, seq![e, f]) == s.after(e).after(f),
        replays(s, seq![e, f]) == (s.answered_by(e) && s.fits(e) && s.after(e).answered_by(f)
            && s.after(e).fits(f)),
{
    lemma_replay_push(s, Seq::empty(), e);
    lemma_replay_push(s, Seq::empty().push(e), f);
    assert(seq![e, f] =~= Seq::empty().push(e).push(f));
}

/// Entries in two goes.
proof fn lemma_record_add(c: ContextView, a: Seq<ItemView>, b: Seq<ItemView>)
    ensures
        c.record_all(a + b) == c.record_all(a).record_all(b),
    decreases b.len(),
{
    if b.len() == 0 {
        assert(a + b =~= a);
    } else {
        lemma_record_add(c, a, b.drop_last());
        assert((a + b).drop_last() =~= a + b.drop_last());
    }
}

/// Counting entries counts them, and changes neither limit nor mode.
proof fn lemma_record_all(c: ContextView, items: Seq<ItemView>)
    ensures
        c.record_all(items).scanned == c.scanned + items.len(),
        c.record_all(items).limit == c.limit,
        c.record_all(items).mode == c.mode,
    decreases items.len(),
{
    if items.len() > 0 {
        lemma_record_all(c, items.drop_last());
    }
}

/// From nothing, the list becomes the ranking of all entries counted.
proof fn lemma_record_from_nothing(c: ContextView, items: Seq<ItemView>)
    requires
        c.kept == Seq::<ItemView>::empty(),
    ensures
        c.record_all(items).kept == rank::keep_all(c.limit, items),
    decreases items.len(),
{
    if items.len() > 0 {
        lemma_record_from_nothing(c, items.drop_last());
        lemma_record_all(c, items.drop_last());
    }
}

/// The bytes of a tree are never negative.
proof fn lemma_bytes_of_node(mode: Mode, node: Node)
    ensures
        0 <= node_bytes(mode, node),
    decreases node,
{
    match node {
        Node::Known { path, md, listing } => {
            match listing {
                Some(nodes) => {
                    lemma_bytes_of_list(mode, nodes);
                },
                None => {},
            }
        },
        _ => {},
    }
}

proof fn lemma_bytes_of_list(mode: Mode, nodes: Seq<Node>)
    ensures
        0 <= list_bytes(mode, nodes),
    decreases nodes,
{
    if nodes.len() > 0 {
        lemma_bytes_of_list(mode, nodes.drop_last());
        lemma_bytes_of_node(mode, nodes.last());
    }
}

/// Events that a scan can take in leave it in order.
proof fn lemma_replay_in_order(s: ScanView, events: Seq<EventView>)
    requires
        s.wf(),
        replays(s, events),
    ensures
        replay(s, events).wf(),
    decreases events.len(),
{
    if events.len() > 0 {
        lemma_replay_in_order(s, events.drop_last());
        scan::law_scan_stays_in_order(replay(s, events.drop_last()), events.last());
    }
}

/// Back in the directory that the scan `s` is in, with these entries counted and these bytes found.
pub open spec fn walked(s: ScanView, items: Seq<ItemView>, bytes: int) -> ScanView {
    ScanView { ctx: s.ctx.record_all(items), phase: Phase::Next, ..s.add_bytes(bytes) }
}

/// A scan that meets an entry counts what competes on its account and adds the bytes below it.
pub proof fn law_walk_node(s: ScanView, node: Node)
    requires
        s.wf(),
        s.phase == Phase::Next,
        has_room(s, node_items(s.ctx.mode, node), node_bytes(s.ctx.mode, node)),
    ensures
        replays(s, node_events(node)),
        replay(s, node_events(node)) == walked(
            s,
            node_items(s.ctx.mode, node),
            node_bytes(s.ctx.mode, node),
        ),
        counted(s, node_events(node)) == node_items(s.ctx.mode, node),
    decreases node,
{
    let mode = s.ctx.mode;
    let go = EventView::Control(RUNNING);
    let items = node_items(mode, node);
    let bytes = node_bytes(mode, node);
    let goal = walked(s, items, bytes);
    match node {
        Node::Unreadable => {
            lemma_replay_two(s, EventView::Entry(false), go);
            lemma_counted_none(s, EventView::Entry(false), go);
            assert(goal.frames =~= s.frames);
        },
        Node::Unknown { path } => {
            let meta = EventView::Meta { path, md: None };
            lemma_replay_two(s, EventView::Entry(true), go);
            lemma_replay_push(s, seq![EventView::Entry(true), go], meta);
            lemma_counted_none(s, EventView::Entry(true), go);
            lemma_counted_push(s, seq![EventView::Entry(true), go], meta);
            assert(node_events(node) =~= seq![EventView::Entry(true), go].push(meta));
            assert(goal.frames =~= s.frames);
        },
        Node::Known { path, md, listing } => {
            let meta = EventView::Meta { path, md: Some(md) };
            let known = seq![EventView::Entry(true), go, meta];
            lemma_replay_two(s, EventView::Entry(true), go);
            lemma_replay_push(s, seq![EventView::Entry(true), go], meta);
            lemma_counted_none(s, EventView::Entry(true), go);
            lemma_counted_push(s, seq![EventView::Entry(true), go], meta);
            assert(known =~= seq![EventView::Entry(true), go].push(meta));
            match metadata::kind_of(md) {
                Kind::Skip => {
                    assert(goal.frames =~= s.frames);
                },
                Kind::Dir => {
                    let modified = metadata::modified_millis(md);
                    let at = replay(s, known);
                    assert(at == ScanView { phase: Phase::Enter { modified }, ..s });
                    law_walk_listing(at, path, listing, modified);
                    lemma_replay_add(s, known, listing_events(path, listing));
                    lemma_counted_add(s, known, listing_events(path, listing));
                    assert(counted(s, node_events(node)) =~= items);
                },
                Kind::File => {
                    assert(items.len() <= 1);
                    assert(items.len() == 1 ==> items.drop_last() =~= Seq::empty());
                    match mode {
                        Mode::Files => {
                            assert(goal.frames =~= s.frames);
                            assert(s.ctx.record_all(items.drop_last()) == s.ctx);
                            assert(counted(s, known) =~= items);
                        },
                        Mode::Folders => {},
                    }
                },
            }
        },
    }
}

/// A scan that walks into a directory counts what competes on its account and comes out of it with
/// all the bytes below it.
pub proof fn law_walk_listing(
    s: ScanView,
    path: Seq<char>,
    listing: Option<Seq<Node>>,
    modified: Option<i64>,
)
    requires
        s.wf(),
        s.phase == (Phase::Enter { modified }),
        has_room(
            s,
            listing_items(s.ctx.mode, path, modified, listing),
            listing_bytes(s.ctx.mode, listing),
        ),
    ensures
        replays(s, listing_events(path, listing)),
        replay(s, listing_events(path, listing)) == (ScanView {
            ctx: s.ctx.record_all(listing_items(s.ctx.mode, path, modified, listing)),
            ..s
        }).returned(listing_bytes(s.ctx.mode, listing)),
        counted(s, listing_events(path, listing)) == listing_items(
            s.ctx.mode,
            path,
            modified,
            listing,
        ),
    decreases listing,
{
    let mode = s.ctx.mode;
    let go = EventView::Control(RUNNING);
    match listing {
        None => {
            lemma_replay_two(s, go, EventView::Opened(false));
            lemma_counted_none(s, go, EventView::Opened(false));
        },
        Some(nodes) => {
            let opened = seq![go, EventView::Opened(true)];
            let end = EventView::End { path };
            let inner = list_items(mode, nodes);
            let bytes = list_bytes(mode, nodes);
            let items = listing_items(mode, path, modified, listing);
            lemma_replay_two(s, go, EventView::Opened(true));
            lemma_counted_none(s, go, EventView::Opened(true));
            let at = replay(s, opened);
            assert(at.frames == s.frames.push(FrameView { modified, total: 0 }));
            assert(at.frames.drop_last() =~= s.frames);
            lemma_replay_in_order(s, opened);
            law_walk_list(at, nodes);
            lemma_replay_add(s, opened, list_events(nodes));
            lemma_replay_push(s, opened + list_events(nodes), end);
            lemma_counted_add(s, opened, list_events(nodes));
            lemma_counted_push(s, opened + list_events(nodes), end);
            assert(counted(s, opened + list_events(nodes)) =~= inner);
            lemma_record_all(s.ctx, inner);
            scan::lemma_pending(s.frames);
            lemma_bytes_of_list(mode, nodes);
            let done = walked(at, inner, bytes);
            assert(done.frames.last() == FrameView { modified, total: bytes });
            assert(done.frames.drop_last() =~= s.frames);
            match mode {
                Mode::Files => {},
                Mode::Folders => {
                    assert(items.drop_last() =~= inner);
                },
            }
        },
    }
}

/// A scan that meets entries one by one counts what competes on account of all of them and adds
/// all the bytes below them.
pub proof fn law_walk_list(s: ScanView, nodes: Seq<Node>)
    requires
        s.wf(),
        s.phase == Phase::Next,
        has_room(s, list_items(s.ctx.mode, nodes), list_bytes(s.ctx.mode, nodes)),
    ensures
        replays(s, list_events(nodes)),
        replay(s, list_events(nodes)) == walked(
            s,
            list_items(s.ctx.mode, nodes),
            list_bytes(s.ctx.mode, nodes),
        ),
        counted(s, list_events(nodes)) == list_items(s.ctx.mode, nodes),
    decreases nodes,
{
    let mode = s.ctx.mode;
    let goal = walked(s, list_items(mode, nodes), list_bytes(mode, nodes));
    if nodes.len() == 0 {
        assert(goal.frames =~= s.frames);
    } else {
        let front = nodes.drop_last();
        let last = nodes.last();
        lemma_bytes_of_list(mode, front);
        lemma_bytes_of_node(mode, last);
        law_walk_list(s, front);
        let at = replay(s, list_events(front));
        lemma_replay_in_order(s, list_events(front));
        lemma_record_all(s.ctx, list_items(mode, front));
        assert(at.frames.drop_last() =~= s.frames.drop_last());
        law_walk_node(at, last);
        lemma_replay_add(s, list_events(front), node_events(last));
        lemma_counted_add(s, list_events(front), node_events(last));
        lemma_record_add(s.ctx, list_items(mode, front), node_items(mode, last));
        assert(goal.frames =~= walked(
            at,
            node_items(mode, last),
            node_bytes(mode, last),
        ).frames);
    }
}

/// The scan once the first `n` of `total` roots lie behind.
spec fn at_root(limit: nat, mode: Mode, items: Seq<ItemView>, n: int, total: int) -> ScanView {
    let begun = scan::start(limit, mode, total);
    ScanView {
        ctx: begun.ctx.record_all(items),
        root: n,
        phase: if n < total {
            Phase::Root
        } else {
            Phase::Done
        },
        ..begun
    }
}

/// Root after root, up to the first `n`.
proof fn lemma_scan_prefix(limit: nat, mode: Mode, roots: Seq<RootNode>, n: int)
    requires
        0 <= n <= roots.len() <= usize::MAX,
        scan_items(mode, roots.take(n)).len() <= u64::MAX,
        forall|i: int|
            0 <= i < n ==> listing_bytes(mode, (#[trigger] roots[i]).listing) <= u64::MAX,
    ensures
        replays(scan::start(limit, mode, roots.len() as int), scan_events(mode, roots.take(n))),
        replay(scan::start(limit, mode, roots.len() as int), scan_events(mode, roots.take(n)))
            == at_root(limit, mode, scan_items(mode, roots.take(n)), n, roots.len() as int),
        counted(scan::start(limit, mode, roots.len() as int), scan_events(mode, roots.take(n)))
            == scan_items(mode, roots.take(n)),
    decreases n,
{
    let total = roots.len() as int;
    let begun = scan::start(limit, mode, total);
    if n == 0 {
        assert(roots.take(n) =~= Seq::empty());
    } else {
        let front = roots.take(n - 1);
        let root = roots[n - 1];
        let modified = root_modified(mode, root);
        let go = EventView::Control(RUNNING);
        let meta = EventView::Meta { path: root.path, md: root.md };
        let items = scan_items(mode, front);
        let more = listing_items(mode, root.path, modified, root.listing);
        assert(roots.take(n).drop_last() =~= front);
        assert(roots.take(n).last() == root);
        lemma_scan_prefix(limit, mode, roots, n - 1);
        let at = at_root(limit, mode, items, n - 1, total);
        assert(begun.wf());
        lemma_replay_in_order(begun, scan_events(mode, front));
        lemma_record_all(begun.ctx, items);
        let asked = match mode {
            Mode::Files => seq![go],
            Mode::Folders => seq![go, meta],
        };
        match mode {
            Mode::Files => {
                lemma_replay_push(at, Seq::empty(), go);
                lemma_counted_push(at, Seq::empty(), go);
                assert(asked =~= Seq::empty().push(go));
            },
            Mode::Folders => {
                lemma_replay_two(at, go, meta);
                lemma_counted_none(at, go, meta);
            },
        }
        let inside = replay(at, asked);
        assert(inside == ScanView { phase: Phase::Enter { modified }, ..at });
        law_walk_listing(inside, root.path, root.listing, modified);
        lemma_replay_add(at, asked, listing_events(root.path, root.listing));
        lemma_replay_add(begun, scan_events(mode, front), root_events(mode, root));
        lemma_record_add(begun.ctx, items, more);
        lemma_counted_add(at, asked, listing_events(root.path, root.listing));
        assert(counted(at, root_events(mode, root)) =~= more);
        lemma_counted_add(begun, scan_events(mode, front), root_events(mode, root));
        assert(replay(inside, listing_events(root.path, root.listing)).frames
            =~= Seq::<FrameView>::empty());
    }
}

/// A scan that nobody stops walks every root to its end and counts exactly the entries of the tree
/// that are to compete: in files mode every file by its own size, in folders mode every directory
/// that can be read by the sum of the sizes of all files below it, reparse points left aside. It
/// ends with the largest of them.
pub proof fn law_scan_finds_the_largest(limit: nat, mode: Mode, roots: Seq<RootNode>)
    requires
        roots.len() <= usize::MAX,
        scan_items(mode, roots).len() <= u64::MAX,
        forall|i: int|
            0 <= i < roots.len() ==> listing_bytes(mode, (#[trigger] roots[i]).listing) <= u64::MAX,
    ensures
        ({
            let begun = scan::start(limit, mode, roots.len() as int);
            let ended = replay(begun, scan_events(mode, roots));
            let items = scan_items(mode, roots);
            &&& replays(begun, scan_events(mode, roots))
            &&& ended.phase == Phase::Done
            &&& counted(begun, scan_events(mode, roots)) == items
            &&& ended.ctx.scanned == items.len()
            &&& ended.ctx.kept == rank::keep_all(limit, items)
            &&& rank::largest_of(limit, items, ended.ctx.kept)
            &&& rank::ranked(ended.ctx.kept)
        }),
{
    let begun = scan::start(limit, mode, roots.len() as int);
    let items = scan_items(mode, roots);
    assert(roots.take(roots.len() as int) =~= roots);
    lemma_scan_prefix(limit, mode, roots, roots.len() as int);
    lemma_record_all(begun.ctx, items);
    lemma_record_from_nothing(begun.ctx, items);
    rank::law_largest_are_kept(limit, items);
}

/// A root is never taken up again: an event leaves the number of the current one or raises it by
/// one, and then the new one is still to be begun, or the scan is over.
proof fn lemma_root_advances(s: ScanView, e: EventView)
    ensures
        s.after(e).root == s.root || (s.after(e).root == s.root + 1 && (s.after(e).phase
            == Phase::Root || s.after(e).phase == Phase::Done)),
        s.after(e).root == s.root && s.phase != Phase::Root ==> s.after(e).phase != Phase::Root,
{
}

proof fn lemma_roots_advance(s: ScanView, events: Seq<EventView>)
    ensures
        s.root <= replay(s, events).root,
        s.phase != Phase::Root && replay(s, events).root == s.root ==> replay(s, events).phase
            != Phase::Root,
    decreases events.len(),
{
    if events.len() > 0 {
        lemma_roots_advance(s, events.drop_last());
        lemma_root_advances(replay(s, events.drop_last()), events.last());
    }
}

/// On the way from one root to the next a scan is on that root, or done with it and not yet
/// on the next.
proof fn lemma_on_one_root(s: ScanView, events: Seq<EventView>, k: int)
    requires
        s.wf(),
        replays(s, events),
        replay(s, events).root == s.root + 1,
        s.root + 1 < s.roots ==> replay(s, events).phase == Phase::Root,
        0 <= k <= events.len(),
    ensures
        ({
            let u = replay(s, events.take(k));
            u.root == s.root || (u.root == s.root + 1 && (u.phase == Phase::Root || u.phase
                == Phase::Done))
        }),
{
    let u = replay(s, events.take(k));
    let rest = events.skip(k);
    assert(events.take(k) + rest =~= events);
    lemma_replay_add(s, events.take(k), rest);
    lemma_replay_in_order(s, events.take(k));
    lemma_roots_advance(s, events.take(k));
    lemma_roots_advance(u, rest);
    lemma_same_roots(s, events.take(k));
}

proof fn lemma_same_roots(s: ScanView, events: Seq<EventView>)
    ensures
        replay(s, events).roots == s.roots,
    decreases events.len(),
{
    if events.len() > 0 {
        lemma_same_roots(s, events.drop_last());
    }
}

/// The roots that a scan asks to be opened in the course of these events, by their numbers.
pub open spec fn roots_opened(s: ScanView, events: Seq<EventView>) -> Seq<usize>
    decreases events.len(),
{
    if events.len() == 0 {
        Seq::empty()
    } else {
        match replay(s, events.drop_last()).asks() {
            Action::OpenRoot(i) => roots_opened(s, events.drop_last()).push(i),
            _ => roots_opened(s, events.drop_last()),
        }
    }
}

proof fn lemma_opened_add(s: ScanView, a: Seq<EventView>, b: Seq<EventView>)
    ensures
        roots_opened(s, a + b) == roots_opened(s, a) + roots_opened(replay(s, a), b),
    decreases b.len(),
{
    if b.len() == 0 {
        assert(a + b =~= a);
        assert(roots_opened(s, a) + roots_opened(replay(s, a), b) =~= roots_opened(s, a));
    } else {
        lemma_opened_add(s, a, b.drop_last());
        lemma_replay_add(s, a, b.drop_last());
        assert((a + b).drop_last() =~= a + b.drop_last());
        assert(roots_opened(s, a + b) =~= roots_opened(s, a) + roots_opened(replay(s, a), b));
    }
}

proof fn lemma_opened_push(s: ScanView, events: Seq<EventView>, e: EventView)
    ensures
        roots_opened(s, events.push(e)) == match replay(s, events).asks() {
            Action::OpenRoot(i) => roots_opened(s, events).push(i),
            _ => roots_opened(s, events),
        },
{
    assert(events.push(e).drop_last() =~= events);
}

/// Inside a root a directory stays open until the root, or the scan, is left.
proof fn lemma_stays_inside(s: ScanView, events: Seq<EventView>)
    requires
        s.frames.len() > 0,
    ensures
        ({
            let u = replay(s, events);
            u.root == s.root ==> u.frames.len() > 0 || u.phase == Phase::Done
        }),
    decreases events.len(),
{
    if events.len() > 0 {
        lemma_stays_inside(s, events.drop_last());
        lemma_roots_advance(s, events.drop_last());
        lemma_root_advances(replay(s, events.drop_last()), events.last());
    }
}

proof fn lemma_over_stays(s: ScanView, events: Seq<EventView>)
    requires
        s.phase == Phase::Done,
    ensures
        replay(s, events) == s,
    decreases events.len(),
{
    if events.len() > 0 {
        lemma_over_stays(s, events.drop_last());
    }
}

/// From inside a root to the next one, no root is asked to be opened.
proof fn lemma_none_opened_inside(s: ScanView, events: Seq<EventView>, k: int)
    requires
        s.wf(),
        s.frames.len() > 0,
        replays(s, events),
        replay(s, events).root == s.root + 1,
        s.root + 1 < s.roots ==> replay(s, events).phase == Phase::Root,
        0 <= k <= events.len(),
    ensures
        roots_opened(s, events.take(k)) == Seq::<usize>::empty(),
    decreases k,
{
    if k > 0 {
        let before = events.take(k - 1);
        let u = replay(s, before);
        lemma_none_opened_inside(s, events, k - 1);
        assert(events.take(k).drop_last() =~= before);
        lemma_on_one_root(s, events, k - 1);
        lemma_stays_inside(s, before);
        if u.root == s.root && u.phase == Phase::Done {
            lemma_replay_add(s, before, events.skip(k - 1));
            assert(before + events.skip(k - 1) =~= events);
            lemma_over_stays(u, events.skip(k - 1));
        }
    }
}

/// What a scan is told before it walks into a root.
spec fn asked_of_root(mode: Mode, root: RootNode) -> Seq<EventView> {
    let go = EventView::Control(RUNNING);
    match mode {
        Mode::Files => seq![go],
        Mode::Folders => seq![go, EventView::Meta { path: root.path, md: root.md }],
    }
}

proof fn lemma_at_the_door(s: ScanView, mode: Mode, root: RootNode)
    requires
        s.phase == Phase::Root,
        s.ctx.mode == mode,
    ensures
        replays(s, asked_of_root(mode, root)),
        replay(s, asked_of_root(mode, root)) == (ScanView {
            phase: Phase::Enter { modified: root_modified(mode, root) },
            ..s
        }),
        roots_opened(s, asked_of_root(mode, root)) == Seq::<usize>::empty(),
{
    let go = EventView::Control(RUNNING);
    let meta = EventView::Meta { path: root.path, md: root.md };
    let none = Seq::<EventView>::empty();
    lemma_replay_push(s, none, go);
    lemma_opened_push(s, none, go);
    match mode {
        Mode::Files => {
            assert(asked_of_root(mode, root) =~= none.push(go));
        },
        Mode::Folders => {
            lemma_replay_push(s, none.push(go), meta);
            lemma_opened_push(s, none.push(go), meta);
            assert(asked_of_root(mode, root) =~= none.push(go).push(meta));
        },
    }
}

/// Walking into a root opens it.
proof fn lemma_root_is_opened(s: ScanView, modified: Option<i64>, ok: bool)
    requires
        s.phase == (Phase::Enter { modified }),
        s.frames.len() == 0,
    ensures
        roots_opened(s, seq![EventView::Control(RUNNING), EventView::Opened(ok)]) == seq![
            s.root as usize,
        ],
        ok ==> replay(s, seq![EventView::Control(RUNNING), EventView::Opened(ok)]).frames.len() == 1,
        ok ==> replay(s, seq![EventView::Control(RUNNING), EventView::Opened(ok)]).root == s.root,
        replay(s, seq![EventView::Control(RUNNING), EventView::Opened(ok)]).roots == s.roots,
{
    let go = EventView::Control(RUNNING);
    let opened = EventView::Opened(ok);
    let none = Seq::<EventView>::empty();
    lemma_replay_push(s, none, go);
    lemma_opened_push(s, none, go);
    lemma_opened_push(s, none.push(go), opened);
    lemma_replay_two(s, go, opened);
    assert(seq![go, opened] =~= none.push(go).push(opened));
    assert(roots_opened(s, seq![go, opened]) =~= seq![s.root as usize]);
}

proof fn lemma_listing_opened_once(s: ScanView, root: RootNode, modified: Option<i64>)
    requires
        s.wf(),
        s.phase == (Phase::Enter { modified }),
        s.frames.len() == 0,
        replays(s, listing_events(root.path, root.listing)),
        replay(s, listing_events(root.path, root.listing)).root == s.root + 1,
        s.root + 1 < s.roots ==> replay(s, listing_events(root.path, root.listing)).phase
            == Phase::Root,
    ensures
        roots_opened(s, listing_events(root.path, root.listing)) == seq![s.root as usize],
{
    let events = listing_events(root.path, root.listing);
    let first = seq![EventView::Control(RUNNING), EventView::Opened(root.listing is Some)];
    lemma_root_is_opened(s, modified, root.listing is Some);
    match root.listing {
        None => {
            assert(events =~= first);
        },
        Some(nodes) => {
            let rest = list_events(nodes).push(EventView::End { path: root.path });
            assert(events =~= first + rest);
            lemma_replay_add(s, first, rest);
            lemma_opened_add(s, first, rest);
            lemma_replay_in_order(s, first);
            lemma_none_opened_inside(replay(s, first), rest, rest.len() as int);
            assert(rest.take(rest.len() as int) =~= rest);
            assert(roots_opened(s, events) =~= roots_opened(s, first));
        },
    }
}

/// On the walk of one root that is not stopped, that root alone is asked to be opened, and once.
proof fn lemma_root_opened_once(s: ScanView, mode: Mode, root: RootNode)
    requires
        s.wf(),
        s.phase == Phase::Root,
        s.ctx.mode == mode,
        has_room(
            s,
            listing_items(mode, root.path, root_modified(mode, root), root.listing),
            listing_bytes(mode, root.listing),
        ),
    ensures
        roots_opened(s, root_events(mode, root)) == seq![s.root as usize],
        replays(s, root_events(mode, root)),
        replay(s, root_events(mode, root)).root == s.root + 1,
        replay(s, root_events(mode, root)).phase == if s.root + 1 < s.roots {
            Phase::Root
        } else {
            Phase::Done
        },
{
    let modified = root_modified(mode, root);
    let events = listing_events(root.path, root.listing);
    let asked = asked_of_root(mode, root);
    lemma_at_the_door(s, mode, root);
    let inside = replay(s, asked);
    law_walk_listing(inside, root.path, root.listing, modified);
    lemma_listing_opened_once(inside, root, modified);
    assert(root_events(mode, root) =~= asked + events);
    lemma_replay_add(s, asked, events);
    lemma_opened_add(s, asked, events);
    assert(roots_opened(s, root_events(mode, root)) =~= seq![s.root as usize]);
}

/// A scan that nobody stops opens every root once, one after the other, in the order in which they
/// are given.
pub proof fn law_roots_are_opened_in_turn(limit: nat, mode: Mode, roots: Seq<RootNode>, n: int)
    requires
        0 <= n <= roots.len() <= usize::MAX,
        scan_items(mode, roots.take(n)).len() <= u64::MAX,
        forall|i: int|
            0 <= i < n ==> listing_bytes(mode, (#[trigger] roots[i]).listing) <= u64::MAX,
    ensures
        ({
            let begun = scan::start(limit, mode, roots.len() as int);
            let opened = roots_opened(begun, scan_events(mode, roots.take(n)));
            &&& opened.len() == n
            &&& forall|i: int| 0 <= i < n ==> #[trigger] opened[i] == i
        }),
    decreases n,
{
    let begun = scan::start(limit, mode, roots.len() as int);
    if n == 0 {
        assert(roots.take(n) =~= Seq::empty());
    } else {
        let front = roots.take(n - 1);
        let root = roots[n - 1];
        assert(roots.take(n).drop_last() =~= front);
        assert(roots.take(n).last() == root);
        law_roots_are_opened_in_turn(limit, mode, roots, n - 1);
        lemma_scan_prefix(limit, mode, roots, n - 1);
        let at = replay(begun, scan_events(mode, front));
        assert(begun.wf());
        lemma_replay_in_order(begun, scan_events(mode, front));
        lemma_record_all(begun.ctx, scan_items(mode, front));
        lemma_root_opened_once(at, mode, root);
        lemma_opened_add(begun, scan_events(mode, front), root_events(mode, root));
    }
}

/// While a scan is told of a root, it is that root that it asks of: at every step from the end of
/// the first `n` roots to the end of the next, whatever it asks of a root it asks of root `n`.
pub proof fn law_asks_of_the_root_it_is_told_of(
    limit: nat,
    mode: Mode,
    roots: Seq<RootNode>,
    n: int,
    k: int,
)
    requires
        0 <= n < roots.len() <= usize::MAX,
        scan_items(mode, roots.take(n + 1)).len() <= u64::MAX,
        forall|i: int|
            0 <= i <= n ==> listing_bytes(mode, (#[trigger] roots[i]).listing) <= u64::MAX,
        0 <= k <= root_events(mode, roots[n]).len(),
    ensures
        ({
            let begun = scan::start(limit, mode, roots.len() as int);
            let s = replay(
                begun,
                scan_events(mode, roots.take(n)) + root_events(mode, roots[n]).take(k),
            );
            &&& s.asks() matches Action::StatRoot(i) ==> i == n
            &&& s.asks() matches Action::OpenRoot(i) ==> i == n
        }),
{
    let begun = scan::start(limit, mode, roots.len() as int);
    let front = roots.take(n);
    let events = root_events(mode, roots[n]);
    assert(roots.take(n + 1).drop_last() =~= front);
    assert(roots.take(n + 1).last() == roots[n]);
    lemma_scan_prefix(limit, mode, roots, n);
    let at = replay(begun, scan_events(mode, front));
    assert(begun.wf());
    lemma_replay_in_order(begun, scan_events(mode, front));
    lemma_record_all(begun.ctx, scan_items(mode, front));
    lemma_root_opened_once(at, mode, roots[n]);
    lemma_on_one_root(at, events, k);
    lemma_replay_add(begun, scan_events(mode, front), events.take(k));
}

/// However a scan goes, it never goes back to an earlier root nor leaves one out: an event leaves
/// the number of the current root as it is or raises it by one, and the new one is then still to be
/// begun, unless there is none.
pub proof fn law_roots_only_advance(s: ScanView, e: EventView)
    ensures
        s.after(e).root == s.root || s.after(e).root == s.root + 1,
        s.after(e).roots == s.roots,
        s.after(e).root == s.root + 1 ==> s.after(e).frames.len() == 0,
        s.after(e).root == s.root + 1 ==> s.after(e).phase == Phase::Root || s.after(e).phase
            == Phase::Done,
{
}

/// The sizes of these entries, added up.
pub open spec fn total_size(items: Seq<ItemView>) -> int
    decreases items.len(),
{
    if items.len() == 0 {
        0
    } else {
        total_size(items.drop_last()) + items.last().size
    }
}

proof fn lemma_total_size_add(a: Seq<ItemView>, b: Seq<ItemView>)
    ensures
        total_size(a + b) == total_size(a) + total_size(b),
    decreases b.len(),
{
    if b.len() == 0 {
        assert(a + b =~= a);
    } else {
        lemma_total_size_add(a, b.drop_last());
        assert((a + b).drop_last() =~= a + b.drop_last());
    }
}

proof fn lemma_files_make_up_node(node: Node)
    ensures
        node_bytes(Mode::Folders, node) == total_size(node_items(Mode::Files, node)),
    decreases node,
{
    match node {
        Node::Known { path, md, listing } => match metadata::kind_of(md) {
            Kind::Skip => {},
            Kind::Dir => match listing {
                Some(nodes) => {
                    law_files_make_up_folder(nodes);
                },
                None => {},
            },
            Kind::File => {
                let items = node_items(Mode::Files, node);
                assert(items.drop_last() =~= Seq::empty());
                assert(total_size(items.drop_last()) == 0);
            },
        },
        _ => {},
    }
}

/// The two modes agree: what a directory competes with in folders mode is the sum of the sizes of
/// all files that compete on its account in files mode.
pub proof fn law_files_make_up_folder(nodes: Seq<Node>)
    ensures
        list_bytes(Mode::Folders, nodes) == total_size(list_items(Mode::Files, nodes)),
    decreases nodes,
{
    if nodes.len() > 0 {
        law_files_make_up_folder(nodes.drop_last());
        lemma_files_make_up_node(nodes.last());
        lemma_total_size_add(
            list_items(Mode::Files, nodes.drop_last()),
            node_items(Mode::Files, nodes.last()),
        );
    }
}

proof fn lemma_folder_outweighs_node(node: Node)
    requires
        node_bytes(Mode::Folders, node) <= u64::MAX,
    ensures
        forall|i: int|
            0 <= i < node_items(Mode::Folders, node).len() ==> (#[trigger] node_items(
                Mode::Folders,
                node,
            )[i]).size <= node_bytes(Mode::Folders, node),
    decreases node,
{
    match node {
        Node::Known { path, md, listing } => match metadata::kind_of(md) {
            Kind::Dir => match listing {
                Some(nodes) => {
                    let inner = list_items(Mode::Folders, nodes);
                    let items = node_items(Mode::Folders, node);
                    law_folder_outweighs_those_below(nodes);
                    lemma_bytes_of_list(Mode::Folders, nodes);
                    assert forall|i: int| 0 <= i < items.len() implies (#[trigger] items[i]).size
                        <= node_bytes(Mode::Folders, node) by {
                        if i < inner.len() {
                            assert(items[i] == inner[i]);
                        }
                    }
                },
                None => {},
            },
            _ => {},
        },
        _ => {},
    }
}

/// No directory below another one competes with more than the upper one does.
pub proof fn law_folder_outweighs_those_below(nodes: Seq<Node>)
    requires
        list_bytes(Mode::Folders, nodes) <= u64::MAX,
    ensures
        forall|i: int|
            0 <= i < list_items(Mode::Folders, nodes).len() ==> (#[trigger] list_items(
                Mode::Folders,
                nodes,
            )[i]).size <= list_bytes(Mode::Folders, nodes),
    decreases nodes,
{
    if nodes.len() > 0 {
        let front = nodes.drop_last();
        let inner = list_items(Mode::Folders, front);
        let items = list_items(Mode::Folders, nodes);
        lemma_bytes_of_list(Mode::Folders, front);
        lemma_bytes_of_node(Mode::Folders, nodes.last());
        law_folder_outweighs_those_below(front);
        lemma_folder_outweighs_node(nodes.last());
        assert forall|i: int| 0 <= i < items.len() implies (#[trigger] items[i]).size
            <= list_bytes(Mode::Folders, nodes) by {
            if i < inner.len() {
                assert(items[i] == inner[i]);
            } else {
                assert(items[i] == node_items(Mode::Folders, nodes.last())[i - inner.len()]);
            }
        }
    }
}

/// Two scans of the same tree that nobody stops, and that differ in their limits alone, count the
/// same number of entries, and the sizes that the one with the shorter limit lists are the first
/// ones that the other lists.
pub proof fn law_longer_limit_extends_a_scan(
    limit: nat,
    longer: nat,
    mode: Mode,
    roots: Seq<RootNode>,
)
    requires
        limit <= longer,
        roots.len() <= usize::MAX,
        scan_items(mode, roots).len() <= u64::MAX,
        forall|i: int|
            0 <= i < roots.len() ==> listing_bytes(mode, (#[trigger] roots[i]).listing) <= u64::MAX,
    ensures
        ({
            let events = scan_events(mode, roots);
            let short = replay(scan::start(limit, mode, roots.len() as int), events);
            let long = replay(scan::start(longer, mode, roots.len() as int), events);
            &&& short.phase == Phase::Done
            &&& long.phase == Phase::Done
            &&& short.ctx.scanned == long.ctx.scanned
            &&& rank::sizes(short.ctx.kept).is_prefix_of(rank::sizes(long.ctx.kept))
        }),
{
    law_scan_finds_the_largest(limit, mode, roots);
    law_scan_finds_the_largest(longer, mode, roots);
    rank::law_longer_limit_extends(limit, longer, scan_items(mode, roots));
}

/// The progress reports that are given in the course of these events.
pub open spec fn reports(s: ScanView, events: Seq<EventView>) -> Seq<ProgressView>
    decreases events.len(),
{
    if events.len() == 0 {
        Seq::empty()
    } else {
        match replay(s, events.drop_last()).reply(events.last()).progress {
            Some(report) => reports(s, events.drop_last()).push(report),
            None => reports(s, events.drop_last()),
        }
    }
}

/// A report for each multiple of the interval of the mode that lies above `from` and not above
/// `to`, in ascending order.
pub open spec fn due_reports(mode: Mode, from: int, to: int) -> Seq<ProgressView> {
    let every = scan::report_interval(mode);
    Seq::new(
        (to / every - from / every) as nat,
        |i: int|
            ProgressView {
                scanned: (from / every + 1 + i) * every,
                label: context::label_of(mode),
            },
    )
}

/// However a scan goes, its reports are those of the multiples of the interval that the count has
/// passed meanwhile: each of them once, in ascending order, under the name of the mode.
pub proof fn law_reports_come_at_every_interval(s: ScanView, events: Seq<EventView>)
    ensures
        s.ctx.scanned <= replay(s, events).ctx.scanned,
        reports(s, events) == due_reports(
            s.ctx.mode,
            s.ctx.scanned,
            replay(s, events).ctx.scanned,
        ),
    decreases events.len(),
{
    let from = s.ctx.scanned;
    let mode = s.ctx.mode;
    lemma_counted(s, events);
    lemma_record_all(s.ctx, counted(s, events));
    if events.len() == 0 {
        assert(due_reports(mode, from, from) =~= Seq::empty());
    } else {
        let before = replay(s, events.drop_last());
        let e = events.last();
        law_reports_come_at_every_interval(s, events.drop_last());
        lemma_counted(s, events.drop_last());
        lemma_record_all(s.ctx, counted(s, events.drop_last()));
        assert(before.moves(e).ctx == before.ctx);
        match mode {
            Mode::Files => {
                assert(reports(s, events) =~= due_reports(mode, from, before.after(e).ctx.scanned));
            },
            Mode::Folders => {
                assert(reports(s, events) =~= due_reports(mode, from, before.after(e).ctx.scanned));
            },
        }
    }
}

/// However a scan goes, paused, stopped or told the unexpected, what it has found at any time are
/// the largest of the entries that it has counted until then.
pub proof fn law_found_so_far(limit: nat, mode: Mode, roots: int, events: Seq<EventView>)
    ensures
        ({
            let begun = scan::start(limit, mode, roots);
            let now = replay(begun, events);
            let items = counted(begun, events);
            &&& now.ctx.scanned == items.len()
            &&& now.ctx.kept == rank::keep_all(limit, items)
            &&& rank::largest_of(limit, items, now.ctx.kept)
            &&& rank::ranked(now.ctx.kept)
        }),
{
    let begun = scan::start(limit, mode, roots);
    let items = counted(begun, events);
    lemma_counted(begun, events);
    lemma_record_all(begun.ctx, items);
    lemma_record_from_nothing(begun.ctx, items);
    rank::law_largest_are_kept(limit, items);
}

/// What was counted by some time is the beginning of what is counted in the end.
proof fn lemma_counted_prefix(s: ScanView, events: Seq<EventView>, n: int)
    requires
        0 <= n <= events.len(),
    ensures
        counted(s, events.take(n)).is_prefix_of(counted(s, events)),
{
    lemma_counted_add(s, events.take(n), events.skip(n));
    assert(events.take(n) + events.skip(n) =~= events);
}

/// A scan that is told to stop, at whatever time it asks, has counted the first entries of those
/// that it would have counted if left alone, and ends with the largest of them. In files mode it is
/// over with that.
pub proof fn law_stopped_scan_keeps_what_it_found(
    limit: nat,
    mode: Mode,
    roots: Seq<RootNode>,
    n: int,
)
    requires
        roots.len() <= usize::MAX,
        scan_items(mode, roots).len() <= u64::MAX,
        forall|i: int|
            0 <= i < roots.len() ==> listing_bytes(mode, (#[trigger] roots[i]).listing) <= u64::MAX,
        0 <= n <= scan_events(mode, roots).len(),
        replay(
            scan::start(limit, mode, roots.len() as int),
            scan_events(mode, roots).take(n),
        ).asks() == Action::Poll,
    ensures
        ({
            let begun = scan::start(limit, mode, roots.len() as int);
            let events = scan_events(mode, roots).take(n).push(EventView::Control(STOPPED));
            let told = replay(begun, events);
            let items = counted(begun, events);
            &&& items.is_prefix_of(scan_items(mode, roots))
            &&& told.ctx.scanned == items.len()
            &&& told.ctx.kept == rank::keep_all(limit, items)
            &&& rank::largest_of(limit, items, told.ctx.kept)
            &&& mode == Mode::Files ==> told.phase == Phase::Done
        }),
{
    let begun = scan::start(limit, mode, roots.len() as int);
    let all = scan_events(mode, roots);
    let stop = EventView::Control(STOPPED);
    law_scan_finds_the_largest(limit, mode, roots);
    lemma_counted_prefix(begun, all, n);
    lemma_counted_push(begun, all.take(n), stop);
    lemma_replay_push(begun, all.take(n), stop);
    law_found_so_far(limit, mode, roots.len() as int, all.take(n).push(stop));
    lemma_counted(begun, all.take(n));
    lemma_record_all(begun.ctx, counted(begun, all.take(n)));
}

/// The list at any time follows from the entries counted until then.
proof fn lemma_counted(s: ScanView, events: Seq<EventView>)
    ensures
        replay(s, events).ctx == s.ctx.record_all(counted(s, events)),
    decreases events.len(),
{
    if events.len() > 0 {
        let before = replay(s, events.drop_last());
        let e = events.last();
        lemma_counted(s, events.drop_last());
        assert(before.moves(e).ctx == before.ctx);
        if before.competes(e) is Some {
            assert(counted(s, events).drop_last() =~= counted(s, events.drop_last()));
        }
    }
}

/// A paused scan stays where it is, counts nothing and asks to wait, however often it is told so.
pub proof fn law_pause_holds(s: ScanView)
    requires
        s.asks() == Action::Poll,
    ensures
        s.after(EventView::Control(PAUSED)) == s,
        s.reply(EventView::Control(PAUSED)) == (scan::ReplyView {
            progress: None,
            action: Action::Wait,
        }),
{
}

/// The same events without those that say that the scan is paused.
pub open spec fn without_pauses(events: Seq<EventView>) -> Seq<EventView>
    decreases events.len(),
{
    if events.len() == 0 {
        events
    } else if events.last() == EventView::Control(PAUSED) {
        without_pauses(events.drop_last())
    } else {
        without_pauses(events.drop_last()).push(events.last())
    }
}

/// A pause leaves no trace: with or without the pauses, a scan comes to the same.
pub proof fn law_pauses_leave_no_trace(s: ScanView, events: Seq<EventView>)
    ensures
        replay(s, events) == replay(s, without_pauses(events)),
    decreases events.len(),
{
    if events.len() > 0 {
        law_pauses_leave_no_trace(s, events.drop_last());
        lemma_replay_push(s, without_pauses(events.drop_last()), events.last());
    }
}

/// A reparse point is neither counted nor walked into, even if it calls itself a file or a
/// directory: the scan goes on to the next entry as if there were none.
pub proof fn law_reparse_points_are_passed_over(s: ScanView, path: Seq<char>, md: Metadata)
    requires
        s.phase == Phase::Stat,
        metadata::reparse(md),
    ensures
        s.after(EventView::Meta { path, md: Some(md) }) == (ScanView { phase: Phase::Next, ..s }),
{
}

/// A scan that is told to stop counts nothing more on that walk. In files mode, and between two
/// roots, it is over at once. Within a walk in folders mode it goes on to the next root, if there
/// is one, and is over if the byte still says so.
pub proof fn law_stop_ends(s: ScanView)
    requires
        s.wf(),
        s.asks() == Action::Poll,
    ensures
        ({
            let told = s.after(EventView::Control(STOPPED));
            &&& told.ctx == s.ctx
            &&& told.frames.len() == 0
            &&& s.ctx.mode == Mode::Files || s.phase == Phase::Root ==> told.phase == Phase::Done
            &&& told.phase == Phase::Done || (told.phase == Phase::Root && told.root == s.root + 1)
            &&& told.after(EventView::Control(STOPPED)).phase == Phase::Done
            &&& told.after(EventView::Control(STOPPED)).ctx == s.ctx
        }),
{
}

/// A scan that is over stays so, whatever it is told.
pub proof fn law_over_is_over(s: ScanView, e: EventView)
    requires
        s.phase == Phase::Done,
    ensures
        s.after(e) == s,
        s.reply(e) == (scan::ReplyView { progress: None, action: Action::Done }),
{
}

} // verus!
