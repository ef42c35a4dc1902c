//! What a scan has found so far.

use crate::control::{Check, PAUSED, STOPPED};
use crate::item::{HeapItem, Item, ItemView};
use crate::rank;
use vstd::prelude::*;

verus! {

/// What competes for a place in the list.
#[derive(Clone, Copy, Debug, PartialEq, Eq, Structural)]
pub enum Mode {
    /// Every file, by its own size.
    Files,
    /// Every directory, by the total size of the files below it.
    Folders,
}

/// The name under which a mode is requested and reported.
pub open spec fn label_of(mode: Mode) -> Seq<char> {
    match mode {
        Mode::Files => "files"@,
        Mode::Folders => "folders"@,
    }
}

impl Mode {
    /// The mode that is requested by `name`: folders under that name, files under any other.
    pub fn from_name(name: &String) -> (mode: Mode)
        ensures
            mode == if name@ == "folders"@ {
                Mode::Folders
            } else {
                Mode::Files
            },
    {
        if *name == "folders".to_owned() {
            Mode::Folders
        } else {
            Mode::Files
        }
    }

    /// The name of the mode.
    pub fn label(self) -> (label: &'static str)
        ensures
            label@ == label_of(self),
            self == Mode::Files ==> label@ == "files"@,
            self == Mode::Folders ==> label@ == "folders"@,
    {
        match self {
            Mode::Files => "files",
            Mode::Folders => "folders",
        }
    }
}

/// The entries that a finished list stands for.
pub open spec fn item_views(items: Seq<Item>) -> Seq<ItemView> {
    Seq::new(items.len(), |i: int| items[i]@)
}

/// A progress report, free of how its label is stored.
pub struct ProgressView {
    pub scanned: int,
    pub label: Seq<char>,
}

/// A progress report.
#[derive(Clone, Copy, Debug)]
pub struct Progress {
    pub scanned: u64,
    pub label: &'static str,
}

impl View for Progress {
    type V = ProgressView;

    open spec fn view(&self) -> ProgressView {
        ProgressView { scanned: self.scanned as int, label: self.label@ }
    }
}

/// What a report says, if there is one.
pub open spec fn progress_view(progress: Option<Progress>) -> Option<ProgressView> {
    match progress {
        Some(p) => Some(p@),
        None => None,
    }
}

/// What a scan has found so far, free of how it is stored.
pub struct ContextView {
    pub limit: nat,
    pub mode: Mode,
    pub scanned: int,
    pub kept: Seq<ItemView>,
}

impl ContextView {
    /// After one more entry was counted and has competed for a place.
    pub open spec fn record(self, item: ItemView) -> ContextView {
        ContextView {
            scanned: self.scanned + 1,
            kept: rank::keep(self.limit, self.kept, item),
            ..self
        }
    }

    /// After all of `items`, one by one.
    pub open spec fn record_all(self, items: Seq<ItemView>) -> ContextView
        decreases items.len(),
    {
        if items.len() == 0 {
            self
        } else {
            self.record_all(items.drop_last()).record(items.last())
        }
    }

    /// The report that is due: one after every `every` entries.
    pub open spec fn report(self, every: int) -> Option<ProgressView> {
        if self.scanned % every == 0 {
            Some(ProgressView { scanned: self.scanned, label: label_of(self.mode) })
        } else {
            None
        }
    }
}

/// Counting an entry raises the count by one, lets the entry compete and touches nothing else.
pub proof fn law_record(c: ContextView, item: ItemView)
    ensures
        c.record(item).scanned == c.scanned + 1,
        c.record(item).kept == rank::keep(c.limit, c.kept, item),
        c.record(item).limit == c.limit,
        c.record(item).mode == c.mode,
{
}

/// A report is due exactly when the count is a multiple of the interval; it gives the count and the
/// name of the mode.
pub proof fn law_report(c: ContextView, every: int)
    ensures
        c.report(every) is Some <==> c.scanned % every == 0,
        c.report(every) is Some ==> c.report(every)->0.scanned == c.scanned,
        c.report(every) is Some && c.mode == Mode::Files ==> c.report(every)->0.label == "files"@,
        c.report(every) is Some && c.mode == Mode::Folders ==> c.report(every)->0.label
            == "folders"@,
{
}

/// Reports and finished lists say what they hold.
pub proof fn law_results_say_what_they_hold(progress: Progress, items: Seq<Item>)
    ensures
        progress@.scanned == progress.scanned,
        progress@.label == progress.label@,
        progress_view(Some(progress)) == Some(progress@),
        progress_view(None) is None,
        item_views(items).len() == items.len(),
        forall|i: int| 0 <= i < items.len() ==> item_views(items)[i] == (#[trigger] items[i])@,
{
}

/// What a scan has found so far: the largest entries, and how many have been counted.
pub struct ScanCtx {
    limit: usize,
    mode: Mode,
    kept: Vec<HeapItem>,
    scanned: u64,
}

impl View for ScanCtx {
    type V = ContextView;

    closed spec fn view(&self) -> ContextView {
        ContextView {
            limit: self.limit as nat,
            mode: self.mode,
            scanned: self.scanned as int,
            kept: rank::views(self.kept@),
        }
    }
}

impl ScanCtx {
    /// The list is a ranking and no longer than the limit.
    pub open spec fn wf(&self) -> bool {
        &&& rank::ranked(self@.kept)
        &&& self@.kept.len() <= self@.limit
        &&& self@.limit <= usize::MAX
        &&& 0 <= self@.scanned <= u64::MAX
    }

    /// A scan that has found nothing yet and will list at most `limit` entries.
    pub fn new(limit: usize, mode: Mode) -> (ctx: ScanCtx)
        ensures
            ctx.wf(),
            ctx@ == (ContextView {
                limit: limit as nat,
                mode,
                scanned: 0,
                kept: Seq::<ItemView>::empty(),
            }),
    {
        let ctx = ScanCtx { limit, mode, kept: Vec::new(), scanned: 0 };
        assert(ctx@.kept =~= Seq::<ItemView>::empty());
        ctx
    }

    /// What competes.
    pub fn mode(&self) -> (mode: Mode)
        ensures
            mode == self@.mode,
    {
        self.mode
    }

    /// How many entries have been counted.
    pub fn scanned(&self) -> (scanned: u64)
        ensures
            scanned == self@.scanned,
    {
        self.scanned
    }

    /// What to do on reading `control`: wait while paused, stop once a stop is requested, and go
    /// on otherwise.
    pub fn check(control: u8) -> (check: Check)
        ensures
            check == crate::control::check_of(control),
            check == Check::Wait <==> control == 1,
            check == Check::Stop <==> control == 2,
    {
        if control == PAUSED {
            Check::Wait
        } else if control == STOPPED {
            Check::Stop
        } else {
            Check::Go
        }
    }

    /// Lets an entry compete for a place among the largest `limit` ones. Its path is copied only
    /// if it gets one.
    pub fn maybe_insert(&mut self, size: u64, path: &str, modified: Option<i64>)
        requires
            old(self).wf(),
        ensures
            final(self).wf(),
            final(self)@ == (ContextView {
                kept: rank::keep(
                    old(self)@.limit,
                    old(self)@.kept,
                    ItemView { size, path: path@, modified },
                ),
                ..old(self)@
            }),
    {
        let ghost x = ItemView { size, path: path@, modified };
        let ghost before = self@.kept;
        proof {
            rank::lemma_keep(self@.limit, before, x);
        }
        if self.limit == 0 {
            return;
        }
        if self.kept.len() >= self.limit {
            let place: usize = rank::find_smallest(&self.kept);
            if size <= self.kept[place].size {
                return;
            }
            let _ = self.kept.remove(place);
            assert(self@.kept =~= before.remove(place as int));
        }
        rank::insert(&mut self.kept, HeapItem { size, path: path.to_owned(), modified });
    }

    /// The progress report that is due, if any: one after every `every` entries.
    pub fn report(&self, every: u64) -> (progress: Option<Progress>)
        requires
            every > 0,
        ensures
            progress_view(progress) == self@.report(every as int),
            progress is Some <==> self@.scanned % (every as int) == 0,
            progress matches Some(p) ==> p.scanned == self@.scanned && p.label@ == (match self@.mode {
                Mode::Files => "files"@,
                Mode::Folders => "folders"@,
            }),
    {
        if self.scanned % every == 0 {
            Some(Progress { scanned: self.scanned, label: self.mode.label() })
        } else {
            None
        }
    }

    /// Counts an entry, lets it compete and gives the report that is then due.
    pub fn record(&mut self, size: u64, path: &str, modified: Option<i64>, every: u64) -> (progress:
        Option<Progress>)
        requires
            old(self).wf(),
            old(self)@.scanned < u64::MAX,
            every > 0,
        ensures
            final(self).wf(),
            final(self)@ == old(self)@.record(ItemView { size, path: path@, modified }),
            progress_view(progress) == final(self)@.report(every as int),
            final(self)@.scanned == old(self)@.scanned + 1,
            final(self)@.limit == old(self)@.limit,
            final(self)@.mode == old(self)@.mode,
            progress is Some <==> final(self)@.scanned % (every as int) == 0,
    {
        self.maybe_insert(size, path, modified);
        self.scanned = self.scanned + 1;
        self.report(every)
    }

    /// The entries found, from the largest down, and how many were counted.
    pub fn into_items(self) -> (found: (Vec<Item>, u64))
        ensures
            item_views(found.0@) == self@.kept,
            found.0@.len() == self@.kept.len(),
            forall|i: int|
                #![trigger found.0@[i]]
                0 <= i < found.0@.len() ==> found.0@[i].size == self@.kept[i].size
                    && found.0@[i].path@ == self@.kept[i].path && found.0@[i].modified
                    == self@.kept[i].modified,
            found.1 == self@.scanned,
    {
        let ScanCtx { kept, scanned, .. } = self;
        let mut items: Vec<Item> = Vec::new();
        for entry in rest: kept
            invariant
                rest.seq() == kept@,
                items@.len() == rest.index(),
                forall|i: int| 0 <= i < items@.len() ==> (#[trigger] items@[i])@ == kept@[i]@,
        {
            items.push(entry.into_item());
        }
        assert(item_views(items@) =~= self@.kept);
        assert forall|i: int| #![trigger items@[i]] 0 <= i < items@.len() implies items@[i]@
            == self@.kept[i] by {
            assert(item_views(items@)[i] == items@[i]@);
        }
        (items, scanned)
    }
}

} // verus!
