//! The decisions of the file watcher: which file system events warrant a
//! rerender, which directories to watch, and the trailing-edge debounce that
//! turns a burst of events into one render per target.
//!
//! Rendering opens the watched file to read it, so an event for a mere read
//! must never count as a change: that would feed every render back into the
//! next one.
use vstd::prelude::*;

use crate::text::{path_file_name, path_parent, paths_equal, same_path, parent_of, file_name_of};

verus! {

/// How long, in nanoseconds, the watch loop waits between checks for a new
/// target when nothing is pending.
pub const TICK_NS: u64 = 200_000_000;

/// How long, in nanoseconds, the event stream must stay quiet before a
/// pending target is rendered.
pub const DEBOUNCE_NS: u64 = 100_000_000;

/// What the watcher tells the window to do.
#[derive(Debug, Clone, Copy, PartialEq, Eq)]
pub enum WatchMessage {
    /// The watched markdown document changed.
    Document,
    /// The active custom stylesheet changed.
    Style,
}

/// What the window tells the watcher to watch.
#[derive(Debug, Clone, PartialEq, Eq)]
pub enum WatchControl {
    /// Another document was opened.
    Document(String),
    /// The custom stylesheet was changed or cleared.
    Style(Option<String>),
}

/// How a file was accessed.
#[derive(Debug, Clone, Copy, PartialEq, Eq)]
pub enum AccessMode {
    Any,
    Execute,
    Read,
    Write,
    Other,
}

/// An access to a file: nothing in it changed.
#[derive(Debug, Clone, Copy, PartialEq, Eq)]
pub enum AccessKind {
    Any,
    Read,
    Open(AccessMode),
    Close(AccessMode),
    Other,
}

/// What was created.
#[derive(Debug, Clone, Copy, PartialEq, Eq)]
pub enum CreateKind {
    Any,
    File,
    Folder,
    Other,
}

/// How a file's data changed.
#[derive(Debug, Clone, Copy, PartialEq, Eq)]
pub enum DataChange {
    Any,
    Size,
    Content,
    Other,
}

/// Which metadata changed.
#[derive(Debug, Clone, Copy, PartialEq, Eq)]
pub enum MetadataKind {
    Any,
    AccessTime,
    WriteTime,
    Permissions,
    Ownership,
    Extended,
    Other,
}

/// Which side of a rename an event reports.
#[derive(Debug, Clone, Copy, PartialEq, Eq)]
pub enum RenameMode {
    Any,
    To,
    From,
    Both,
    Other,
}

/// How a file was modified.
#[derive(Debug, Clone, Copy, PartialEq, Eq)]
pub enum ModifyKind {
    Any,
    Data(DataChange),
    Metadata(MetadataKind),
    Name(RenameMode),
    Other,
}

/// What was removed.
#[derive(Debug, Clone, Copy, PartialEq, Eq)]
pub enum RemoveKind {
    Any,
    File,
    Folder,
    Other,
}

/// The kind of a file system event, as the watcher reports it.
#[derive(Debug, Clone, Copy, PartialEq, Eq)]
pub enum EventKind {
    Any,
    Access(AccessKind),
    Create(CreateKind),
    Modify(ModifyKind),
    Remove(RemoveKind),
    Other,
}

/// A file system event: its kind and the paths it names.
#[derive(Debug, Clone)]
pub struct FsEvent {
    pub kind: EventKind,
    pub paths: Vec<String>,
}

impl FsEvent {
    /// An event of `kind` that names no path yet.
    pub fn new(kind: EventKind) -> (r: FsEvent)
        ensures
            r.kind == kind,
            r.paths@.len() == 0,
    {
        FsEvent { kind, paths: Vec::new() }
    }

    /// The event, naming `path` after the paths it named.
    pub fn add_path(self, path: &str) -> (r: FsEvent)
        ensures
            r.kind == self.kind,
            r.paths@.len() == self.paths@.len() + 1,
            forall|i: int| 0 <= i < self.paths@.len() ==> r.paths@[i]@ == self.paths@[i]@,
            r.paths@.last()@ == path@,
    {
        let mut e = self;
        e.paths.push(crate::text::string_of(crate::text::chars_of(path).as_slice()));
        e
    }
}

/// An event kind that is a change to a file's content or existence: any
/// modification but of metadata, a creation, a removal. Reads and other
/// accesses, metadata changes and kinds that say nothing are no change.
pub open spec fn change_kind(kind: EventKind) -> bool {
    match kind {
        EventKind::Access(_) => false,
        EventKind::Modify(ModifyKind::Metadata(_)) => false,
        EventKind::Modify(_) | EventKind::Create(_) | EventKind::Remove(_) => true,
        EventKind::Any | EventKind::Other => false,
    }
}

/// Does this event kind represent a change to a file's content or existence?
pub fn is_change_kind(kind: &EventKind) -> (r: bool)
    ensures
        r == change_kind(*kind),
{
    match kind {
        EventKind::Access(_) => false,
        EventKind::Modify(ModifyKind::Metadata(_)) => false,
        EventKind::Modify(_) | EventKind::Create(_) | EventKind::Remove(_) => true,
        EventKind::Any | EventKind::Other => false,
    }
}

/// The event warrants rerendering `watched`: it is a change, and one of its
/// paths is `watched` itself (the same path, not a sibling that shares a
/// prefix nor a file of the same name elsewhere).
pub open spec fn rerenders(kind: EventKind, paths: Seq<Seq<char>>, watched: Seq<char>) -> bool {
    change_kind(kind) && exists|i: int| 0 <= i < paths.len() && same_path(paths[i], watched)
}

/// The views of the paths of an event.
pub open spec fn paths_view(paths: Seq<String>) -> Seq<Seq<char>> {
    paths.map_values(|p: String| p@)
}

/// Should `event` cause `watched` to be rerendered?
pub fn should_rerender(event: &FsEvent, watched: &str) -> (r: bool)
    ensures
        r == rerenders(event.kind, paths_view(event.paths@), watched@),
{
    if !is_change_kind(&event.kind) {
        return false;
    }
    let ghost ps = paths_view(event.paths@);
    let mut i: usize = 0;
    while i < event.paths.len()
        invariant
            i <= event.paths.len(),
            ps == paths_view(event.paths@),
            change_kind(event.kind),
            forall|j: int| 0 <= j < i ==> !same_path(ps[j], watched@),
        decreases event.paths.len() - i,
    {
        if paths_equal(event.paths[i].as_str(), watched) {
            assert(ps[i as int] == event.paths@[i as int]@);
            assert(0 <= i < ps.len() && same_path(ps[i as int], watched@));
            return true;
        }
        i = i + 1;
    }
    proof {
        if exists|j: int| 0 <= j < ps.len() && same_path(ps[j], watched@) {
            let j = choose|j: int| 0 <= j < ps.len() && same_path(ps[j], watched@);
            assert(!same_path(ps[j], watched@));
        }
    }
    false
}

/// `dirs` holds a path that is the same path as `d`.
pub open spec fn holds_path(dirs: Seq<Seq<char>>, d: Seq<char>) -> bool {
    exists|i: int| 0 <= i < dirs.len() && same_path(dirs[i], d)
}

fn contains_path(dirs: &Vec<String>, d: &str) -> (r: bool)
    ensures
        r == holds_path(paths_view(dirs@), d@),
{
    let ghost ds = paths_view(dirs@);
    let mut i: usize = 0;
    while i < dirs.len()
        invariant
            i <= dirs.len(),
            ds == paths_view(dirs@),
            forall|j: int| 0 <= j < i ==> !same_path(ds[j], d@),
        decreases dirs.len() - i,
    {
        if paths_equal(dirs[i].as_str(), d) {
            assert(ds[i as int] == dirs@[i as int]@);
            return true;
        }
        i = i + 1;
    }
    proof {
        if holds_path(ds, d@) {
            let j = choose|j: int| 0 <= j < ds.len() && same_path(ds[j], d@);
            assert(!same_path(ds[j], d@));
        }
    }
    false
}

/// The directories to watch for `doc` and `style`: the document's parent,
/// then the stylesheet's parent unless it is the same directory. Files are
/// watched through their directory so that saves by rename are seen.
pub open spec fn wanted_dirs_of(doc: Seq<char>, style: Option<Seq<char>>) -> Seq<Seq<char>> {
    let first: Seq<Seq<char>> = match parent_of(doc) {
        Some(d) => seq![d],
        None => seq![],
    };
    match style {
        Some(s) => match parent_of(s) {
            Some(d) => if holds_path(first, d) {
                first
            } else {
                first.push(d)
            },
            None => first,
        },
        None => first,
    }
}

/// The directories that must be watched to see changes to `doc` and `style`.
pub fn wanted_dirs(doc: &str, style: Option<&str>) -> (r: Vec<String>)
    ensures
        paths_view(r@) == wanted_dirs_of(
            doc@,
            match style {
                Some(s) => Some(s@),
                None => None,
            },
        ),
{
    let mut dirs: Vec<String> = Vec::new();
    if let Some(parent) = path_parent(doc) {
        dirs.push(parent);
    }
    assert(paths_view(dirs@) =~= match parent_of(doc@) {
        Some(d) => seq![d],
        None => Seq::<Seq<char>>::empty(),
    });
    if let Some(s) = style {
        if let Some(parent) = path_parent(s) {
            if !contains_path(&dirs, parent.as_str()) {
                let ghost before = paths_view(dirs@);
                dirs.push(parent);
                assert(paths_view(dirs@) =~= before.push(dirs@.last()@));
            }
        }
    }
    dirs
}

/// The directories of `a` that `b` does not hold, in their order.
pub open spec fn dirs_missing(a: Seq<Seq<char>>, b: Seq<Seq<char>>) -> Seq<Seq<char>> {
    a.filter(|d: Seq<char>| !holds_path(b, d))
}

/// What to change so that exactly the directories of `wanted` are watched
/// where those of `watched` were: the directories to stop watching, then
/// those to start watching.
pub fn resync_plan(watched: &Vec<String>, wanted: &Vec<String>) -> (r: (Vec<String>, Vec<String>))
    ensures
        paths_view(r.0@) == dirs_missing(paths_view(watched@), paths_view(wanted@)),
        paths_view(r.1@) == dirs_missing(paths_view(wanted@), paths_view(watched@)),
{
    let unwatch = missing_from(watched, wanted);
    let watch = missing_from(wanted, watched);
    (unwatch, watch)
}

fn missing_from(a: &Vec<String>, b: &Vec<String>) -> (r: Vec<String>)
    ensures
        paths_view(r@) == dirs_missing(paths_view(a@), paths_view(b@)),
{
    let ghost av = paths_view(a@);
    let ghost bv = paths_view(b@);
    let ghost pred = |d: Seq<char>| !holds_path(bv, d);
    let mut r: Vec<String> = Vec::new();
    let mut i: usize = 0;
    assert(av.subrange(0, 0) =~= Seq::<Seq<char>>::empty());
    while i < a.len()
        invariant
            i <= a.len(),
            av == paths_view(a@),
            bv == paths_view(b@),
            pred == (|d: Seq<char>| !holds_path(bv, d)),
            paths_view(r@) == av.subrange(0, i as int).filter(pred),
        decreases a.len() - i,
    {
        proof {
            reveal(Seq::filter);
        }
        assert(av.subrange(0, i + 1).drop_last() =~= av.subrange(0, i as int));
        assert(av[i as int] == a@[i as int]@);
        if !contains_path(b, a[i].as_str()) {
            let ghost rv = paths_view(r@);
            r.push(crate::text::string_of(crate::text::chars_of(a[i].as_str()).as_slice()));
            assert(paths_view(r@) =~= rv.push(av[i as int]));
        }
        i = i + 1;
    }
    assert(av.subrange(0, i as int) =~= av);
    r
}

/// Where resolving `path` starts: its parent directory and its file name,
/// when it has a parent that is not empty and a file name.
pub open spec fn canonical_parts_of(path: Seq<char>) -> Option<(Seq<char>, Seq<char>)> {
    match (parent_of(path), file_name_of(path)) {
        (Some(d), Some(n)) => if d.len() > 0 {
            Some((d, n))
        } else {
            None
        },
        _ => None,
    }
}

/// How `path` is resolved to the absolute form that the watcher reports,
/// without requiring the file itself to exist: `Some((dir, name))` when the
/// parent `dir` is to be resolved and `name` joined to it; `None` when the
/// whole path is to be resolved.
pub fn canonical_parts(path: &str) -> (r: Option<(String, String)>)
    ensures
        match r {
            Some((d, n)) => canonical_parts_of(path@) == Some((d@, n@)),
            None => canonical_parts_of(path@) is None,
        },
{
    let parent = path_parent(path);
    let name = path_file_name(path);
    match (parent, name) {
        (Some(d), Some(n)) => if crate::text::chars_of(d.as_str()).len() > 0 {
            Some((d, n))
        } else {
            None
        },
        _ => None,
    }
}

// ---------------------------------------------------------------- debounce

/// The trailing-edge debounce of the watch loop, one slot per target: the
/// instant (in nanoseconds on the loop's clock) of the last change event of
/// a target that has not been rendered yet.
#[derive(Debug, Clone, Copy, PartialEq, Eq)]
pub struct Debounce {
    pub pending_doc: Option<u64>,
    pub pending_style: Option<u64>,
}

/// The time since `since` at `now`: zero when `now` is earlier.
pub open spec fn elapsed(since: u64, now: u64) -> nat {
    if now >= since {
        (now - since) as nat
    } else {
        0
    }
}

/// What is left of the debounce window of a change at `since`.
pub open spec fn remaining(since: u64, now: u64) -> nat {
    if elapsed(since, now) >= DEBOUNCE_NS {
        0
    } else {
        (DEBOUNCE_NS - elapsed(since, now)) as nat
    }
}

/// How long the loop waits for the next event: the least rest of a pending
/// target's window, or a tick when nothing is pending.
pub open spec fn wait_of(d: Debounce, now: u64) -> nat {
    match (d.pending_doc, d.pending_style) {
        (None, None) => TICK_NS as nat,
        (Some(a), None) => remaining(a, now),
        (None, Some(b)) => remaining(b, now),
        (Some(a), Some(b)) => if remaining(a, now) <= remaining(b, now) {
            remaining(a, now)
        } else {
            remaining(b, now)
        },
    }
}

/// A pending change at `since` is due at `now`: its window has passed.
pub open spec fn due(p: Option<u64>, now: u64) -> bool {
    p is Some && elapsed(p->0, now) >= DEBOUNCE_NS
}

/// Which target an event makes pending, if any: the document when the event
/// changes it; else the stylesheet, when there is one and the event changes
/// it.
pub open spec fn target_of(
    kind: EventKind,
    paths: Seq<Seq<char>>,
    doc: Seq<char>,
    style: Option<Seq<char>>,
) -> Option<WatchMessage> {
    if rerenders(kind, paths, doc) {
        Some(WatchMessage::Document)
    } else {
        match style {
            Some(s) => if rerenders(kind, paths, s) {
                Some(WatchMessage::Style)
            } else {
                None
            },
            None => None,
        }
    }
}

/// Which target `event` makes pending, if any.
pub fn event_target(event: &FsEvent, doc: &str, style: Option<&str>) -> (r: Option<WatchMessage>)
    ensures
        r == target_of(
            event.kind,
            paths_view(event.paths@),
            doc@,
            match style {
                Some(s) => Some(s@),
                None => None,
            },
        ),
{
    if should_rerender(event, doc) {
        Some(WatchMessage::Document)
    } else {
        match style {
            Some(s) => if should_rerender(event, s) {
                Some(WatchMessage::Style)
            } else {
                None
            },
            None => None,
        }
    }
}

fn saturating_elapsed(since: u64, now: u64) -> (r: u64)
    ensures
        r == elapsed(since, now),
{
    if now >= since {
        now - since
    } else {
        0
    }
}

fn remaining_ns(since: u64, now: u64) -> (r: u64)
    ensures
        r == remaining(since, now),
{
    let e = saturating_elapsed(since, now);
    if e >= DEBOUNCE_NS {
        0
    } else {
        DEBOUNCE_NS - e
    }
}

impl Debounce {
    /// Nothing pending.
    pub fn new() -> (r: Debounce)
        ensures
            r.pending_doc is None,
            r.pending_style is None,
    {
        Debounce { pending_doc: None, pending_style: None }
    }

    /// How long, in nanoseconds, the loop waits for the next event at `now`.
    pub fn wait(&self, now: u64) -> (r: u64)
        ensures
            r == wait_of(*self, now),
            r <= TICK_NS,
    {
        match (self.pending_doc, self.pending_style) {
            (None, None) => TICK_NS,
            (Some(a), None) => remaining_ns(a, now),
            (None, Some(b)) => remaining_ns(b, now),
            (Some(a), Some(b)) => {
                let ra = remaining_ns(a, now);
                let rb = remaining_ns(b, now);
                if ra <= rb {
                    ra
                } else {
                    rb
                }
            },
        }
    }

    /// A change event for `target` at `now`: its window starts over; the
    /// other target's slot is left as it was.
    pub fn on_change(&mut self, target: WatchMessage, now: u64)
        ensures
            *final(self) == after_change(*old(self), target, now),
    {
        match target {
            WatchMessage::Document => self.pending_doc = Some(now),
            WatchMessage::Style => self.pending_style = Some(now),
        }
    }

    /// The renders that are due at `now`, document first, each once; their
    /// slots are cleared and the others are left as they were.
    pub fn flush(&mut self, now: u64) -> (r: Vec<WatchMessage>)
        ensures
            r@ == flush_out(*old(self), now),
            *final(self) == after_flush(*old(self), now),
    {
        let mut r: Vec<WatchMessage> = Vec::new();
        if let Some(since) = self.pending_doc {
            if saturating_elapsed(since, now) >= DEBOUNCE_NS {
                self.pending_doc = None;
                r.push(WatchMessage::Document);
            }
        }
        if let Some(since) = self.pending_style {
            if saturating_elapsed(since, now) >= DEBOUNCE_NS {
                self.pending_style = None;
                r.push(WatchMessage::Style);
            }
        }
        assert(r@ =~= flush_out(*old(self), now));
        r
    }

    /// One wake-up of the watch loop at `now`: the target that its event
    /// makes pending, if any (none on a timeout), starts its window over;
    /// then the renders that are due at `now` are emitted.
    pub fn wake(&mut self, target: Option<WatchMessage>, now: u64) -> (r: Vec<WatchMessage>)
        ensures
            r@ == wake_out(*old(self), target, now),
            *final(self) == after_wake(*old(self), target, now),
    {
        match target {
            Some(t) => self.on_change(t, now),
            None => {},
        }
        self.flush(now)
    }
}

/// The slots after a change event for `target` at `now`.
pub open spec fn after_change(d: Debounce, target: WatchMessage, now: u64) -> Debounce {
    match target {
        WatchMessage::Document => Debounce { pending_doc: Some(now), ..d },
        WatchMessage::Style => Debounce { pending_style: Some(now), ..d },
    }
}

/// The renders that a flush at `now` emits: each due target once, the
/// document first.
pub open spec fn flush_out(d: Debounce, now: u64) -> Seq<WatchMessage> {
    (if due(d.pending_doc, now) {
        seq![WatchMessage::Document]
    } else {
        Seq::<WatchMessage>::empty()
    }) + (if due(d.pending_style, now) {
        seq![WatchMessage::Style]
    } else {
        Seq::<WatchMessage>::empty()
    })
}

/// The slots after a flush at `now`: the due ones cleared.
pub open spec fn after_flush(d: Debounce, now: u64) -> Debounce {
    Debounce {
        pending_doc: if due(d.pending_doc, now) {
            None
        } else {
            d.pending_doc
        },
        pending_style: if due(d.pending_style, now) {
            None
        } else {
            d.pending_style
        },
    }
}

/// The slots after the event of a wake-up, which makes `target` pending.
pub open spec fn changed(d: Debounce, target: Option<WatchMessage>, now: u64) -> Debounce {
    match target {
        Some(t) => after_change(d, t, now),
        None => d,
    }
}

/// The renders of a wake-up at `now`.
pub open spec fn wake_out(d: Debounce, target: Option<WatchMessage>, now: u64) -> Seq<WatchMessage> {
    flush_out(changed(d, target, now), now)
}

/// The slots after a wake-up at `now`.
pub open spec fn after_wake(d: Debounce, target: Option<WatchMessage>, now: u64) -> Debounce {
    after_flush(changed(d, target, now), now)
}

/// The slots after the loop wakes up for each of `wakes` in turn, each a
/// target that its event makes pending (if any) and the time.
pub open spec fn run_after(d: Debounce, wakes: Seq<(Option<WatchMessage>, u64)>) -> Debounce
    decreases wakes.len(),
{
    if wakes.len() == 0 {
        d
    } else {
        after_wake(run_after(d, wakes.drop_last()), wakes.last().0, wakes.last().1)
    }
}

/// The renders that the loop emits over `wakes`, in order.
pub open spec fn run_out(d: Debounce, wakes: Seq<(Option<WatchMessage>, u64)>) -> Seq<WatchMessage>
    decreases wakes.len(),
{
    if wakes.len() == 0 {
        seq![]
    } else {
        run_out(d, wakes.drop_last()) + wake_out(
            run_after(d, wakes.drop_last()),
            wakes.last().0,
            wakes.last().1,
        )
    }
}

/// The time of the last change of the document among `wakes`.
pub open spec fn last_doc_change(wakes: Seq<(Option<WatchMessage>, u64)>) -> Option<u64>
    decreases wakes.len(),
{
    if wakes.len() == 0 {
        None
    } else if wakes.last().0 == Some(WatchMessage::Document) {
        Some(wakes.last().1)
    } else {
        last_doc_change(wakes.drop_last())
    }
}

/// A burst of changes to the document: it starts with one, and every later
/// wake-up comes within the debounce window of the last change before it.
pub open spec fn doc_burst(wakes: Seq<(Option<WatchMessage>, u64)>) -> bool {
    &&& wakes.len() > 0
    &&& wakes[0].0 == Some(WatchMessage::Document)
    &&& forall|i: int|
        1 <= i < wakes.len() ==> #[trigger] wakes[i].1 < last_doc_change(wakes.take(i))->0
            + DEBOUNCE_NS
}

/// During a burst of changes the document is not rendered, and its slot
/// holds the time of the last change.
proof fn lemma_burst_quiet(d: Debounce, wakes: Seq<(Option<WatchMessage>, u64)>)
    requires
        doc_burst(wakes),
    ensures
        last_doc_change(wakes) is Some,
        run_after(d, wakes).pending_doc == last_doc_change(wakes),
        !run_out(d, wakes).contains(WatchMessage::Document),
    decreases wakes.len(),
{
    let n = wakes.len();
    let init = wakes.drop_last();
    let w = wakes.last();
    if n > 1 {
        assert forall|i: int| 1 <= i < init.len() implies #[trigger] init[i].1 < last_doc_change(
            init.take(i),
        )->0 + DEBOUNCE_NS by {
            assert(init.take(i) == wakes.take(i));
            assert(wakes[i].1 < last_doc_change(wakes.take(i))->0 + DEBOUNCE_NS);
        }
        lemma_burst_quiet(d, init);
        assert(wakes.take(n - 1) == init);
        assert(wakes[n - 1].1 < last_doc_change(wakes.take(n - 1))->0 + DEBOUNCE_NS);
    } else {
        assert(init.len() == 0);
        assert(w == wakes[0]);
    }
    let before = run_after(d, init);
    let c = changed(before, w.0, w.1);
    assert(c.pending_doc == last_doc_change(wakes));
    assert(!due(c.pending_doc, w.1));
    let o = wake_out(before, w.0, w.1);
    assert forall|i: int| 0 <= i < o.len() implies o[i] != WatchMessage::Document by {}
    let all = run_out(d, wakes);
    assert(all == run_out(d, init) + o);
    assert forall|i: int| 0 <= i < all.len() implies all[i] != WatchMessage::Document by {
        if i < run_out(d, init).len() {
            if n > 1 {
                assert(all[i] == run_out(d, init)[i]);
                assert(!run_out(d, init).contains(WatchMessage::Document));
            }
        } else {
            assert(all[i] == o[i - run_out(d, init).len()]);
        }
    }
}

/// A burst of changes to the document renders it once: no wake-up during
/// the burst renders it, and the first wake-up a debounce window after the
/// last change renders it, once, before anything else.
pub proof fn lemma_burst_renders_once(
    d: Debounce,
    wakes: Seq<(Option<WatchMessage>, u64)>,
    target: Option<WatchMessage>,
    at: u64,
)
    requires
        doc_burst(wakes),
        target != Some(WatchMessage::Document),
        at >= last_doc_change(wakes)->0 + DEBOUNCE_NS,
    ensures
        !run_out(d, wakes).contains(WatchMessage::Document),
        wake_out(run_after(d, wakes), target, at)[0] == WatchMessage::Document,
        !wake_out(run_after(d, wakes), target, at).drop_first().contains(WatchMessage::Document),
{
    lemma_burst_quiet(d, wakes);
    let c = changed(run_after(d, wakes), target, at);
    assert(c.pending_doc == last_doc_change(wakes));
    assert(due(c.pending_doc, at));
    let o = wake_out(run_after(d, wakes), target, at);
    let rest = o.drop_first();
    assert forall|i: int| 0 <= i < rest.len() implies rest[i] != WatchMessage::Document by {
        assert(rest[i] == o[i + 1]);
    }
}

/// The slot of `target`.
pub open spec fn slot(d: Debounce, target: WatchMessage) -> Option<u64> {
    match target {
        WatchMessage::Document => d.pending_doc,
        WatchMessage::Style => d.pending_style,
    }
}

/// The time of the last change of `target` among `wakes`; without one, what
/// was pending for it before them.
pub open spec fn last_change(
    d: Debounce,
    wakes: Seq<(Option<WatchMessage>, u64)>,
    target: WatchMessage,
) -> Option<u64>
    decreases wakes.len(),
{
    if wakes.len() == 0 {
        slot(d, target)
    } else if wakes.last().0 == Some(target) {
        Some(wakes.last().1)
    } else {
        last_change(d, wakes.drop_last(), target)
    }
}

/// What is pending for `target` after `wakes` is nothing, or its last change.
proof fn lemma_slot_is_last_change(
    d: Debounce,
    wakes: Seq<(Option<WatchMessage>, u64)>,
    target: WatchMessage,
)
    ensures
        slot(run_after(d, wakes), target) is None || slot(run_after(d, wakes), target) == last_change(
            d,
            wakes,
            target,
        ),
    decreases wakes.len(),
{
    if wakes.len() > 0 {
        lemma_slot_is_last_change(d, wakes.drop_last(), target);
    }
}

/// The wake-up at position `i` of `wakes`, after those before it.
pub open spec fn wake_out_at(
    d: Debounce,
    wakes: Seq<(Option<WatchMessage>, u64)>,
    i: int,
) -> Seq<WatchMessage> {
    wake_out(run_after(d, wakes.take(i)), wakes[i].0, wakes[i].1)
}

/// A render of `target` comes a debounce window or more after the last
/// change of `target` up to it (or after what was pending at the start), and
/// there is none without such a change.
pub proof fn lemma_renders_come_late(
    d: Debounce,
    wakes: Seq<(Option<WatchMessage>, u64)>,
    target: WatchMessage,
)
    ensures
        forall|i: int|
            0 <= i < wakes.len() && (#[trigger] wake_out_at(d, wakes, i)).contains(target) ==> (
            last_change(d, wakes.take(i + 1), target) matches Some(t) && wakes[i].1 >= t
                + DEBOUNCE_NS),
{
    assert forall|i: int|
        0 <= i < wakes.len() && (#[trigger] wake_out_at(d, wakes, i)).contains(target) implies (
        last_change(d, wakes.take(i + 1), target) matches Some(t) && wakes[i].1 >= t
            + DEBOUNCE_NS) by {
        let p = wakes.take(i);
        let w = wakes[i];
        lemma_slot_is_last_change(d, p, target);
        assert(wakes.take(i + 1).drop_last() == p);
        assert(wakes.take(i + 1).last() == w);
        let c = changed(run_after(d, p), w.0, w.1);
        assert(slot(c, target) is None || slot(c, target) == last_change(d, wakes.take(i + 1), target));
        let o = flush_out(c, w.1);
        assert(due(slot(c, target), w.1)) by {
            let k = choose|k: int| 0 <= k < o.len() && o[k] == target;
            if target == WatchMessage::Document {
                if !due(c.pending_doc, w.1) {
                    assert(o[k] == WatchMessage::Style);
                }
            } else {
                if !due(c.pending_style, w.1) {
                    assert(o[k] == WatchMessage::Document);
                }
            }
        }
    }
}

/// `wakes` as `target` sees them: the events of the other target count as
/// no event.
pub open spec fn only_target(
    wakes: Seq<(Option<WatchMessage>, u64)>,
    target: WatchMessage,
) -> Seq<(Option<WatchMessage>, u64)> {
    wakes.map_values(
        |w: (Option<WatchMessage>, u64)|
            (if w.0 == Some(target) {
                w.0
            } else {
                None
            }, w.1),
    )
}

/// The slot of `target` after `wakes` does not depend on the other target's
/// events nor on its slot.
proof fn lemma_slot_independent(
    d: Debounce,
    e: Debounce,
    wakes: Seq<(Option<WatchMessage>, u64)>,
    target: WatchMessage,
)
    requires
        slot(d, target) == slot(e, target),
    ensures
        slot(run_after(d, wakes), target) == slot(run_after(e, only_target(wakes, target)), target),
    decreases wakes.len(),
{
    if wakes.len() > 0 {
        lemma_slot_independent(d, e, wakes.drop_last(), target);
        assert(only_target(wakes, target).drop_last() =~= only_target(wakes.drop_last(), target));
    }
}

/// The renders of `target` do not depend on the other target: with the
/// same slot for `target` at the start, each wake-up renders `target` just
/// when it would with the other target's events left out.
pub proof fn lemma_targets_independent(
    d: Debounce,
    e: Debounce,
    wakes: Seq<(Option<WatchMessage>, u64)>,
    target: WatchMessage,
)
    requires
        slot(d, target) == slot(e, target),
    ensures
        forall|i: int|
            0 <= i < wakes.len() ==> ((#[trigger] wake_out_at(d, wakes, i)).contains(target)
                <==> wake_out_at(e, only_target(wakes, target), i).contains(target)),
{
    assert forall|i: int| 0 <= i < wakes.len() implies ((#[trigger] wake_out_at(d, wakes, i)).contains(
        target,
    ) <==> wake_out_at(e, only_target(wakes, target), i).contains(target)) by {
        let ow = only_target(wakes, target);
        assert(ow.take(i) =~= only_target(wakes.take(i), target));
        lemma_slot_independent(d, e, wakes.take(i), target);
        let w = wakes[i];
        let c1 = changed(run_after(d, wakes.take(i)), w.0, w.1);
        let c2 = changed(run_after(e, ow.take(i)), ow[i].0, ow[i].1);
        assert(slot(c1, target) == slot(c2, target));
        let o1 = flush_out(c1, w.1);
        let o2 = flush_out(c2, w.1);
        assert(o1.contains(target) <==> due(slot(c1, target), w.1)) by {
            if o1.contains(target) {
                let k = choose|k: int| 0 <= k < o1.len() && o1[k] == target;
                if target == WatchMessage::Document && !due(c1.pending_doc, w.1) {
                    assert(o1[k] == WatchMessage::Style);
                }
                if target == WatchMessage::Style && !due(c1.pending_style, w.1) {
                    assert(o1[k] == WatchMessage::Document);
                }
            }
            if due(slot(c1, target), w.1) {
                if target == WatchMessage::Document {
                    assert(o1[0] == target);
                } else if due(c1.pending_doc, w.1) {
                    assert(o1[1] == target);
                } else {
                    assert(o1[0] == target);
                }
            }
        }
        assert(o2.contains(target) <==> due(slot(c2, target), w.1)) by {
            if o2.contains(target) {
                let k = choose|k: int| 0 <= k < o2.len() && o2[k] == target;
                if target == WatchMessage::Document && !due(c2.pending_doc, w.1) {
                    assert(o2[k] == WatchMessage::Style);
                }
                if target == WatchMessage::Style && !due(c2.pending_style, w.1) {
                    assert(o2[k] == WatchMessage::Document);
                }
            }
            if due(slot(c2, target), w.1) {
                if target == WatchMessage::Document {
                    assert(o2[0] == target);
                } else if due(c2.pending_doc, w.1) {
                    assert(o2[1] == target);
                } else {
                    assert(o2[0] == target);
                }
            }
        }
    }
}

/// A render does not cascade: a target that a flush emitted is not emitted
/// again by a later flush unless a new change event comes for it.
pub proof fn lemma_no_cascade(d: Debounce, now: u64, later: u64, target: WatchMessage)
    requires
        flush_out(d, now).contains(target),
    ensures
        !flush_out(after_flush(d, now), later).contains(target),
{
    let d1 = after_flush(d, now);
    assert(slot(d1, target) is None) by {
        if target == WatchMessage::Document {
            if !due(d.pending_doc, now) {
                assert(!flush_out(d, now).contains(WatchMessage::Document)) by {
                    let o = flush_out(d, now);
                    assert(forall|i: int| 0 <= i < o.len() ==> o[i] == WatchMessage::Style);
                }
            }
        } else {
            if !due(d.pending_style, now) {
                assert(!flush_out(d, now).contains(WatchMessage::Style)) by {
                    let o = flush_out(d, now);
                    assert(forall|i: int| 0 <= i < o.len() ==> o[i] == WatchMessage::Document);
                }
            }
        }
    }
    let o = flush_out(d1, later);
    assert forall|i: int| 0 <= i < o.len() implies o[i] != target by {}
}

/// The debounce window: after a change event for `target` at `now`, a flush
/// emits `target` at no time before `now + DEBOUNCE_NS` and at every time
/// from then on; the other target's slot is untouched.
pub proof fn lemma_debounce_window(d: Debounce, target: WatchMessage, now: u64, at: u64)
    requires
        now <= at,
    ensures
        flush_out(after_change(d, target, now), at).contains(target) <==> at - now >= DEBOUNCE_NS,
        slot(after_change(d, target, now), other(target)) == slot(d, other(target)),
{
    let d1 = after_change(d, target, now);
    let o = flush_out(d1, at);
    if at - now >= DEBOUNCE_NS {
        if target == WatchMessage::Document {
            assert(o[0] == WatchMessage::Document);
        } else {
            if due(d1.pending_doc, at) {
                assert(o[1] == WatchMessage::Style);
            } else {
                assert(o[0] == WatchMessage::Style);
            }
        }
    } else {
        assert forall|i: int| 0 <= i < o.len() implies o[i] != target by {}
    }
}

/// The target that is not `target`.
pub open spec fn other(target: WatchMessage) -> WatchMessage {
    match target {
        WatchMessage::Document => WatchMessage::Style,
        WatchMessage::Style => WatchMessage::Document,
    }
}

/// The loop never sleeps past a due render: when something is pending and
/// the clock has not run backwards, a flush after waiting what `wait` says
/// emits at least one render.
pub proof fn lemma_wait_reaches_a_render(d: Debounce, now: u64)
    requires
        d.pending_doc is Some || d.pending_style is Some,
        d.pending_doc is Some ==> d.pending_doc->0 <= now,
        d.pending_style is Some ==> d.pending_style->0 <= now,
        now + wait_of(d, now) <= u64::MAX,
    ensures
        flush_out(d, (now + wait_of(d, now)) as u64).len() > 0,
{
}

/// Reading or otherwise accessing a file never warrants a rerender, nor
/// does a change of its metadata, whatever paths the event names.
pub proof fn lemma_reads_never_rerender(
    a: AccessKind,
    m: MetadataKind,
    paths: Seq<Seq<char>>,
    watched: Seq<char>,
)
    ensures
        !rerenders(EventKind::Access(a), paths, watched),
        !rerenders(EventKind::Modify(ModifyKind::Metadata(m)), paths, watched),
{
}

} // verus!
