//! The command bar's history: most recent last, without repeats of a pushed
//! command, bounded in size.
use vstd::prelude::*;

use crate::text::{
    chars_of, is_ws, join, lemma_split_on_join, lemma_trim_end_last, join_chars, path_join, path_join_chars, push_all, slice_chars, split_chars,
    split_on, starts_with, starts_with_chars, string_of, strings_view, trim, trim_chars, views,
};

verus! {

/// `s` without its oldest entries beyond the newest `max`.
pub open spec fn keep_last(s: Seq<Seq<char>>, max: nat) -> Seq<Seq<char>> {
    if s.len() > max {
        s.subrange(s.len() - max, s.len() as int)
    } else {
        s
    }
}

/// The entries after pushing `cmd`: nothing changes for a command that is
/// blank; else the trimmed command is moved (or added) to the end, and the
/// oldest entries beyond `max` are dropped.
pub open spec fn pushed(entries: Seq<Seq<char>>, max: nat, cmd: Seq<char>) -> Seq<Seq<char>> {
    let t = trim(cmd);
    if t.len() == 0 {
        entries
    } else {
        keep_last(entries.filter(|e: Seq<char>| e != t).push(t), max)
    }
}

/// A line without its final carriage return.
pub open spec fn strip_cr(line: Seq<char>) -> Seq<char> {
    if line.len() > 0 && line.last() == '\r' {
        line.drop_last()
    } else {
        line
    }
}

/// `str::lines`: the pieces between newlines, each that a newline ends
/// without a final carriage return, and no empty last piece.
pub open spec fn lines_of(s: Seq<char>) -> Seq<Seq<char>> {
    let p = split_on(s, '\n');
    let init = p.drop_last().map_values(|l: Seq<char>| strip_cr(l));
    if p.last().len() == 0 {
        init
    } else {
        init.push(p.last())
    }
}

/// The entries that a history file holds: its non-empty lines, the newest
/// `max` of them.
pub open spec fn entries_of_content(content: Seq<char>, max: nat) -> Seq<Seq<char>> {
    keep_last(lines_of(content).filter(|l: Seq<char>| l.len() > 0), max)
}

/// The entries that start with `prefix`, oldest first.
pub open spec fn matching(entries: Seq<Seq<char>>, prefix: Seq<char>) -> Seq<Seq<char>> {
    entries.filter(|e: Seq<char>| starts_with(e, prefix))
}

/// The character sequences of a sequence of string slices.
pub open spec fn strs_view(v: Seq<&str>) -> Seq<Seq<char>> {
    v.map_values(|s: &str| s@)
}

/// A command history.
pub struct CommandHistory {
    entries: Vec<String>,
    max_size: usize,
}

impl CommandHistory {
    /// The history keeps within its bound, and none of its entries is empty.
    #[verifier::type_invariant]
    pub closed spec fn well_formed(self) -> bool {
        &&& self.entries@.len() <= self.max_size
        &&& forall|i: int| 0 <= i < self.entries@.len() ==> (#[trigger] self.entries@[i])@.len() > 0
    }

    /// The entries, oldest first.
    pub closed spec fn entries(&self) -> Seq<Seq<char>> {
        strings_view(self.entries@)
    }

    /// The most entries that the history keeps.
    pub closed spec fn max_size(&self) -> nat {
        self.max_size as nat
    }

    /// An empty history that keeps at most `max_size` entries.
    pub fn new(max_size: usize) -> (r: Self)
        ensures
            r.entries() == Seq::<Seq<char>>::empty(),
            r.max_size() == max_size,
    {
        let r = Self { entries: Vec::new(), max_size };
        assert(r.entries() =~= Seq::<Seq<char>>::empty());
        r
    }

    /// The history that a history file gives, from its content (`None` when
    /// the file is missing or unreadable): its non-empty lines, trimmed to
    /// the newest `max_size`; empty without a file.
    pub fn load(content: Option<&str>, max_size: usize) -> (r: Self)
        ensures
            r.entries() == match content {
                Some(c) => entries_of_content(c@, max_size as nat),
                None => Seq::<Seq<char>>::empty(),
            },
            r.max_size() == max_size,
            r.entries().len() <= max_size,
    {
        match content {
            Some(c) => Self::from_content(c, max_size),
            None => Self::new(max_size),
        }
    }

    fn from_content(content: &str, max_size: usize) -> (r: Self)
        ensures
            r.entries() == entries_of_content(content@, max_size as nat),
            r.max_size() == max_size,
    {
        let c = chars_of(content);
        let pieces = split_chars(c.as_slice(), '\n');
        proof {
            crate::text::lemma_split_on_len(content@, '\n');
        }
        let ghost lines = lines_of(content@);
        let ghost p = split_on(content@, '\n');
        let ghost pred = |l: Seq<char>| l.len() > 0;
        let n = pieces.len();
        let mut entries: Vec<String> = Vec::new();
        let mut i: usize = 0;
        assert(lines.subrange(0, 0) =~= Seq::<Seq<char>>::empty());
        while i < n
            invariant
                i <= n,
                n == pieces.len(),
                views(pieces@) == p,
                p == split_on(content@, '\n'),
                lines == lines_of(content@),
                pred == (|l: Seq<char>| l.len() > 0),
                n >= 1,
                i < n ==> i <= lines.len(),
                i == n ==> true,
                strings_view(entries@) == (if i < n {
                    lines.subrange(0, i as int)
                } else {
                    lines
                }).filter(pred),
            decreases n - i,
        {
            proof {
                reveal(Seq::filter);
            }
            let piece = &pieces[i];
            if i + 1 < n {
                // A piece that a newline ends: without its carriage return.
                let line = if piece.len() > 0 && piece[piece.len() - 1] == '\r' {
                    slice_chars(piece.as_slice(), 0, piece.len() - 1)
                } else {
                    slice_chars(piece.as_slice(), 0, piece.len())
                };
                assert(line@ == strip_cr(p[i as int])) by {
                    if piece@.len() > 0 && piece@.last() == '\r' {
                        assert(piece@.drop_last() =~= piece@.subrange(0, piece@.len() - 1));
                    } else {
                        assert(piece@ =~= piece@.subrange(0, piece@.len() as int));
                    }
                }
                assert(lines[i as int] == line@);
                assert(lines.subrange(0, i + 1).drop_last() =~= lines.subrange(0, i as int));
                if line.len() > 0 {
                    let ghost ev = strings_view(entries@);
                    entries.push(string_of(line.as_slice()));
                    assert(strings_view(entries@) =~= ev.push(line@));
                }
            } else {
                // The last piece: a line unless it is empty.
                assert(p.last() == piece@);
                if piece.len() > 0 {
                    assert(lines =~= lines.subrange(0, i as int).push(piece@));
                    assert(lines.drop_last() =~= lines.subrange(0, i as int));
                    let ghost ev = strings_view(entries@);
                    entries.push(string_of(piece.as_slice()));
                    assert(strings_view(entries@) =~= ev.push(piece@));
                } else {
                    assert(lines =~= lines.subrange(0, i as int));
                }
            }
            i = i + 1;
        }
        proof {
            broadcast use vstd::seq_lib::group_filter_ensures;
            assert forall|k: int| 0 <= k < entries@.len() implies (#[trigger] entries@[k])@.len() > 0 by {
                assert(strings_view(entries@)[k] == entries@[k]@);
                assert(lines.filter(pred).contains(entries@[k]@));
            }
        }
        let kept = keep_newest(entries, max_size);
        proof {
            lemma_keep_last_nonempty(strings_view(entries@), max_size as nat);
            assert forall|k: int| 0 <= k < kept@.len() implies (#[trigger] kept@[k])@.len() > 0 by {
                assert(strings_view(kept@)[k] == kept@[k]@);
            }
        }
        Self { entries: kept, max_size }
    }

    /// Push a command to history. Deduplicates (removes existing occurrence) and trims to max_size.
    pub fn push(&mut self, cmd: &str)
        ensures
            final(self).entries() == pushed(old(self).entries(), old(self).max_size(), cmd@),
            final(self).max_size() == old(self).max_size(),
    {
        proof {
            use_type_invariant(&*self);
        }
        let c = chars_of(cmd);
        let t = trim_chars(c.as_slice());
        if t.len() == 0 {
            return;
        }
        let ts = string_of(t.as_slice());
        let ghost all = strings_view(self.entries@);
        let ghost pred = |e: Seq<char>| e != trim(cmd@);
        let mut kept: Vec<String> = Vec::new();
        let mut i: usize = 0;
        assert(all.subrange(0, 0) =~= Seq::<Seq<char>>::empty());
        while i < self.entries.len()
            invariant
                i <= self.entries.len(),
                all == strings_view(self.entries@),
                ts@ == t@,
                t@ == trim(cmd@),
                pred == (|e: Seq<char>| e != trim(cmd@)),
                strings_view(kept@) == all.subrange(0, i as int).filter(pred),
            decreases self.entries.len() - i,
        {
            proof {
                reveal(Seq::filter);
            }
            assert(all.subrange(0, i + 1).drop_last() =~= all.subrange(0, i as int));
            assert(all[i as int] == self.entries@[i as int]@);
            if self.entries[i] != ts {
                let ghost kv = strings_view(kept@);
                let s = string_of(chars_of(self.entries[i].as_str()).as_slice());
                kept.push(s);
                assert(strings_view(kept@) =~= kv.push(all[i as int]));
            }
            i = i + 1;
        }
        assert(all.subrange(0, i as int) =~= all);
        let ghost kv = strings_view(kept@);
        kept.push(ts);
        assert(strings_view(kept@) =~= kv.push(t@));
        assert(pushed(all, self.max_size as nat, cmd@) == keep_last(kv.push(t@), self.max_size as nat));
        let ghost mx = self.max_size as nat;
        let newest = keep_newest(kept, self.max_size);
        proof {
            broadcast use vstd::seq_lib::group_filter_ensures;
            assert forall|k: int| 0 <= k < kv.push(t@).len() implies (#[trigger] kv.push(t@)[k]).len() > 0 by {
                if k < kv.len() {
                    assert(kv == all.filter(pred));
                    assert(kv.push(t@)[k] == kv[k]);
                    assert(all.filter(pred).contains(kv[k]));
                    all.lemma_filter_contains_rev(pred, kv[k]);
                    let j = choose|j: int| 0 <= j < all.len() && all[j] == kv[k];
                    assert(all[j] == self.entries@[j]@);
                }
            }
            lemma_keep_last_nonempty(kv.push(t@), mx);
            assert forall|k: int| 0 <= k < newest@.len() implies (#[trigger] newest@[k])@.len() > 0 by {
                assert(strings_view(newest@)[k] == newest@[k]@);
            }
        }
        self.entries = newest;
    }

    /// Return entries matching prefix, most recent last.
    pub fn filter(&self, prefix: &str) -> (r: Vec<&str>)
        ensures
            strs_view(r@) == matching(self.entries(), prefix@),
    {
        let p = chars_of(prefix);
        let ghost all = self.entries();
        let ghost pred = |e: Seq<char>| starts_with(e, prefix@);
        let mut r: Vec<&str> = Vec::new();
        let mut i: usize = 0;
        assert(all.subrange(0, 0) =~= Seq::<Seq<char>>::empty());
        while i < self.entries.len()
            invariant
                i <= self.entries.len(),
                all == strings_view(self.entries@),
                p@ == prefix@,
                pred == (|e: Seq<char>| starts_with(e, prefix@)),
                strs_view(r@) == all.subrange(0, i as int).filter(pred),
            decreases self.entries.len() - i,
        {
            proof {
                reveal(Seq::filter);
            }
            assert(all.subrange(0, i + 1).drop_last() =~= all.subrange(0, i as int));
            assert(all[i as int] == self.entries@[i as int]@);
            let e = self.entries[i].as_str();
            if starts_with_chars(chars_of(e).as_slice(), p.as_slice()) {
                let ghost rv = strs_view(r@);
                r.push(e);
                assert(strs_view(r@) =~= rv.push(e@));
            }
            i = i + 1;
        }
        assert(all.subrange(0, i as int) =~= all);
        r
    }

    /// The content of the history file: the entries, oldest first, one per
    /// line, without a final newline.
    pub fn to_content(&self) -> (r: String)
        ensures
            r@ == join(self.entries(), seq!['\n']),
    {
        let mut parts: Vec<Vec<char>> = Vec::new();
        let mut i: usize = 0;
        let ghost all = self.entries();
        while i < self.entries.len()
            invariant
                i <= self.entries.len(),
                all == strings_view(self.entries@),
                views(parts@) =~= all.subrange(0, i as int),
            decreases self.entries.len() - i,
        {
            let ghost pv = views(parts@);
            parts.push(chars_of(self.entries[i].as_str()));
            assert(views(parts@) =~= pv.push(all[i as int]));
            i = i + 1;
        }
        assert(all.subrange(0, i as int) =~= all);
        let mut nl: Vec<char> = Vec::new();
        nl.push('\n');
        assert(nl@ =~= seq!['\n']);
        string_of(join_chars(&parts, nl.as_slice()).as_slice())
    }
}

/// The newest `max` of `entries`.
fn keep_newest(entries: Vec<String>, max: usize) -> (r: Vec<String>)
    ensures
        strings_view(r@) == keep_last(strings_view(entries@), max as nat),
{
    if entries.len() > max {
        let excess = entries.len() - max;
        let mut kept: Vec<String> = Vec::new();
        let mut i = excess;
        let ghost all = strings_view(entries@);
        while i < entries.len()
            invariant
                excess <= i <= entries.len(),
                excess == entries.len() - max,
                all == strings_view(entries@),
                strings_view(kept@) =~= all.subrange(excess as int, i as int),
            decreases entries.len() - i,
        {
            let ghost kv = strings_view(kept@);
            let s = string_of(chars_of(entries[i].as_str()).as_slice());
            kept.push(s);
            assert(strings_view(kept@) =~= kv.push(all[i as int]));
            assert(all.subrange(excess as int, i + 1) =~= all.subrange(excess as int, i as int).push(all[i as int]));
            i = i + 1;
        }
        kept
    } else {
        entries
    }
}

/// The newest entries of a sequence without empty entries have none, and
/// there are at most `max` of them.
proof fn lemma_keep_last_nonempty(s: Seq<Seq<char>>, max: nat)
    requires
        forall|i: int| 0 <= i < s.len() ==> (#[trigger] s[i]).len() > 0,
    ensures
        keep_last(s, max).len() <= max,
        forall|i: int| 0 <= i < keep_last(s, max).len() ==> (#[trigger] keep_last(s, max)[i]).len() > 0,
{
    if s.len() > max {
        assert forall|i: int| 0 <= i < keep_last(s, max).len() implies (#[trigger] keep_last(s, max)[i]).len() > 0 by {
            assert(keep_last(s, max)[i] == s[i + s.len() - max]);
        }
    }
}

/// Keeping the elements of `s` that all satisfy `pred` keeps `s`.
proof fn lemma_filter_all<A>(s: Seq<A>, pred: spec_fn(A) -> bool)
    requires
        forall|i: int| 0 <= i < s.len() ==> pred(#[trigger] s[i]),
    ensures
        s.filter(pred) == s,
    decreases s.len(),
{
    reveal(Seq::filter);
    if s.len() > 0 {
        let init = s.drop_last();
        assert forall|i: int| 0 <= i < init.len() implies pred(#[trigger] init[i]) by {
            assert(init[i] == s[i]);
        }
        lemma_filter_all(init, pred);
        assert(pred(s[s.len() - 1]));
        assert(init.push(s.last()) =~= s);
    }
}

/// An entry that a history file can hold on a line of its own and give back
/// as it was: not empty, without a line break, not ending in a carriage
/// return.
pub open spec fn storable(e: Seq<char>) -> bool {
    &&& e.len() > 0
    &&& !e.contains('\n')
    &&& e.last() != '\r'
}

/// Writing the entries of a history one per line and reading the content
/// back gives the same entries, when each entry is storable and the history
/// is within its bound.
pub proof fn lemma_content_round_trip(entries: Seq<Seq<char>>, max: nat)
    requires
        entries.len() <= max,
        forall|i: int| 0 <= i < entries.len() ==> storable(#[trigger] entries[i]),
    ensures
        entries_of_content(join(entries, seq!['\n']), max) == entries,
{
    let content = join(entries, seq!['\n']);
    let pred = |l: Seq<char>| l.len() > 0;
    if entries.len() == 0 {
        assert(split_on(content, '\n') =~= seq![Seq::<char>::empty()]);
        assert(lines_of(content) =~= Seq::<Seq<char>>::empty());
        reveal(Seq::filter);
        assert(entries_of_content(content, max) =~= entries);
    } else {
        lemma_split_on_join(entries, '\n');
        let p = split_on(content, '\n');
        assert(p == entries);
        let init = entries.drop_last();
        assert(init.map_values(|l: Seq<char>| strip_cr(l)) =~= init) by {
            assert forall|i: int| 0 <= i < init.len() implies strip_cr(#[trigger] init[i]) == init[i] by {
                assert(storable(entries[i]));
            }
        }
        assert(storable(entries[entries.len() - 1]));
        assert(init.push(entries.last()) =~= entries);
        assert(lines_of(content) == entries);
        lemma_filter_all(entries, pred);
    }
}

/// Pushing a command that is not blank makes its trimmed text the newest
/// entry, held once; the other entries are the newest of those before, in
/// their order, that differ from it; and the history stays within `max`.
pub proof fn lemma_push_moves_to_end(entries: Seq<Seq<char>>, max: nat, cmd: Seq<char>)
    requires
        max > 0,
        trim(cmd).len() > 0,
    ensures
        ({
            let r = pushed(entries, max, cmd);
            &&& r.len() > 0
            &&& r.len() <= max
            &&& r.last() == trim(cmd)
            &&& r.drop_last() == keep_last(
                entries.filter(|e: Seq<char>| e != trim(cmd)),
                (max - 1) as nat,
            )
            &&& forall|i: int| 0 <= i < r.len() - 1 ==> r[i] != trim(cmd)
        }),
{
    let t = trim(cmd);
    let pred = |e: Seq<char>| e != t;
    let f = entries.filter(pred);
    broadcast use vstd::seq_lib::group_filter_ensures;
    let r = pushed(entries, max, cmd);
    let fp = f.push(t);
    if fp.len() > max {
        assert(r == fp.subrange(fp.len() - max, fp.len() as int));
        assert(r.drop_last() =~= f.subrange(f.len() - (max - 1), f.len() as int));
        assert forall|i: int| 0 <= i < r.len() - 1 implies r[i] != t by {
            assert(r[i] == f[i + f.len() - (max - 1)]);
            assert(pred(f[i + f.len() - (max - 1)]));
        }
    } else {
        assert(r == fp);
        assert(r.drop_last() =~= f);
        assert forall|i: int| 0 <= i < r.len() - 1 implies r[i] != t by {
            assert(r[i] == f[i]);
            assert(pred(f[i]));
        }
    }
}

/// Pushing keeps every entry storable when the pushed command holds no
/// line break.
pub proof fn lemma_push_keeps_storable(entries: Seq<Seq<char>>, max: nat, cmd: Seq<char>)
    requires
        forall|i: int| 0 <= i < entries.len() ==> storable(#[trigger] entries[i]),
        !cmd.contains('\n'),
    ensures
        forall|i: int|
            0 <= i < pushed(entries, max, cmd).len() ==> storable(
                #[trigger] pushed(entries, max, cmd)[i],
            ),
{
    let t = trim(cmd);
    if t.len() > 0 {
        let pred = |e: Seq<char>| e != t;
        let f = entries.filter(pred);
        broadcast use vstd::seq_lib::group_filter_ensures;
        crate::text::lemma_trim_is_subrange(cmd);
        lemma_trim_end_last(crate::text::trim_start(cmd));
        assert(is_ws('\r'));
        let fp = f.push(t);
        assert forall|i: int| 0 <= i < fp.len() implies storable(#[trigger] fp[i]) by {
            if i < f.len() {
                assert(f.contains(f[i]));
                entries.lemma_filter_contains_rev(pred, f[i]);
                let k = choose|k: int| 0 <= k < entries.len() && entries[k] == f[i];
                assert(storable(entries[k]));
            } else {
                assert(fp[i] == t);
            }
        }
        let r = pushed(entries, max, cmd);
        if fp.len() > max {
            assert forall|i: int| 0 <= i < r.len() implies storable(#[trigger] r[i]) by {
                assert(r[i] == fp[i + fp.len() - max]);
            }
        }
    }
}

/// Each entry is not empty and trimmed, no entry comes twice, and there are
/// at most `max`.
pub open spec fn tidy(entries: Seq<Seq<char>>, max: nat) -> bool {
    &&& entries.len() <= max
    &&& forall|i: int| 0 <= i < entries.len() ==> (#[trigger] entries[i]).len() > 0 && trim(entries[i]) == entries[i]
    &&& entries.no_duplicates()
}

/// Keeping some elements of a sequence in which nothing comes twice keeps
/// nothing twice.
proof fn lemma_filter_no_duplicates(s: Seq<Seq<char>>, pred: spec_fn(Seq<char>) -> bool)
    requires
        s.no_duplicates(),
    ensures
        s.filter(pred).no_duplicates(),
    decreases s.len(),
{
    reveal(Seq::filter);
    if s.len() > 0 {
        let d = s.drop_last();
        assert(d.no_duplicates()) by {
            assert forall|i: int, j: int| 0 <= i < d.len() && 0 <= j < d.len() && i != j implies d[i] != d[j] by {
                assert(d[i] == s[i] && d[j] == s[j]);
            }
        }
        lemma_filter_no_duplicates(d, pred);
        let fd = d.filter(pred);
        if pred(s.last()) {
            assert(s.filter(pred) == fd.push(s.last()));
            assert forall|k: int| 0 <= k < fd.len() implies fd[k] != s.last() by {
                assert(fd.contains(fd[k]));
                d.lemma_filter_contains_rev(pred, fd[k]);
                let j = choose|j: int| 0 <= j < d.len() && d[j] == fd[k];
                assert(s[j] == d[j]);
            }
            let r = fd.push(s.last());
            assert forall|i: int, j: int| 0 <= i < r.len() && 0 <= j < r.len() && i != j implies r[i] != r[j] by {
                if i < fd.len() && j < fd.len() {
                    assert(r[i] == fd[i] && r[j] == fd[j]);
                } else if i < fd.len() {
                    assert(r[i] == fd[i]);
                } else if j < fd.len() {
                    assert(r[j] == fd[j]);
                }
            }
        } else {
            assert(s.filter(pred) == fd);
        }
    }
}

/// Pushing keeps a history tidy: its entries stay distinct, trimmed and not
/// empty, and within the bound.
pub proof fn lemma_push_keeps_tidy(entries: Seq<Seq<char>>, max: nat, cmd: Seq<char>)
    requires
        tidy(entries, max),
    ensures
        tidy(pushed(entries, max, cmd), max),
{
    let t = trim(cmd);
    if t.len() > 0 {
        let pred = |e: Seq<char>| e != t;
        let f = entries.filter(pred);
        broadcast use vstd::seq_lib::group_filter_ensures;
        lemma_filter_no_duplicates(entries, pred);
        crate::text::lemma_trim_idempotent(cmd);
        let fp = f.push(t);
        assert forall|i: int| 0 <= i < fp.len() implies (#[trigger] fp[i]).len() > 0 && trim(fp[i]) == fp[i] by {
            if i < f.len() {
                assert(fp[i] == f[i]);
                assert(f.contains(f[i]));
                entries.lemma_filter_contains_rev(pred, f[i]);
                let k = choose|k: int| 0 <= k < entries.len() && entries[k] == f[i];
                assert(entries[k].len() > 0 && trim(entries[k]) == entries[k]);
            }
        }
        assert(fp.no_duplicates()) by {
            assert forall|i: int| 0 <= i < f.len() implies f[i] != t by {
                assert(pred(f[i]));
            }
            assert forall|i: int, j: int| 0 <= i < fp.len() && 0 <= j < fp.len() && i != j implies fp[i] != fp[j] by {
                if i < f.len() && j < f.len() {
                    assert(fp[i] == f[i] && fp[j] == f[j]);
                } else if i < f.len() {
                    assert(fp[i] == f[i]);
                } else if j < f.len() {
                    assert(fp[j] == f[j]);
                }
            }
        }
        let r = pushed(entries, max, cmd);
        if fp.len() > max {
            let off = fp.len() - max;
            assert(r == fp.subrange(off, fp.len() as int));
            assert forall|i: int| 0 <= i < r.len() implies (#[trigger] r[i]).len() > 0 && trim(r[i]) == r[i] by {
                assert(r[i] == fp[i + off]);
            }
            assert forall|i: int, j: int| 0 <= i < r.len() && 0 <= j < r.len() && i != j implies r[i] != r[j] by {
                assert(r[i] == fp[i + off] && r[j] == fp[j + off]);
            }
        } else {
            assert(r == fp);
        }
    }
}

/// Saving a history and loading its file back gives its entries again, when
/// no entry holds a line break or ends in a carriage return.
pub proof fn lemma_history_round_trip(h: CommandHistory)
    requires
        h.well_formed(),
        forall|i: int|
            0 <= i < h.entries().len() ==> !(#[trigger] h.entries()[i]).contains('\n') && h.entries()[i].last()
                != '\r',
    ensures
        entries_of_content(join(h.entries(), seq!['\n']), h.max_size()) == h.entries(),
{
    assert forall|i: int| 0 <= i < h.entries().len() implies storable(#[trigger] h.entries()[i]) by {
        assert(h.entries()[i] == h.entries@[i]@);
    }
    lemma_content_round_trip(h.entries(), h.max_size());
}

/// Where the history file lives: `$XDG_STATE_HOME/miprs/history`, else
/// `$HOME/.local/state/miprs/history`, else `./.local/state/miprs/history`.
pub open spec fn history_path_of(state_home: Option<Seq<char>>, home: Option<Seq<char>>) -> Seq<
    char,
> {
    let dir = match state_home {
        Some(s) => s,
        None => path_join(
            path_join(
                match home {
                    Some(h) => h,
                    None => "."@,
                },
                ".local"@,
            ),
            "state"@,
        ),
    };
    path_join(path_join(dir, "miprs"@), "history"@)
}

/// Return the XDG-compliant history file path, from the values of
/// `XDG_STATE_HOME` and `HOME` (`None` when unset).
pub fn history_path(state_home: Option<&str>, home: Option<&str>) -> (r: String)
    ensures
        r@ == history_path_of(
            match state_home {
                Some(s) => Some(s@),
                None => None,
            },
            match home {
                Some(h) => Some(h@),
                None => None,
            },
        ),
{
    let dir = match state_home {
        Some(s) => chars_of(s),
        None => {
            let h = match home {
                Some(h) => chars_of(h),
                None => chars_of("."),
            };
            let a = path_join_chars(h.as_slice(), chars_of(".local").as_slice());
            path_join_chars(a.as_slice(), chars_of("state").as_slice())
        },
    };
    let a = path_join_chars(dir.as_slice(), chars_of("miprs").as_slice());
    let b = path_join_chars(a.as_slice(), chars_of("history").as_slice());
    string_of(b.as_slice())
}

} // verus!
