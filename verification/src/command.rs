//! The command language of the command bar: parsing, matching, tilde
//! expansion, the wildmenu and the keybindings.
use vstd::prelude::*;

use crate::text::{
    after_last_slash, chars_eq, chars_of, ends_with, ends_with_chars, first_ws_from, is_ws,
    lemma_first_ws_from, lemma_last_index_of, lowercase, occurs_at_chars, push_all,
    slice_chars, split_on, starts_with, starts_with_chars, string_of, strings_view, to_lowercase,
    trim, trim_chars, char_is_ws, views, dec, dec_chars, join, join_chars, replace_all,
    replace_all_chars, split_chars,
};

verus! {

// ---------------------------------------------------------------- the lists

/// The commands of the command bar, in sorted order.
pub open spec fn commands() -> Seq<Seq<char>> {
    seq![
        "close"@,
        "document_focus"@,
        "o"@,
        "open"@,
        "print"@,
        "q"@,
        "quicktoc"@,
        "set"@,
        "sidetoc_close"@,
        "sidetoc_expand_width"@,
        "sidetoc_focus"@,
        "sidetoc_open"@,
        "sidetoc_shrink_width"@,
        "sidetoc_toggle"@,
        "zoom_in"@,
        "zoom_out"@,
        "zoom_reset"@,
    ]
}

/// The settings that `:set` knows, in sorted order.
pub open spec fn settings() -> Seq<Seq<char>> {
    seq!["frontmatter"@, "paragraph_numbers"@, "paragraph_numbers_start"@, "theme"@]
}

/// The extensions of markdown file names.
pub open spec fn markdown_extensions() -> Seq<Seq<char>> {
    seq![".md"@, ".markdown"@, ".mkd"@, ".qmd"@]
}

/// Each element comes before the next one.
pub open spec fn steps_up(s: Seq<Seq<char>>) -> bool {
    forall|i: int| 0 <= i < s.len() - 1 ==> crate::text::lex_lt(#[trigger] s[i], s[i + 1])
}

proof fn lemma_steps_up_sorted(s: Seq<Seq<char>>)
    requires
        steps_up(s),
    ensures
        crate::text::strictly_sorted(s),
    decreases s.len(),
{
    if s.len() > 1 {
        let init = s.drop_last();
        assert forall|i: int| 0 <= i < init.len() - 1 implies crate::text::lex_lt(
            #[trigger] init[i],
            init[i + 1],
        ) by {
            assert(init[i] == s[i] && init[i + 1] == s[i + 1]);
        }
        lemma_steps_up_sorted(init);
        assert forall|i: int, j: int| 0 <= i < j < s.len() implies crate::text::lex_lt(
            s[i],
            s[j],
        ) by {
            if j < s.len() - 1 {
                assert(init[i] == s[i] && init[j] == s[j]);
            } else if i < j - 1 {
                assert(init[i] == s[i] && init[j - 1] == s[j - 1]);
                assert(crate::text::lex_lt(s[j - 1], s[j]));
                crate::text::lemma_lex_lt_transitive(s[i], s[j - 1], s[j]);
            }
        }
    }
}

/// Keeping some elements of a strictly sorted sequence keeps it strictly
/// sorted.
proof fn lemma_filter_sorted(s: Seq<Seq<char>>, pred: spec_fn(Seq<char>) -> bool)
    requires
        crate::text::strictly_sorted(s),
    ensures
        crate::text::strictly_sorted(s.filter(pred)),
    decreases s.len(),
{
    reveal(Seq::filter);
    if s.len() > 0 {
        let init = s.drop_last();
        assert forall|i: int, j: int| 0 <= i < j < init.len() implies crate::text::lex_lt(
            init[i],
            init[j],
        ) by {
            assert(init[i] == s[i] && init[j] == s[j]);
        }
        lemma_filter_sorted(init, pred);
        let f = init.filter(pred);
        if pred(s.last()) {
            assert forall|i: int, j: int| 0 <= i < j < f.len() + 1 implies crate::text::lex_lt(
                f.push(s.last())[i],
                f.push(s.last())[j],
            ) by {
                if j == f.len() {
                    assert(f.contains(f[i]));
                    init.lemma_filter_contains_rev(pred, f[i]);
                    let k = choose|k: int| 0 <= k < init.len() && init[k] == f[i];
                    assert(s[k] == init[k]);
                    assert(crate::text::lex_lt(s[k], s[s.len() - 1]));
                } else {
                    assert(f.push(s.last())[i] == f[i] && f.push(s.last())[j] == f[j]);
                }
            }
        }
    }
}

/// The command list and the settings list are in strictly increasing
/// order, so the matches of a prefix come sorted and without repeats.
pub proof fn lemma_lists_sorted(prefix: Seq<char>)
    ensures
        crate::text::strictly_sorted(commands()),
        crate::text::strictly_sorted(settings()),
        crate::text::strictly_sorted(prefixed_by(commands(), prefix)),
        crate::text::strictly_sorted(prefixed_by(settings(), prefix)),
{
    reveal_strlit("close");
    reveal_strlit("document_focus");
    reveal_strlit("o");
    reveal_strlit("open");
    reveal_strlit("print");
    reveal_strlit("q");
    reveal_strlit("quicktoc");
    reveal_strlit("set");
    reveal_strlit("sidetoc_close");
    reveal_strlit("sidetoc_expand_width");
    reveal_strlit("sidetoc_focus");
    reveal_strlit("sidetoc_open");
    reveal_strlit("sidetoc_shrink_width");
    reveal_strlit("sidetoc_toggle");
    reveal_strlit("zoom_in");
    reveal_strlit("zoom_out");
    reveal_strlit("zoom_reset");
    reveal_strlit("frontmatter");
    reveal_strlit("paragraph_numbers");
    reveal_strlit("paragraph_numbers_start");
    reveal_strlit("theme");
    reveal_with_fuel(crate::text::lex_lt, 24);
    let c = commands();
    assert(steps_up(c)) by {
        assert forall|i: int| 0 <= i < c.len() - 1 implies crate::text::lex_lt(#[trigger] c[i], c[i + 1]) by {
            if i == 0 { assert(crate::text::lex_lt(c[0], c[1])); }
            else if i == 1 { assert(crate::text::lex_lt(c[1], c[2])); }
            else if i == 2 { assert(crate::text::lex_lt(c[2], c[3])); }
            else if i == 3 { assert(crate::text::lex_lt(c[3], c[4])); }
            else if i == 4 { assert(crate::text::lex_lt(c[4], c[5])); }
            else if i == 5 { assert(crate::text::lex_lt(c[5], c[6])); }
            else if i == 6 { assert(crate::text::lex_lt(c[6], c[7])); }
            else if i == 7 { assert(crate::text::lex_lt(c[7], c[8])); }
            else if i == 8 { assert(crate::text::lex_lt(c[8], c[9])); }
            else if i == 9 { assert(crate::text::lex_lt(c[9], c[10])); }
            else if i == 10 { assert(crate::text::lex_lt(c[10], c[11])); }
            else if i == 11 { assert(crate::text::lex_lt(c[11], c[12])); }
            else if i == 12 { assert(crate::text::lex_lt(c[12], c[13])); }
            else if i == 13 { assert(crate::text::lex_lt(c[13], c[14])); }
            else if i == 14 { assert(crate::text::lex_lt(c[14], c[15])); }
            else { assert(crate::text::lex_lt(c[15], c[16])); }
        }
    }
    let t = settings();
    assert(steps_up(t)) by {
        assert forall|i: int| 0 <= i < t.len() - 1 implies crate::text::lex_lt(#[trigger] t[i], t[i + 1]) by {
            if i == 0 { assert(crate::text::lex_lt(t[0], t[1])); }
            else if i == 1 { assert(crate::text::lex_lt(t[1], t[2])); }
            else { assert(crate::text::lex_lt(t[2], t[3])); }
        }
    }
    lemma_steps_up_sorted(c);
    lemma_steps_up_sorted(t);
    lemma_filter_sorted(c, |s: Seq<char>| starts_with(s, prefix));
    lemma_filter_sorted(t, |s: Seq<char>| starts_with(s, prefix));
}

fn commands_list() -> (v: Vec<Vec<char>>)
    ensures
        views(v@) == commands(),
{
    let mut v: Vec<Vec<char>> = Vec::new();
    v.push(chars_of("close"));
    v.push(chars_of("document_focus"));
    v.push(chars_of("o"));
    v.push(chars_of("open"));
    v.push(chars_of("print"));
    v.push(chars_of("q"));
    v.push(chars_of("quicktoc"));
    v.push(chars_of("set"));
    v.push(chars_of("sidetoc_close"));
    v.push(chars_of("sidetoc_expand_width"));
    v.push(chars_of("sidetoc_focus"));
    v.push(chars_of("sidetoc_open"));
    v.push(chars_of("sidetoc_shrink_width"));
    v.push(chars_of("sidetoc_toggle"));
    v.push(chars_of("zoom_in"));
    v.push(chars_of("zoom_out"));
    v.push(chars_of("zoom_reset"));
    assert(views(v@) =~= commands());
    v
}

fn settings_list() -> (v: Vec<Vec<char>>)
    ensures
        views(v@) == settings(),
{
    let mut v: Vec<Vec<char>> = Vec::new();
    v.push(chars_of("frontmatter"));
    v.push(chars_of("paragraph_numbers"));
    v.push(chars_of("paragraph_numbers_start"));
    v.push(chars_of("theme"));
    assert(views(v@) =~= settings());
    v
}

// ---------------------------------------------------------------- matching

/// The elements of `list` that start with `prefix`, in their order.
pub open spec fn prefixed_by(list: Seq<Seq<char>>, prefix: Seq<char>) -> Seq<Seq<char>> {
    list.filter(|s: Seq<char>| starts_with(s, prefix))
}

fn filter_prefixed(list: &Vec<Vec<char>>, prefix: &[char]) -> (r: Vec<String>)
    ensures
        strings_view(r@) == prefixed_by(views(list@), prefix@),
{
    let ghost all = views(list@);
    let ghost pred = |s: Seq<char>| starts_with(s, prefix@);
    let mut r: Vec<String> = Vec::new();
    let mut i: usize = 0;
    while i < list.len()
        invariant
            i <= list.len(),
            all == views(list@),
            pred == (|s: Seq<char>| starts_with(s, prefix@)),
            strings_view(r@) == all.subrange(0, i as int).filter(pred),
        decreases list.len() - i,
    {
        proof {
            reveal(Seq::filter);
        }
        assert(all.subrange(0, i + 1).drop_last() =~= all.subrange(0, i as int));
        assert(all.subrange(0, i + 1).last() == list@[i as int]@);
        if starts_with_chars(list[i].as_slice(), prefix) {
            let s = string_of(list[i].as_slice());
            r.push(s);
            assert(all.subrange(0, i + 1).filter(pred) == all.subrange(0, i as int).filter(
                pred,
            ).push(s@));
            assert(strings_view(r@) =~= all.subrange(0, i as int).filter(pred).push(s@));
        } else {
            assert(all.subrange(0, i + 1).filter(pred) == all.subrange(0, i as int).filter(pred));
        }
        i = i + 1;
    }
    assert(all.subrange(0, i as int) =~= all);
    r
}

/// Match a prefix against the known settings list. Returns sorted matches.
pub fn match_settings(prefix: &str) -> (r: Vec<String>)
    ensures
        strings_view(r@) == prefixed_by(settings(), prefix@),
{
    let list = settings_list();
    let p = chars_of(prefix);
    filter_prefixed(&list, p.as_slice())
}

/// Match a prefix against the known command list. Returns sorted matches:
/// every command that starts with `prefix`, the command `prefix` itself
/// included when it is one.
pub fn match_commands(prefix: &str) -> (r: Vec<String>)
    ensures
        strings_view(r@) == prefixed_by(commands(), prefix@),
{
    let list = commands_list();
    let p = chars_of(prefix);
    filter_prefixed(&list, p.as_slice())
}

// ---------------------------------------------------------------- parsing

/// The text without one leading `:`.
pub open spec fn strip_colon(t: Seq<char>) -> Seq<char> {
    if t.len() > 0 && t[0] == ':' {
        t.drop_first()
    } else {
        t
    }
}

/// The command and its argument: the text (without a leading `:`) up to its
/// first whitespace, and what follows that whitespace, trimmed.
pub open spec fn command_parts(text: Seq<char>) -> (Seq<char>, Seq<char>) {
    let t = strip_colon(text);
    match first_ws_from(t, 0) {
        Some(i) => (t.subrange(0, i as int), trim(t.subrange((i + 1) as int, t.len() as int))),
        None => (t, seq![]),
    }
}

/// Strip leading `:` and split into (command, argument).
pub fn parse_command(text: &str) -> (r: (String, String))
    ensures
        (r.0@, r.1@) == command_parts(text@),
{
    let v = chars_of(text);
    let t = if v.len() > 0 && v[0] == ':' {
        slice_chars(v.as_slice(), 1, v.len())
    } else {
        v
    };
    assert(t@ == strip_colon(text@)) by {
        if text@.len() > 0 && text@[0] == ':' {
            assert(text@.drop_first() =~= text@.subrange(1, text@.len() as int));
        }
    }
    let mut i: usize = 0;
    while i < t.len() && !char_is_ws(t[i])
        invariant
            i <= t.len(),
            first_ws_from(t@, 0) == first_ws_from(t@, i as nat),
        decreases t.len() - i,
    {
        i = i + 1;
    }
    if i < t.len() {
        let cmd = slice_chars(t.as_slice(), 0, i);
        let rest = slice_chars(t.as_slice(), i + 1, t.len());
        let arg = trim_chars(rest.as_slice());
        (string_of(cmd.as_slice()), string_of(arg.as_slice()))
    } else {
        assert(first_ws_from(t@, i as nat) is None);
        let empty: Vec<char> = Vec::new();
        assert(empty@ =~= Seq::<char>::empty());
        (string_of(t.as_slice()), string_of(empty.as_slice()))
    }
}

/// The non-empty pieces of `parts`, each trimmed.
pub open spec fn nonempty_trimmed(parts: Seq<Seq<char>>) -> Seq<Seq<char>>
    decreases parts.len(),
{
    if parts.len() == 0 {
        seq![]
    } else {
        let r = nonempty_trimmed(parts.drop_last());
        if trim(parts.last()).len() > 0 {
            r.push(trim(parts.last()))
        } else {
            r
        }
    }
}

/// Split a command string on `;` into individual commands.
/// Each part is trimmed. Empty parts are skipped.
pub fn split_commands(text: &str) -> (r: Vec<String>)
    ensures
        strings_view(r@) == nonempty_trimmed(split_on(text@, ';')),
{
    let v = chars_of(text);
    let mut out: Vec<String> = Vec::new();
    let mut cur: Vec<char> = Vec::new();
    let mut i: usize = 0;
    assert(v@.subrange(0, 0) =~= Seq::<char>::empty());
    while i < v.len()
        invariant
            i <= v.len(),
            v@ == text@,
            cur@ == split_on(v@.subrange(0, i as int), ';').last(),
            split_on(v@.subrange(0, i as int), ';').len() >= 1,
            strings_view(out@) == nonempty_trimmed(
                split_on(v@.subrange(0, i as int), ';').drop_last(),
            ),
        decreases v.len() - i,
    {
        let ghost pre = v@.subrange(0, i as int);
        let ghost parts = split_on(pre, ';');
        assert(v@.subrange(0, i + 1).drop_last() =~= pre);
        assert(v@.subrange(0, i + 1).last() == v@[i as int]);
        if v[i] == ';' {
            let t = trim_chars(cur.as_slice());
            assert(parts.push(seq![]).drop_last() =~= parts);
            assert(parts == parts.drop_last().push(parts.last()));
            if t.len() > 0 {
                let s = string_of(t.as_slice());
                out.push(s);
                assert(strings_view(out@) =~= nonempty_trimmed(parts.drop_last()).push(t@));
            }
            cur = Vec::new();
            assert(cur@ =~= Seq::<char>::empty());
        } else {
            let ghost np = parts.update(parts.len() - 1, parts.last().push(v@[i as int]));
            assert(np.drop_last() =~= parts.drop_last());
            cur.push(v[i]);
        }
        i = i + 1;
    }
    assert(v@.subrange(0, i as int) =~= v@);
    let ghost parts = split_on(v@, ';');
    assert(parts == parts.drop_last().push(parts.last()));
    let t = trim_chars(cur.as_slice());
    if t.len() > 0 {
        let s = string_of(t.as_slice());
        out.push(s);
        assert(strings_view(out@) =~= nonempty_trimmed(parts.drop_last()).push(t@));
    }
    out
}

// ---------------------------------------------------------------- paths

/// `path` with a leading `~` replaced by `home`.
pub open spec fn tilde_expanded(path: Seq<char>, home: Seq<char>) -> Seq<char> {
    if path.len() > 0 && path[0] == '~' {
        home + path.drop_first()
    } else {
        path
    }
}

fn owned(s: &str) -> (r: String)
    ensures
        r@ == s@,
{
    string_of(chars_of(s).as_slice())
}

/// Expand a leading `~` to `home` (the value of `HOME`, empty when unset).
pub fn expand_tilde(path: &str, home: &str) -> (r: String)
    ensures
        r@ == tilde_expanded(path@, home@),
{
    let p = chars_of(path);
    if p.len() > 0 && p[0] == '~' {
        let mut out = chars_of(home);
        let rest = slice_chars(p.as_slice(), 1, p.len());
        push_all(&mut out, rest.as_slice());
        assert(path@.drop_first() =~= rest@);
        string_of(out.as_slice())
    } else {
        string_of(p.as_slice())
    }
}

/// `path` with `home` at its start replaced by `~`, when `used_tilde`.
pub open spec fn tilde_unexpanded(path: Seq<char>, used_tilde: bool, home: Seq<char>) -> Seq<
    char,
> {
    if used_tilde && starts_with(path, home) {
        seq!['~'] + path.subrange(home.len() as int, path.len() as int)
    } else {
        path
    }
}

/// Convert a path back to use `~` when the typed path used one; `home` is the
/// value of `HOME` (empty when unset).
pub fn unexpand_tilde(path: &str, typed_with_tilde: bool, home: &str) -> (r: String)
    ensures
        r@ == tilde_unexpanded(path@, typed_with_tilde, home@),
{
    let p = chars_of(path);
    let h = chars_of(home);
    if typed_with_tilde && starts_with_chars(p.as_slice(), h.as_slice()) {
        let mut out: Vec<char> = Vec::new();
        out.push('~');
        let rest = slice_chars(p.as_slice(), h.len(), p.len());
        push_all(&mut out, rest.as_slice());
        assert(out@ =~= seq!['~'] + rest@);
        string_of(out.as_slice())
    } else {
        string_of(p.as_slice())
    }
}

/// The last component of a path, with its trailing `/` for a directory.
pub open spec fn display_name_of(path: Seq<char>) -> Seq<char> {
    if path.len() > 0 && path.last() == '/' {
        path.subrange(after_last_slash(path.drop_last()) as int, path.len() as int)
    } else {
        path.subrange(after_last_slash(path) as int, path.len() as int)
    }
}

/// The position after the last `/` of `s[..end]`, or 0.
fn after_last_slash_exec(s: &[char], end: usize) -> (r: usize)
    requires
        end <= s.len(),
    ensures
        r == after_last_slash(s@.subrange(0, end as int)),
        r <= end,
{
    let mut j = end;
    while j > 0 && s[j - 1] != '/'
        invariant
            j <= end <= s.len(),
            after_last_slash(s@.subrange(0, end as int)) == after_last_slash(
                s@.subrange(0, j as int),
            ),
        decreases j,
    {
        assert(s@.subrange(0, j as int).drop_last() =~= s@.subrange(0, j - 1));
        j = j - 1;
    }
    proof {
        if j > 0 {
            assert(s@.subrange(0, j as int).last() == s@[j - 1]);
        }
    }
    j
}

/// Extract just the filename from a full path for display in the wildmenu.
pub fn display_name(path: &str) -> (r: String)
    ensures
        r@ == display_name_of(path@),
{
    let p = chars_of(path);
    if p.len() > 0 && p[p.len() - 1] == '/' {
        let start = after_last_slash_exec(p.as_slice(), p.len() - 1);
        assert(p@.drop_last() =~= p@.subrange(0, p.len() - 1));
        let r = slice_chars(p.as_slice(), start, p.len());
        string_of(r.as_slice())
    } else {
        let start = after_last_slash_exec(p.as_slice(), p.len());
        assert(p@ =~= p@.subrange(0, p.len() as int));
        let r = slice_chars(p.as_slice(), start, p.len());
        string_of(r.as_slice())
    }
}

/// A lowercase file name with a markdown extension.
pub open spec fn has_markdown_extension(lower: Seq<char>) -> bool {
    exists|k: int| 0 <= k < markdown_extensions().len() && ends_with(lower, markdown_extensions()[k])
}

/// Is `name`, lowercased, a markdown file name?
pub fn is_markdown_file(name: &str) -> (b: bool)
    ensures
        b == has_markdown_extension(lowercase(name@)),
{
    let lower = to_lowercase(name);
    let l = chars_of(lower.as_str());
    let b = ends_with_chars(l.as_slice(), chars_of(".md").as_slice()) || ends_with_chars(
        l.as_slice(),
        chars_of(".markdown").as_slice(),
    ) || ends_with_chars(l.as_slice(), chars_of(".mkd").as_slice()) || ends_with_chars(
        l.as_slice(),
        chars_of(".qmd").as_slice(),
    );
    proof {
        let e = markdown_extensions();
        if b {
            if ends_with(l@, ".md"@) {
                assert(ends_with(l@, e[0]));
            } else if ends_with(l@, ".markdown"@) {
                assert(ends_with(l@, e[1]));
            } else if ends_with(l@, ".mkd"@) {
                assert(ends_with(l@, e[2]));
            } else {
                assert(ends_with(l@, e[3]));
            }
        } else {
            assert forall|k: int| 0 <= k < e.len() implies !ends_with(l@, e[k]) by {
                if k == 0 {
                } else if k == 1 {
                } else if k == 2 {
                } else {
                }
            }
        }
    }
    b
}

// ---------------------------------------------------------------- the wildmenu

/// The window `[start, end)` of the matches that the wildmenu shows: all of
/// them when they fit, else `max` of them around the current one.
pub open spec fn wildmenu_window(total: nat, cur: nat, max: nat) -> (nat, nat) {
    if total <= max {
        (0, total)
    } else {
        let half = max / 2;
        let start: nat = if cur <= half {
            0
        } else if cur + half >= total {
            (total - max) as nat
        } else {
            (cur - half) as nat
        };
        (start, if start + max < total { start + max } else { total })
    }
}

/// Pango markup escaping of `&`, `<` and `>`.
pub open spec fn pango_escaped(s: Seq<char>) -> Seq<char> {
    replace_all(replace_all(replace_all(s, "&"@, "&amp;"@), "<"@, "&lt;"@), ">"@, "&gt;"@)
}

/// One entry of the wildmenu: the escaped display name, bold when selected.
pub open spec fn wildmenu_item(m: Seq<char>, selected: bool) -> Seq<char> {
    let e = pango_escaped(display_name_of(m));
    if selected {
        "<b>"@ + e + "</b>"@
    } else {
        e
    }
}

/// The entries of the window `[start, end)`.
pub open spec fn wildmenu_items(matches: Seq<Seq<char>>, start: nat, end: nat, cur: nat) -> Seq<
    Seq<char>,
> {
    Seq::new((end - start) as nat, |k: int| wildmenu_item(matches[start + k], start + k == cur))
}

/// The markup of the wildmenu.
pub open spec fn wildmenu_text(matches: Seq<Seq<char>>, cur: nat, max: nat) -> Seq<char> {
    if matches.len() == 0 {
        seq![]
    } else {
        let (start, end) = wildmenu_window(matches.len(), cur, max);
        let left: Seq<char> = if start > 0 {
            "(+"@ + dec(start) + ")   "@
        } else {
            seq![]
        };
        let right: Seq<char> = if end < matches.len() {
            "   (+"@ + dec((matches.len() - end) as nat) + " more)"@
        } else {
            seq![]
        };
        left + join(wildmenu_items(matches, start, end, cur), "   "@) + right
    }
}

fn pango_escape(s: &[char]) -> (r: Vec<char>)
    ensures
        r@ == pango_escaped(s@),
{
    let a = replace_all_chars(s, chars_of("&").as_slice(), chars_of("&amp;").as_slice());
    let b = replace_all_chars(a.as_slice(), chars_of("<").as_slice(), chars_of("&lt;").as_slice());
    replace_all_chars(b.as_slice(), chars_of(">").as_slice(), chars_of("&gt;").as_slice())
}

/// Generate Pango markup for the wildmenu, bolding the match at `current_index`.
/// Uses a sliding window of `max_visible` items centered around the current selection.
pub fn wildmenu_markup(matches: &Vec<String>, current_index: usize, max_visible: usize) -> (r:
    String)
    ensures
        r@ == wildmenu_text(strings_view(matches@), current_index as nat, max_visible as nat),
{
    let ghost ms = strings_view(matches@);
    if matches.len() == 0 {
        let e: Vec<char> = Vec::new();
        assert(e@ =~= Seq::<char>::empty());
        return string_of(e.as_slice());
    }
    let total = matches.len();
    let (start, end) = if total <= max_visible {
        (0, total)
    } else {
        let half = max_visible / 2;
        let start = if current_index <= half {
            0
        } else if current_index >= total - half {
            total - max_visible
        } else {
            current_index - half
        };
        (start, start + max_visible)
    };
    assert((start as nat, end as nat) == wildmenu_window(
        total as nat,
        current_index as nat,
        max_visible as nat,
    ));
    let mut parts: Vec<Vec<char>> = Vec::new();
    let mut i = start;
    while i < end
        invariant
            start <= i <= end <= total == matches.len(),
            ms == strings_view(matches@),
            views(parts@) =~= wildmenu_items(ms, start as nat, i as nat, current_index as nat),
        decreases end - i,
    {
        let name = display_name(matches[i].as_str());
        let nc = chars_of(name.as_str());
        let escaped = pango_escape(nc.as_slice());
        assert(ms[i as int] == matches@[i as int]@);
        let item = if i == current_index {
            let mut b = chars_of("<b>");
            push_all(&mut b, escaped.as_slice());
            push_all(&mut b, chars_of("</b>").as_slice());
            assert(b@ =~= "<b>"@ + escaped@ + "</b>"@);
            b
        } else {
            escaped
        };
        assert(item@ == wildmenu_item(ms[i as int], i == current_index));
        let ghost prev = views(parts@);
        parts.push(item);
        assert(views(parts@) =~= prev.push(item@));
        i = i + 1;
        assert(views(parts@) =~= wildmenu_items(ms, start as nat, i as nat, current_index as nat));
    }
    let mut result: Vec<char> = Vec::new();
    if start > 0 {
        push_all(&mut result, chars_of("(+").as_slice());
        push_all(&mut result, dec_chars(start as u128).as_slice());
        push_all(&mut result, chars_of(")   ").as_slice());
    }
    let joined = join_chars(&parts, chars_of("   ").as_slice());
    push_all(&mut result, joined.as_slice());
    if end < total {
        push_all(&mut result, chars_of("   (+").as_slice());
        push_all(&mut result, dec_chars((total - end) as u128).as_slice());
        push_all(&mut result, chars_of(" more)").as_slice());
    }
    proof {
        let left: Seq<char> = if start > 0 {
            "(+"@ + dec(start as nat) + ")   "@
        } else {
            seq![]
        };
        let right: Seq<char> = if end < total {
            "   (+"@ + dec((total - end) as nat) + " more)"@
        } else {
            seq![]
        };
        assert(result@ =~= left + join(
            wildmenu_items(ms, start as nat, end as nat, current_index as nat),
            "   "@,
        ) + right);
    }
    string_of(result.as_slice())
}


// ---------------------------------------------------------------- keys

/// The key names that a key combination may end with.
pub open spec fn known_keys() -> Seq<Seq<char>> {
    seq![
        "a"@,
        "b"@,
        "c"@,
        "d"@,
        "e"@,
        "f"@,
        "g"@,
        "h"@,
        "i"@,
        "j"@,
        "k"@,
        "l"@,
        "m"@,
        "n"@,
        "o"@,
        "p"@,
        "q"@,
        "r"@,
        "s"@,
        "t"@,
        "u"@,
        "v"@,
        "w"@,
        "x"@,
        "y"@,
        "z"@,
        "0"@,
        "1"@,
        "2"@,
        "3"@,
        "4"@,
        "5"@,
        "6"@,
        "7"@,
        "8"@,
        "9"@,
        "tab"@,
        "escape"@,
        "return"@,
        "enter"@,
        "space"@,
        "backspace"@,
        "delete"@,
        "up"@,
        "down"@,
        "left"@,
        "right"@,
        "home"@,
        "end"@,
        "pageup"@,
        "pagedown"@,
        "f1"@,
        "f2"@,
        "f3"@,
        "f4"@,
        "f5"@,
        "f6"@,
        "f7"@,
        "f8"@,
        "f9"@,
        "f10"@,
        "f11"@,
        "f12"@,
        "minus"@,
        "plus"@,
        "equal"@,
        "bracketleft"@,
        "bracketright"@,
        "semicolon"@,
        "apostrophe"@,
        "comma"@,
        "period"@,
        "slash"@,
        "backslash"@,
        "grave"@
    ]
}

fn known_keys_list() -> (v: Vec<Vec<char>>)
    ensures
        views(v@) == known_keys(),
{
    let mut v: Vec<Vec<char>> = Vec::new();
    v.push(chars_of("a"));
    v.push(chars_of("b"));
    v.push(chars_of("c"));
    v.push(chars_of("d"));
    v.push(chars_of("e"));
    v.push(chars_of("f"));
    v.push(chars_of("g"));
    v.push(chars_of("h"));
    v.push(chars_of("i"));
    v.push(chars_of("j"));
    v.push(chars_of("k"));
    v.push(chars_of("l"));
    v.push(chars_of("m"));
    v.push(chars_of("n"));
    v.push(chars_of("o"));
    v.push(chars_of("p"));
    v.push(chars_of("q"));
    v.push(chars_of("r"));
    v.push(chars_of("s"));
    v.push(chars_of("t"));
    v.push(chars_of("u"));
    v.push(chars_of("v"));
    v.push(chars_of("w"));
    v.push(chars_of("x"));
    v.push(chars_of("y"));
    v.push(chars_of("z"));
    v.push(chars_of("0"));
    v.push(chars_of("1"));
    v.push(chars_of("2"));
    v.push(chars_of("3"));
    v.push(chars_of("4"));
    v.push(chars_of("5"));
    v.push(chars_of("6"));
    v.push(chars_of("7"));
    v.push(chars_of("8"));
    v.push(chars_of("9"));
    v.push(chars_of("tab"));
    v.push(chars_of("escape"));
    v.push(chars_of("return"));
    v.push(chars_of("enter"));
    v.push(chars_of("space"));
    v.push(chars_of("backspace"));
    v.push(chars_of("delete"));
    v.push(chars_of("up"));
    v.push(chars_of("down"));
    v.push(chars_of("left"));
    v.push(chars_of("right"));
    v.push(chars_of("home"));
    v.push(chars_of("end"));
    v.push(chars_of("pageup"));
    v.push(chars_of("pagedown"));
    v.push(chars_of("f1"));
    v.push(chars_of("f2"));
    v.push(chars_of("f3"));
    v.push(chars_of("f4"));
    v.push(chars_of("f5"));
    v.push(chars_of("f6"));
    v.push(chars_of("f7"));
    v.push(chars_of("f8"));
    v.push(chars_of("f9"));
    v.push(chars_of("f10"));
    v.push(chars_of("f11"));
    v.push(chars_of("f12"));
    v.push(chars_of("minus"));
    v.push(chars_of("plus"));
    v.push(chars_of("equal"));
    v.push(chars_of("bracketleft"));
    v.push(chars_of("bracketright"));
    v.push(chars_of("semicolon"));
    v.push(chars_of("apostrophe"));
    v.push(chars_of("comma"));
    v.push(chars_of("period"));
    v.push(chars_of("slash"));
    v.push(chars_of("backslash"));
    v.push(chars_of("grave"));
    assert(views(v@) =~= known_keys());
    v
}

/// Is `name` one of the known key names?
pub fn is_known_key(name: &str) -> (b: bool)
    ensures
        b == known_keys().contains(name@),
{
    let n = chars_of(name);
    let list = known_keys_list();
    let mut i: usize = 0;
    while i < list.len()
        invariant
            i <= list.len(),
            views(list@) == known_keys(),
            n@ == name@,
            forall|j: int| 0 <= j < i ==> known_keys()[j] != name@,
        decreases list.len() - i,
    {
        if chars_eq(list[i].as_slice(), n.as_slice()) {
            assert(known_keys()[i as int] == name@);
            return true;
        }
        i = i + 1;
    }
    false
}

/// The key name of a GDK keyval.
pub open spec fn key_name_of(kv: u32) -> Option<Seq<char>> {
    if kv == 0xff09 {
        Some("tab"@)
    } else if kv == 0xfe20 {
        Some("tab"@)
    } else if kv == 0xff1b {
        Some("escape"@)
    } else if kv == 0xff0d {
        Some("return"@)
    } else if kv == 0x20 {
        Some("space"@)
    } else if kv == 0xff08 {
        Some("backspace"@)
    } else if kv == 0xffff {
        Some("delete"@)
    } else if kv == 0xff52 {
        Some("up"@)
    } else if kv == 0xff54 {
        Some("down"@)
    } else if kv == 0xff51 {
        Some("left"@)
    } else if kv == 0xff53 {
        Some("right"@)
    } else if kv == 0xff50 {
        Some("home"@)
    } else if kv == 0xff57 {
        Some("end"@)
    } else if kv == 0xff55 {
        Some("pageup"@)
    } else if kv == 0xff56 {
        Some("pagedown"@)
    } else if 0xffbe <= kv && kv <= 0xffc9 {
        Some(seq!['f'] + dec((kv - 0xffbe + 1) as nat))
    } else if 0x61 <= kv && kv <= 0x7a {
        Some(seq![kv as char])
    } else if 0x41 <= kv && kv <= 0x5a {
        Some(seq![(kv + 32) as char])
    } else if 0x01 <= kv && kv <= 0x1a {
        Some(seq![(kv + 0x60) as char])
    } else if 0x30 <= kv && kv <= 0x39 {
        Some(seq![kv as char])
    } else if kv == 0x2d {
        Some("minus"@)
    } else if kv == 0x2b {
        Some("plus"@)
    } else if kv == 0x3d {
        Some("equal"@)
    } else if kv == 0x5b {
        Some("bracketleft"@)
    } else if kv == 0x5d {
        Some("bracketright"@)
    } else if kv == 0x3b {
        Some("semicolon"@)
    } else if kv == 0x27 {
        Some("apostrophe"@)
    } else if kv == 0x2c {
        Some("comma"@)
    } else if kv == 0x2e {
        Some("period"@)
    } else if kv == 0x2f {
        Some("slash"@)
    } else if kv == 0x5c {
        Some("backslash"@)
    } else if kv == 0x60 {
        Some("grave"@)
    } else {
        None
    }
}

/// The first entries of the known key names are the letters, then the
/// digits, and the function keys come after the navigation keys.
proof fn lemma_known_key_runs()
    ensures
        forall|i: int| 0 <= i < 26 ==> #[trigger] known_keys()[i] == seq![(0x61 + i) as char],
        forall|i: int| 26 <= i < 36 ==> #[trigger] known_keys()[i] == seq![(0x30 + i - 26) as char],
        forall|i: int| 51 <= i < 63 ==> #[trigger] known_keys()[i] == seq!['f'] + dec((i - 50) as nat),
{
    reveal_strlit("a");
    reveal_strlit("b");
    reveal_strlit("c");
    reveal_strlit("d");
    reveal_strlit("e");
    reveal_strlit("f");
    reveal_strlit("g");
    reveal_strlit("h");
    reveal_strlit("i");
    reveal_strlit("j");
    reveal_strlit("k");
    reveal_strlit("l");
    reveal_strlit("m");
    reveal_strlit("n");
    reveal_strlit("o");
    reveal_strlit("p");
    reveal_strlit("q");
    reveal_strlit("r");
    reveal_strlit("s");
    reveal_strlit("t");
    reveal_strlit("u");
    reveal_strlit("v");
    reveal_strlit("w");
    reveal_strlit("x");
    reveal_strlit("y");
    reveal_strlit("z");
    reveal_strlit("0");
    reveal_strlit("1");
    reveal_strlit("2");
    reveal_strlit("3");
    reveal_strlit("4");
    reveal_strlit("5");
    reveal_strlit("6");
    reveal_strlit("7");
    reveal_strlit("8");
    reveal_strlit("9");
    reveal_strlit("f1");
    reveal_strlit("f2");
    reveal_strlit("f3");
    reveal_strlit("f4");
    reveal_strlit("f5");
    reveal_strlit("f6");
    reveal_strlit("f7");
    reveal_strlit("f8");
    reveal_strlit("f9");
    reveal_strlit("f10");
    reveal_strlit("f11");
    reveal_strlit("f12");
    assert forall|i: int| 0 <= i < 26 implies #[trigger] known_keys()[i] == seq![(0x61 + i) as char] by {
        assert(i == 0 || i == 1 || i == 2 || i == 3 || i == 4 || i == 5 || i == 6 || i == 7 || i == 8 || i == 9 || i == 10 || i == 11 || i == 12 || i == 13 || i == 14 || i == 15 || i == 16 || i == 17 || i == 18 || i == 19 || i == 20 || i == 21 || i == 22 || i == 23 || i == 24 || i == 25);
    }
    assert forall|i: int| 26 <= i < 36 implies #[trigger] known_keys()[i] == seq![(0x30 + i - 26) as char] by {
        assert(i == 26 || i == 27 || i == 28 || i == 29 || i == 30 || i == 31 || i == 32 || i == 33 || i == 34 || i == 35);
    }
    assert forall|i: int| 51 <= i < 63 implies #[trigger] known_keys()[i] == seq!['f'] + dec((i - 50) as nat) by {
        assert(dec(1) == seq!['1']);
        assert(dec(10) =~= seq!['1', '0']);
        assert(dec(11) =~= seq!['1', '1']);
        assert(dec(12) =~= seq!['1', '2']);
        assert(i == 51 || i == 52 || i == 53 || i == 54 || i == 55 || i == 56 || i == 57 || i == 58 || i == 59 || i == 60 || i == 61 || i == 62);
    }
}

/// Lowercase ASCII letters and digits, at least one.
pub open spec fn plain_name(s: Seq<char>) -> bool {
    &&& s.len() > 0
    &&& forall|i: int| 0 <= i < s.len() ==> ('a' <= #[trigger] s[i] <= 'z') || ('0' <= s[i] <= '9')
}

/// A known key name of lowercase letters and digits, written alone, is that
/// key with no modifier.
proof fn lemma_plain_name_parses(s: Seq<char>)
    requires
        plain_name(s),
        known_keys().contains(s),
    ensures
        key_combo_of(s) == Some(plain_combo(s, false)),
{
    crate::text::lemma_split_on_append_free(Seq::<char>::empty(), s, '+');
    assert(Seq::<char>::empty() + s =~= s);
    assert(!s.contains('+'));
    assert(split_on(s, '+') =~= seq![s]);
    assert(trim(s) == s) by {
        assert(!is_ws(s[0]));
        assert(!is_ws(s.last())) by {
            assert(s.last() == s[s.len() - 1]);
        }
    }
    assert(combo_parts(s) =~= seq![s]);
    assert(lowercase(s) =~= s);
    assert(combo_parts(s).drop_last() =~= Seq::<Seq<char>>::empty());
}

/// The key name of a keyval is made of lowercase letters and digits.
proof fn lemma_key_names_plain(kv: u32)
    ensures
        key_name_of(kv) matches Some(n) ==> plain_name(n),
{
    if let Some(n) = key_name_of(kv) {
        reveal_strlit("tab");
        reveal_strlit("escape");
        reveal_strlit("return");
        reveal_strlit("space");
        reveal_strlit("backspace");
        reveal_strlit("delete");
        reveal_strlit("up");
        reveal_strlit("down");
        reveal_strlit("left");
        reveal_strlit("right");
        reveal_strlit("home");
        reveal_strlit("end");
        reveal_strlit("pageup");
        reveal_strlit("pagedown");
        reveal_strlit("minus");
        reveal_strlit("plus");
        reveal_strlit("equal");
        reveal_strlit("bracketleft");
        reveal_strlit("bracketright");
        reveal_strlit("semicolon");
        reveal_strlit("apostrophe");
        reveal_strlit("comma");
        reveal_strlit("period");
        reveal_strlit("slash");
        reveal_strlit("backslash");
        reveal_strlit("grave");
        if 0xffbe <= kv && kv <= 0xffc9 {
            let m = (kv - 0xffbe + 1) as nat;
            assert(dec(1) == seq!['1']);
            assert(dec(10) =~= seq!['1', '0']);
            assert(dec(11) =~= seq!['1', '1']);
            assert(dec(12) =~= seq!['1', '2']);
            assert(m < 10 ==> dec(m) == seq![crate::text::digit(m)]);
            assert(plain_name(n)) by {
                assert(n == seq!['f'] + dec(m));
                assert forall|i: int| 0 <= i < n.len() implies ('a' <= #[trigger] n[i] <= 'z') || ('0'
                    <= n[i] <= '9') by {
                    if i > 0 {
                        assert(n[i] == dec(m)[i - 1]);
                    }
                }
            }
        }
    }
}

/// Every key name that a keyval has is a known key name, and written alone
/// it parses back to that key with no modifier, so that a binding can name
/// it.
pub proof fn lemma_key_names_known(kv: u32)
    ensures
        key_name_of(kv) matches Some(n) ==> known_keys().contains(n) && key_combo_of(n) == Some(
            plain_combo(n, false),
        ),
{
    lemma_known_key_runs();
    lemma_key_names_plain(kv);
    let k = known_keys();
    if let Some(n) = key_name_of(kv) {
        if 0xffbe <= kv && kv <= 0xffc9 {
            assert(k[kv - 0xffbe + 51] == n);
        } else if 0x61 <= kv && kv <= 0x7a {
            assert(k[kv - 0x61] == n);
        } else if 0x41 <= kv && kv <= 0x5a {
            assert(k[kv - 0x41] == n);
        } else if 0x01 <= kv && kv <= 0x1a {
            assert(k[kv - 0x01] == n);
        } else if 0x30 <= kv && kv <= 0x39 {
            assert(k[kv - 0x30 + 26] == n);
        } else {
            assert(k.contains(n));
        }
        lemma_plain_name_parses(n);
    }
}

/// Tab or ISO_Left_Tab (Shift+Tab).
pub open spec fn is_tab_key(kv: u32) -> bool {
    kv == 0xff09 || kv == 0xfe20
}

/// The letter (0 for `a` to 25 for `z`) of a lowercase, uppercase or Ctrl
/// letter keyval.
pub open spec fn letter_of(kv: u32) -> Option<u32> {
    if 0x61 <= kv && kv <= 0x7a {
        Some((kv - 0x61) as u32)
    } else if 0x41 <= kv && kv <= 0x5a {
        Some((kv - 0x41) as u32)
    } else if 0x01 <= kv && kv <= 0x1a {
        Some((kv - 0x01) as u32)
    } else {
        None
    }
}

/// Two keyvals name the same key only when they are the same key: Tab and
/// ISO_Left_Tab, or the lowercase, uppercase and Ctrl forms of one letter.
/// So pressing a key never runs the command bound to another key.
pub proof fn lemma_key_names_distinct(a: u32, b: u32)
    requires
        key_name_of(a) is Some,
        key_name_of(a) == key_name_of(b),
    ensures
        a == b || (is_tab_key(a) && is_tab_key(b)) || (letter_of(a) is Some && letter_of(a)
            == letter_of(b)),
{
    reveal_strlit("tab");
    reveal_strlit("escape");
    reveal_strlit("return");
    reveal_strlit("space");
    reveal_strlit("backspace");
    reveal_strlit("delete");
    reveal_strlit("up");
    reveal_strlit("down");
    reveal_strlit("left");
    reveal_strlit("right");
    reveal_strlit("home");
    reveal_strlit("end");
    reveal_strlit("pageup");
    reveal_strlit("pagedown");
    reveal_strlit("minus");
    reveal_strlit("plus");
    reveal_strlit("equal");
    reveal_strlit("bracketleft");
    reveal_strlit("bracketright");
    reveal_strlit("semicolon");
    reveal_strlit("apostrophe");
    reveal_strlit("comma");
    reveal_strlit("period");
    reveal_strlit("slash");
    reveal_strlit("backslash");
    reveal_strlit("grave");
    if 0xffbe <= a && a <= 0xffc9 && 0xffbe <= b && b <= 0xffc9 {
        let na = key_name_of(a)->0;
        let nb = key_name_of(b)->0;
        assert(na.drop_first() =~= crate::text::dec((a - 0xffbe + 1) as nat));
        assert(nb.drop_first() =~= crate::text::dec((b - 0xffbe + 1) as nat));
        crate::text::lemma_dec_injective((a - 0xffbe + 1) as nat, (b - 0xffbe + 1) as nat);
    }
    if 0xffbe <= a && a <= 0xffc9 {
        crate::text::lemma_dec_len((a - 0xffbe + 1) as nat);
    }
    if 0xffbe <= b && b <= 0xffc9 {
        crate::text::lemma_dec_len((b - 0xffbe + 1) as nat);
    }
    assert("tab"@.len() == 3 && "tab"@[0] == 't' && "tab"@[2] == 'b');
    assert("escape"@.len() == 6 && "escape"@[0] == 'e' && "escape"@[5] == 'e');
    assert("return"@.len() == 6 && "return"@[0] == 'r' && "return"@[5] == 'n');
    assert("space"@.len() == 5 && "space"@[0] == 's' && "space"@[4] == 'e');
    assert("backspace"@.len() == 9 && "backspace"@[0] == 'b' && "backspace"@[8] == 'e');
    assert("delete"@.len() == 6 && "delete"@[0] == 'd' && "delete"@[5] == 'e');
    assert("up"@.len() == 2 && "up"@[0] == 'u' && "up"@[1] == 'p');
    assert("down"@.len() == 4 && "down"@[0] == 'd' && "down"@[3] == 'n');
    assert("left"@.len() == 4 && "left"@[0] == 'l' && "left"@[3] == 't');
    assert("right"@.len() == 5 && "right"@[0] == 'r' && "right"@[4] == 't');
    assert("home"@.len() == 4 && "home"@[0] == 'h' && "home"@[3] == 'e');
    assert("end"@.len() == 3 && "end"@[0] == 'e' && "end"@[2] == 'd');
    assert("pageup"@.len() == 6 && "pageup"@[0] == 'p' && "pageup"@[5] == 'p');
    assert("pagedown"@.len() == 8 && "pagedown"@[0] == 'p' && "pagedown"@[7] == 'n');
    assert("minus"@.len() == 5 && "minus"@[0] == 'm' && "minus"@[4] == 's');
    assert("plus"@.len() == 4 && "plus"@[0] == 'p' && "plus"@[3] == 's');
    assert("equal"@.len() == 5 && "equal"@[0] == 'e' && "equal"@[4] == 'l');
    assert("bracketleft"@.len() == 11 && "bracketleft"@[0] == 'b' && "bracketleft"@[10] == 't');
    assert("bracketright"@.len() == 12 && "bracketright"@[0] == 'b' && "bracketright"@[11] == 't');
    assert("semicolon"@.len() == 9 && "semicolon"@[0] == 's' && "semicolon"@[8] == 'n');
    assert("apostrophe"@.len() == 10 && "apostrophe"@[0] == 'a' && "apostrophe"@[9] == 'e');
    assert("comma"@.len() == 5 && "comma"@[0] == 'c' && "comma"@[4] == 'a');
    assert("period"@.len() == 6 && "period"@[0] == 'p' && "period"@[5] == 'd');
    assert("slash"@.len() == 5 && "slash"@[0] == 's' && "slash"@[4] == 'h');
    assert("backslash"@.len() == 9 && "backslash"@[0] == 'b' && "backslash"@[8] == 'h');
    assert("grave"@.len() == 5 && "grave"@[0] == 'g' && "grave"@[4] == 'e');
    let na = key_name_of(a)->0;
    if letter_of(a) is Some {
        assert(na.len() == 1);
        assert('a' <= na[0] && na[0] <= 'z');
        assert((na[0] as u32) - 0x61 == letter_of(a)->0);
        assert(key_name_of(b)->0[0] == na[0]);
        assert(letter_of(b) is Some);
        assert((na[0] as u32) - 0x61 == letter_of(b)->0);
        assert(letter_of(b) is Some);
        assert(letter_of(a) == letter_of(b));
    } else if 0x30 <= a && a <= 0x39 {
        assert(na.len() == 1);
        assert((na[0] as u32) == a);
        assert(key_name_of(b)->0[0] == na[0]);
        assert(0x30 <= b && b <= 0x39);
        assert((na[0] as u32) == b);
    } else if 0xffbe <= a && a <= 0xffc9 {
        assert(a == b);
    } else {
        assert(na.len() > 1);
        assert(letter_of(b) is None);
        assert(!(0x30 <= b && b <= 0x39));
        assert(na[0] != 'f');
        assert(!(0xffbe <= b && b <= 0xffc9));
        assert(a == b || (is_tab_key(a) && is_tab_key(b)));
    }
}

/// The arrow keys and the other navigation keys have the names that the
/// default bindings use.
pub proof fn lemma_navigation_key_names()
    ensures
        key_name_of(0xff52) == Some("up"@),
        key_name_of(0xff54) == Some("down"@),
        key_name_of(0xff51) == Some("left"@),
        key_name_of(0xff53) == Some("right"@),
        key_name_of(0xff50) == Some("home"@),
        key_name_of(0xff57) == Some("end"@),
        key_name_of(0xff55) == Some("pageup"@),
        key_name_of(0xff56) == Some("pagedown"@),
        key_name_of(0xff09) == Some("tab"@),
        key_name_of(0xff1b) == Some("escape"@),
        key_name_of(0xff0d) == Some("return"@),
        key_name_of(0x20) == Some("space"@),
{
}

/// Convert a GDK keyval to the key name string used in KeyCombo.
pub fn keyval_to_name(keyval: u32) -> (r: Option<String>)
    ensures
        match r {
            Some(s) => key_name_of(keyval) == Some(s@),
            None => key_name_of(keyval) is None,
        },
{
    let name: Vec<char> = if keyval == 0xff09 {
        chars_of("tab")
    } else if keyval == 0xfe20 {
        chars_of("tab")
    } else if keyval == 0xff1b {
        chars_of("escape")
    } else if keyval == 0xff0d {
        chars_of("return")
    } else if keyval == 0x20 {
        chars_of("space")
    } else if keyval == 0xff08 {
        chars_of("backspace")
    } else if keyval == 0xffff {
        chars_of("delete")
    } else if keyval == 0xff52 {
        chars_of("up")
    } else if keyval == 0xff54 {
        chars_of("down")
    } else if keyval == 0xff51 {
        chars_of("left")
    } else if keyval == 0xff53 {
        chars_of("right")
    } else if keyval == 0xff50 {
        chars_of("home")
    } else if keyval == 0xff57 {
        chars_of("end")
    } else if keyval == 0xff55 {
        chars_of("pageup")
    } else if keyval == 0xff56 {
        chars_of("pagedown")
    } else if 0xffbe <= keyval && keyval <= 0xffc9 {
        let mut f: Vec<char> = Vec::new();
        f.push('f');
        push_all(&mut f, dec_chars((keyval - 0xffbe + 1) as u128).as_slice());
        assert(f@ =~= seq!['f'] + dec((keyval - 0xffbe + 1) as nat));
        f
    } else if 0x61 <= keyval && keyval <= 0x7a {
        let mut f: Vec<char> = Vec::new();
        f.push((keyval as u8) as char);
        assert(f@ =~= seq![keyval as char]);
        f
    } else if 0x41 <= keyval && keyval <= 0x5a {
        let mut f: Vec<char> = Vec::new();
        f.push(((keyval as u8) + 32) as char);
        assert(f@ =~= seq![(keyval + 32) as char]);
        f
    } else if 0x01 <= keyval && keyval <= 0x1a {
        let mut f: Vec<char> = Vec::new();
        f.push(((keyval as u8) + 0x60) as char);
        assert(f@ =~= seq![(keyval + 0x60) as char]);
        f
    } else if 0x30 <= keyval && keyval <= 0x39 {
        let mut f: Vec<char> = Vec::new();
        f.push((keyval as u8) as char);
        assert(f@ =~= seq![keyval as char]);
        f
    } else if keyval == 0x2d {
        chars_of("minus")
    } else if keyval == 0x2b {
        chars_of("plus")
    } else if keyval == 0x3d {
        chars_of("equal")
    } else if keyval == 0x5b {
        chars_of("bracketleft")
    } else if keyval == 0x5d {
        chars_of("bracketright")
    } else if keyval == 0x3b {
        chars_of("semicolon")
    } else if keyval == 0x27 {
        chars_of("apostrophe")
    } else if keyval == 0x2c {
        chars_of("comma")
    } else if keyval == 0x2e {
        chars_of("period")
    } else if keyval == 0x2f {
        chars_of("slash")
    } else if keyval == 0x5c {
        chars_of("backslash")
    } else if keyval == 0x60 {
        chars_of("grave")
    } else {
        return None;
    };
    Some(string_of(name.as_slice()))
}


// ---------------------------------------------------------------- key combinations

/// A key combination: a key name + modifier flags.
#[derive(Debug, Clone, PartialEq, Eq, Hash)]
pub struct KeyCombo {
    /// Lowercase key name, e.g. "p", "tab", "f1".
    pub key: String,
    pub ctrl: bool,
    pub shift: bool,
    pub alt: bool,
    pub super_: bool,
}

/// The value of a key combination.
pub struct KeyComboView {
    pub key: Seq<char>,
    pub ctrl: bool,
    pub shift: bool,
    pub alt: bool,
    pub super_: bool,
}

impl View for KeyCombo {
    type V = KeyComboView;

    open spec fn view(&self) -> KeyComboView {
        KeyComboView {
            key: self.key@,
            ctrl: self.ctrl,
            shift: self.shift,
            alt: self.alt,
            super_: self.super_,
        }
    }
}

/// The modifier flags (ctrl, shift, alt, super) that the modifier names
/// `mods` set, or `None` when one of them, lowercased, is not a modifier.
pub open spec fn modifier_flags(mods: Seq<Seq<char>>) -> Option<(bool, bool, bool, bool)>
    decreases mods.len(),
{
    if mods.len() == 0 {
        Some((false, false, false, false))
    } else {
        match modifier_flags(mods.drop_last()) {
            None => None,
            Some((c, s, a, u)) => {
                let m = lowercase(mods.last());
                if m == "ctrl"@ || m == "control"@ {
                    Some((true, s, a, u))
                } else if m == "shift"@ {
                    Some((c, true, a, u))
                } else if m == "alt"@ {
                    Some((c, s, true, u))
                } else if m == "super"@ {
                    Some((c, s, a, true))
                } else {
                    None
                }
            },
        }
    }
}

/// The pieces of `s` between `+` signs, each trimmed.
pub open spec fn combo_parts(s: Seq<char>) -> Seq<Seq<char>> {
    split_on(s, '+').map_values(|p: Seq<char>| trim(p))
}

/// The key combination that `s` writes: `+`-separated modifiers, then a
/// known key name; case does not matter.
pub open spec fn key_combo_of(s: Seq<char>) -> Option<KeyComboView> {
    let parts = combo_parts(s);
    let key = lowercase(parts.last());
    if !known_keys().contains(key) {
        None
    } else {
        match modifier_flags(parts.drop_last()) {
            Some((c, sh, a, u)) => Some(
                KeyComboView { key: key, ctrl: c, shift: sh, alt: a, super_: u },
            ),
            None => None,
        }
    }
}

fn lower_chars(s: &[char]) -> (r: Vec<char>)
    ensures
        r@ == lowercase(s@),
{
    let st = string_of(s);
    let l = to_lowercase(st.as_str());
    chars_of(l.as_str())
}

/// Parse a key combo string like "ctrl+p", "tab", "ctrl+shift+t" into a KeyCombo.
/// Returns None if the key name is not recognized.
pub fn parse_key_combo(s: &str) -> (r: Option<KeyCombo>)
    ensures
        match r {
            Some(c) => key_combo_of(s@) == Some(c@),
            None => key_combo_of(s@) is None,
        },
{
    let chars = chars_of(s);
    let raw = split_chars(chars.as_slice(), '+');
    proof {
        crate::text::lemma_split_on_len(s@, '+');
    }
    let ghost all = combo_parts(s@);
    let mut parts: Vec<Vec<char>> = Vec::new();
    let mut i: usize = 0;
    while i < raw.len()
        invariant
            i <= raw.len(),
            views(raw@) == split_on(s@, '+'),
            all == combo_parts(s@),
            views(parts@) =~= all.subrange(0, i as int),
        decreases raw.len() - i,
    {
        let t = trim_chars(raw[i].as_slice());
        let ghost prev = views(parts@);
        parts.push(t);
        assert(views(parts@) =~= prev.push(t@));
        i = i + 1;
        assert(views(parts@) =~= all.subrange(0, i as int));
    }
    assert(views(parts@) =~= all);
    let key = lower_chars(parts[parts.len() - 1].as_slice());
    assert(parts@[parts.len() - 1]@ == all.last());
    let key_str = string_of(key.as_slice());
    if !is_known_key(key_str.as_str()) {
        return None;
    }
    let mut ctrl = false;
    let mut shift = false;
    let mut alt = false;
    let mut super_ = false;
    let n = parts.len() - 1;
    let mut j: usize = 0;
    while j < n
        invariant
            n == parts.len() - 1,
            j <= n,
            views(parts@) == all,
            all == combo_parts(s@),
            key_str@ == lowercase(all.last()),
            known_keys().contains(key_str@),
            modifier_flags(all.subrange(0, j as int)) == Some((ctrl, shift, alt, super_)),
        decreases n - j,
    {
        assert(all.subrange(0, j + 1).drop_last() =~= all.subrange(0, j as int));
        assert(all.subrange(0, j + 1).last() == parts@[j as int]@);
        let m = lower_chars(parts[j].as_slice());
        if chars_eq(m.as_slice(), chars_of("ctrl").as_slice()) || chars_eq(
            m.as_slice(),
            chars_of("control").as_slice(),
        ) {
            ctrl = true;
        } else if chars_eq(m.as_slice(), chars_of("shift").as_slice()) {
            shift = true;
        } else if chars_eq(m.as_slice(), chars_of("alt").as_slice()) {
            alt = true;
        } else if chars_eq(m.as_slice(), chars_of("super").as_slice()) {
            super_ = true;
        } else {
            assert(modifier_flags(all.subrange(0, j + 1)) is None);
            assert(all.drop_last().subrange(0, j + 1) =~= all.subrange(0, j + 1));
            proof {
                lemma_modifier_flags_none_extends(all.drop_last(), (j + 1) as nat);
            }
            assert(modifier_flags(all.drop_last()) is None);
            return None;
        }
        j = j + 1;
    }
    assert(all.subrange(0, n as int) =~= all.drop_last());
    Some(KeyCombo { key: key_str, ctrl, shift, alt, super_ })
}

/// Once a modifier is unknown, longer lists of modifiers stay invalid.
proof fn lemma_modifier_flags_none_extends(mods: Seq<Seq<char>>, k: nat)
    requires
        k <= mods.len(),
        modifier_flags(mods.subrange(0, k as int)) is None,
    ensures
        modifier_flags(mods) is None,
    decreases mods.len() - k,
{
    if k < mods.len() {
        assert(mods.subrange(0, (k + 1) as int).drop_last() =~= mods.subrange(0, k as int));
        lemma_modifier_flags_none_extends(mods, k + 1);
    } else {
        assert(mods.subrange(0, k as int) =~= mods);
    }
}


// ---------------------------------------------------------------- the registry

/// The keybindings that a list of (combination, command) pairs holds, the
/// later pair winning for a combination.
pub open spec fn bindings_map(s: Seq<(KeyComboView, Seq<char>)>) -> Map<KeyComboView, Seq<char>>
    decreases s.len(),
{
    if s.len() == 0 {
        Map::empty()
    } else {
        bindings_map(s.drop_last()).insert(s.last().0, s.last().1)
    }
}

/// The pairs of a list of bindings, by value.
pub open spec fn pairs_view(v: Seq<(KeyCombo, String)>) -> Seq<(KeyComboView, Seq<char>)> {
    v.map_values(|p: (KeyCombo, String)| (p.0@, p.1@))
}

/// No combination occurs twice in `s`.
pub open spec fn unique_combos(s: Seq<(KeyComboView, Seq<char>)>) -> bool {
    forall|i: int, j: int| 0 <= i < j < s.len() ==> s[i].0 != s[j].0
}

/// The bindings after registering the combination written `combo` for
/// `command`; an invalid combination changes nothing.
pub open spec fn registered(m: Map<KeyComboView, Seq<char>>, combo: Seq<char>, command: Seq<char>) -> Map<
    KeyComboView,
    Seq<char>,
> {
    match key_combo_of(combo) {
        Some(c) => m.insert(c, command),
        None => m,
    }
}

/// The bindings after registering each (combination, command) pair of
/// `pairs` in turn.
pub open spec fn register_all(m: Map<KeyComboView, Seq<char>>, pairs: Seq<(Seq<char>, Seq<char>)>) -> Map<
    KeyComboView,
    Seq<char>,
>
    decreases pairs.len(),
{
    if pairs.len() == 0 {
        m
    } else {
        registered(register_all(m, pairs.drop_last()), pairs.last().0, pairs.last().1)
    }
}

/// A key with no modifier but, where `ctrl`, Ctrl.
pub open spec fn plain_combo(key: Seq<char>, ctrl: bool) -> KeyComboView {
    KeyComboView { key: key, ctrl: ctrl, shift: false, alt: false, super_: false }
}

/// The default keybindings: Tab for the full-window table of contents,
/// Ctrl+P to print, Ctrl+= / Ctrl+- / Ctrl+0 to zoom in, out and back (the
/// keys named as key presses name them: `equal`, `minus`, `0`).
pub open spec fn default_bindings() -> Map<KeyComboView, Seq<char>> {
    Map::empty().insert(plain_combo("tab"@, false), "quicktoc"@).insert(
        plain_combo("p"@, true),
        "print"@,
    ).insert(plain_combo("equal"@, true), "zoom_in"@).insert(
        plain_combo("minus"@, true),
        "zoom_out"@,
    ).insert(plain_combo("0"@, true), "zoom_reset"@)
}

/// The (combination, command) pairs of a list of string pairs, by value.
pub open spec fn string_pairs_view(v: Seq<(String, String)>) -> Seq<(Seq<char>, Seq<char>)> {
    v.map_values(|p: (String, String)| (p.0@, p.1@))
}

/// What the binding for `keyval` with the given modifiers is, in `m`.
pub open spec fn binding_for(
    m: Map<KeyComboView, Seq<char>>,
    keyval: u32,
    ctrl: bool,
    shift: bool,
    alt: bool,
    super_: bool,
) -> Option<Seq<char>> {
    match key_name_of(keyval) {
        None => None,
        Some(k) => {
            let c = KeyComboView { key: k, ctrl: ctrl, shift: shift, alt: alt, super_: super_ };
            if m.contains_key(c) {
                Some(m[c])
            } else {
                None
            }
        },
    }
}

/// What is registered is what a key press finds: after registering a
/// valid combination for a command, the key that the combination names,
/// pressed with its modifiers, gives that command; and a combination that
/// differs keeps what it had.
pub proof fn lemma_register_then_lookup(
    m: Map<KeyComboView, Seq<char>>,
    combo: Seq<char>,
    command: Seq<char>,
    keyval: u32,
    other: KeyComboView,
)
    requires
        key_combo_of(combo) is Some,
        key_name_of(keyval) == Some(key_combo_of(combo)->0.key),
        other != key_combo_of(combo)->0,
    ensures
        ({
            let c = key_combo_of(combo)->0;
            let r = registered(m, combo, command);
            &&& binding_for(r, keyval, c.ctrl, c.shift, c.alt, c.super_) == Some(command)
            &&& r.contains_key(other) == m.contains_key(other)
            &&& r.contains_key(other) ==> r[other] == m[other]
        }),
{
    let c = key_combo_of(combo)->0;
    let k = KeyComboView { key: key_name_of(keyval)->0, ctrl: c.ctrl, shift: c.shift, alt: c.alt, super_: c.super_ };
    assert(k == c);
}

proof fn lemma_bindings_map_update(s: Seq<(KeyComboView, Seq<char>)>, i: int, v: Seq<char>)
    requires
        unique_combos(s),
        0 <= i < s.len(),
    ensures
        bindings_map(s.update(i, (s[i].0, v))) == bindings_map(s).insert(s[i].0, v),
    decreases s.len(),
{
    let t = s.update(i, (s[i].0, v));
    if i == s.len() - 1 {
        assert(t.drop_last() =~= s.drop_last());
        assert(bindings_map(t) =~= bindings_map(s).insert(s[i].0, v));
    } else {
        let d = s.drop_last();
        assert(t.drop_last() =~= d.update(i, (d[i].0, v)));
        lemma_bindings_map_update(d, i, v);
        assert(s.last().0 != s[i].0);
        assert(bindings_map(t) =~= bindings_map(s).insert(s[i].0, v));
    }
}

proof fn lemma_bindings_map_absent(s: Seq<(KeyComboView, Seq<char>)>, k: KeyComboView)
    requires
        forall|j: int| 0 <= j < s.len() ==> s[j].0 != k,
    ensures
        !bindings_map(s).contains_key(k),
    decreases s.len(),
{
    if s.len() > 0 {
        lemma_bindings_map_absent(s.drop_last(), k);
    }
}

proof fn lemma_bindings_map_get(s: Seq<(KeyComboView, Seq<char>)>, i: int)
    requires
        unique_combos(s),
        0 <= i < s.len(),
    ensures
        bindings_map(s).contains_key(s[i].0),
        bindings_map(s)[s[i].0] == s[i].1,
    decreases s.len(),
{
    if i < s.len() - 1 {
        lemma_bindings_map_get(s.drop_last(), i);
        assert(s.last().0 != s[i].0);
    }
}

fn combo_eq(a: &KeyCombo, b: &KeyCombo) -> (r: bool)
    ensures
        r == (a@ == b@),
{
    a.key == b.key && a.ctrl == b.ctrl && a.shift == b.shift && a.alt == b.alt && a.super_ == b.super_
}

/// A keybinding registry mapping key combos to command strings.
pub struct KeybindingRegistry {
    bindings: Vec<(KeyCombo, String)>,
}

impl View for KeybindingRegistry {
    type V = Map<KeyComboView, Seq<char>>;

    closed spec fn view(&self) -> Map<KeyComboView, Seq<char>> {
        bindings_map(pairs_view(self.bindings@))
    }
}

impl KeybindingRegistry {
    #[verifier::type_invariant]
    closed spec fn well_formed(self) -> bool {
        unique_combos(pairs_view(self.bindings@))
    }

    /// An empty registry.
    pub fn new() -> (r: Self)
        ensures
            r@ == Map::<KeyComboView, Seq<char>>::empty(),
    {
        let r = KeybindingRegistry { bindings: Vec::new() };
        assert(pairs_view(r.bindings@) =~= Seq::<(KeyComboView, Seq<char>)>::empty());
        r
    }

    /// Binds `combo` to `command`, replacing an earlier binding of `combo`.
    fn insert(&mut self, combo: KeyCombo, command: String)
        ensures
            final(self)@ == old(self)@.insert(combo@, command@),
    {
        proof {
            use_type_invariant(&*self);
        }
        let mut b: Vec<(KeyCombo, String)> = Vec::new();
        std::mem::swap(&mut b, &mut self.bindings);
        let ghost ps = pairs_view(b@);
        let ghost kv = combo@;
        let ghost cv = command@;
        let mut i: usize = 0;
        while i < b.len() && !combo_eq(&b[i].0, &combo)
            invariant
                i <= b.len(),
                ps == pairs_view(b@),
                unique_combos(ps),
                forall|j: int| 0 <= j < i ==> ps[j].0 != combo@,
            decreases b.len() - i,
        {
            i = i + 1;
        }
        if i < b.len() {
            assert(ps[i as int].0 == kv);
            proof {
                lemma_bindings_map_update(ps, i as int, cv);
            }
            b.set(i, (combo, command));
            assert(pairs_view(b@) =~= ps.update(i as int, (kv, cv)));
        } else {
            b.push((combo, command));
            assert(pairs_view(b@) =~= ps.push((kv, cv)));
            assert(pairs_view(b@).drop_last() =~= ps);
        }
        self.bindings = b;
    }

    /// Create a registry with default keybindings.
    pub fn with_defaults() -> (r: Self)
        ensures
            r@ == default_bindings(),
            binding_for(r@, 0xff09, false, false, false, false) == Some("quicktoc"@),
            binding_for(r@, 0x70, true, false, false, false) == Some("print"@),
            binding_for(r@, 0x3d, true, false, false, false) == Some("zoom_in"@),
            binding_for(r@, 0x2d, true, false, false, false) == Some("zoom_out"@),
            binding_for(r@, 0x30, true, false, false, false) == Some("zoom_reset"@),
    {
        let mut registry = Self::new();
        registry.insert(Self::combo("tab", false), owned("quicktoc"));
        registry.insert(Self::combo("p", true), owned("print"));
        registry.insert(Self::combo("equal", true), owned("zoom_in"));
        registry.insert(Self::combo("minus", true), owned("zoom_out"));
        registry.insert(Self::combo("0", true), owned("zoom_reset"));
        proof {
            reveal_strlit("p");
            reveal_strlit("0");
            reveal_strlit("tab");
            reveal_strlit("equal");
            reveal_strlit("minus");
            assert((0x70u32 as char) == 'p');
            assert((0x30u32 as char) == '0');
            assert(seq![(0x70u32 as char)] =~= "p"@);
            assert(seq![(0x30u32 as char)] =~= "0"@);
            assert("p"@[0] != "0"@[0]);
            assert("equal"@[0] != "minus"@[0]);
            assert("p"@ != "0"@);
            assert("equal"@ != "minus"@);
            assert("equal"@ != "0"@);
            assert("minus"@ != "0"@);
            assert("p"@ != "equal"@ && "p"@ != "minus"@);
            assert(key_name_of(0x70) == Some("p"@));
            assert(key_name_of(0x30) == Some("0"@));
        }
        registry
    }

    fn combo(key: &str, ctrl: bool) -> (r: KeyCombo)
        ensures
            r@ == plain_combo(key@, ctrl),
    {
        KeyCombo { key: owned(key), ctrl, shift: false, alt: false, super_: false }
    }

    /// Register a keybinding from string key combo. Returns whether the
    /// combination is valid (an invalid one is skipped).
    pub fn register_str(&mut self, combo_str: &str, command: &str) -> (ok: bool)
        ensures
            ok == key_combo_of(combo_str@) is Some,
            final(self)@ == registered(old(self)@, combo_str@, command@),
    {
        match parse_key_combo(combo_str) {
            Some(combo) => {
                let c = string_of(chars_of(command).as_slice());
                self.insert(combo, c);
                true
            },
            None => false,
        }
    }

    /// Look up a command by keyval and modifier state.
    pub fn lookup(&self, keyval: u32, ctrl: bool, shift: bool, alt: bool, super_: bool) -> (r:
        Option<&str>)
        ensures
            match r {
                Some(s) => binding_for(self@, keyval, ctrl, shift, alt, super_) == Some(s@),
                None => binding_for(self@, keyval, ctrl, shift, alt, super_) is None,
            },
    {
        proof {
            use_type_invariant(self);
        }
        let key = match keyval_to_name(keyval) {
            Some(k) => k,
            None => return None,
        };
        let combo = KeyCombo { key, ctrl, shift, alt, super_ };
        let ghost ps = pairs_view(self.bindings@);
        let mut i: usize = 0;
        while i < self.bindings.len()
            invariant
                i <= self.bindings.len(),
                ps == pairs_view(self.bindings@),
                unique_combos(ps),
                key_name_of(keyval) == Some(combo.key@),
                combo.ctrl == ctrl && combo.shift == shift && combo.alt == alt && combo.super_
                    == super_,
                forall|j: int| 0 <= j < i ==> ps[j].0 != combo@,
            decreases self.bindings.len() - i,
        {
            if combo_eq(&self.bindings[i].0, &combo) {
                proof {
                    lemma_bindings_map_get(ps, i as int);
                    assert(ps[i as int] == (self.bindings@[i as int].0@, self.bindings@[
                        i as int].1@));
                }
                return Some(self.bindings[i].1.as_str());
            }
            i = i + 1;
        }
        proof {
            lemma_bindings_map_absent(ps, combo@);
        }
        None
    }

    /// Register all keybindings from the pairs of the configuration's
    /// `[keybindings]` table, in the given order, overriding defaults.
    pub fn register_from_config(&mut self, config_bindings: &Vec<(String, String)>)
        ensures
            final(self)@ == register_all(old(self)@, string_pairs_view(config_bindings@)),
    {
        let ghost start = self@;
        let ghost all = string_pairs_view(config_bindings@);
        let mut i: usize = 0;
        assert(all.subrange(0, 0) =~= Seq::<(Seq<char>, Seq<char>)>::empty());
        while i < config_bindings.len()
            invariant
                i <= config_bindings.len(),
                all == string_pairs_view(config_bindings@),
                self@ == register_all(start, all.subrange(0, i as int)),
            decreases config_bindings.len() - i,
        {
            assert(all.subrange(0, i + 1).drop_last() =~= all.subrange(0, i as int));
            let (combo_str, command) = &config_bindings[i];
            self.register_str(combo_str.as_str(), command.as_str());
            i = i + 1;
        }
        assert(all.subrange(0, i as int) =~= all);
    }
}

// ---------------------------------------------------------------- path completion

/// Where a path completion looks and what it completes: for a fragment
/// (a leading `~` expanded with `home`) that ends in `/` or is empty, the
/// fragment as the directory and nothing typed of a name; else the
/// fragment's parent directory (`.` when it has none or an empty one) and
/// its file name (empty when it has none).
pub open spec fn path_query_of(fragment: Seq<char>, home: Seq<char>) -> (Seq<char>, Seq<char>) {
    let e = tilde_expanded(fragment, home);
    if ends_with(e, "/"@) || e.len() == 0 {
        (e, seq![])
    } else {
        (
            match crate::text::parent_of(e) {
                Some(d) => if d.len() == 0 {
                    "."@
                } else {
                    d
                },
                None => "."@,
            },
            match crate::text::file_name_of(e) {
                Some(f) => f,
                None => seq![],
            },
        )
    }
}

/// Completing a path that starts with `~` lists what completing its
/// expansion lists: the fragment is expanded with the home directory before
/// it is split, so the directory listed never starts with a `~` that the
/// user typed (when the home directory is set and does not itself start
/// with `~`). In particular, a fragment that ends with `/` lists its
/// expansion.
pub proof fn lemma_path_query_expands_tilde(fragment: Seq<char>, home: Seq<char>)
    requires
        home.len() > 0,
        home[0] != '~',
    ensures
        path_query_of(fragment, home) == path_query_of(tilde_expanded(fragment, home), home),
        tilde_expanded(fragment, home).len() > 0 ==> tilde_expanded(fragment, home)[0] != '~',
        ends_with(fragment, "/"@) ==> path_query_of(fragment, home).0 == tilde_expanded(
            fragment,
            home,
        ) && path_query_of(fragment, home).1.len() == 0,
{
    let e = tilde_expanded(fragment, home);
    reveal_strlit("/");
    if fragment.len() > 0 && fragment[0] == '~' {
        assert(e[0] == home[0]);
        if ends_with(fragment, "/"@) {
            assert(fragment.subrange(fragment.len() - 1, fragment.len() as int)[0] == '/');
            assert(fragment.len() > 1);
            assert(e.last() == fragment.last());
            assert(e.subrange(e.len() - 1, e.len() as int) =~= "/"@);
        }
    }
    assert(tilde_expanded(e, home) == e);
}

/// The directory to list, and the start of the names to offer, for a path
/// fragment typed after `open`; `home` is the value of `HOME` (empty when
/// unset).
pub fn path_query(fragment: &str, home: &str) -> (r: (String, String))
    ensures
        (r.0@, r.1@) == path_query_of(fragment@, home@),
{
    let e = expand_tilde(fragment, home);
    let ec = chars_of(e.as_str());
    if ends_with_chars(ec.as_slice(), chars_of("/").as_slice()) || ec.len() == 0 {
        let empty: Vec<char> = Vec::new();
        assert(empty@ =~= Seq::<char>::empty());
        return (e, string_of(empty.as_slice()));
    }
    let dir = match crate::text::path_parent(e.as_str()) {
        Some(d) => if chars_of(d.as_str()).len() == 0 {
            string_of(chars_of(".").as_slice())
        } else {
            d
        },
        None => string_of(chars_of(".").as_slice()),
    };
    let name = match crate::text::path_file_name(e.as_str()) {
        Some(f) => f,
        None => {
            let empty: Vec<char> = Vec::new();
            assert(empty@ =~= Seq::<char>::empty());
            string_of(empty.as_slice())
        },
    };
    (dir, name)
}

/// `s` without all its trailing `/`.
pub open spec fn without_trailing_slashes(s: Seq<char>) -> Seq<char>
    decreases s.len(),
{
    if s.len() > 0 && s.last() == '/' {
        without_trailing_slashes(s.drop_last())
    } else {
        s
    }
}

/// A directory entry offered for a completion: one whose name starts with
/// what was typed, and that is a directory or a markdown file.
pub open spec fn offered(name: Seq<char>, is_dir: bool, prefix: Seq<char>) -> bool {
    starts_with(name, prefix) && (is_dir || has_markdown_extension(lowercase(name)))
}

/// The completion that a directory entry gives: its name where the
/// directory is `.`, else the directory (without trailing `/`), `/` and
/// the name; a directory with a `/` after it.
pub open spec fn entry_completion(dir: Seq<char>, name: Seq<char>, is_dir: bool) -> Seq<char> {
    let full = if dir == "."@ {
        name
    } else {
        without_trailing_slashes(dir) + "/"@ + name
    };
    if is_dir {
        full + "/"@
    } else {
        full
    }
}

/// The completions that the entries give, in the entries' order.
pub open spec fn completions_of(
    dir: Seq<char>,
    prefix: Seq<char>,
    entries: Seq<(Seq<char>, bool)>,
) -> Seq<Seq<char>>
    decreases entries.len(),
{
    if entries.len() == 0 {
        seq![]
    } else {
        let rest = completions_of(dir, prefix, entries.drop_last());
        let (name, is_dir) = entries.last();
        if offered(name, is_dir, prefix) {
            rest.push(entry_completion(dir, name, is_dir))
        } else {
            rest
        }
    }
}

/// The texts are in order: none comes before an earlier one.
pub open spec fn sorted(s: Seq<Seq<char>>) -> bool {
    forall|i: int, j: int| 0 <= i < j < s.len() ==> !crate::text::lex_lt(s[j], s[i])
}

/// The directory entries (each a name and whether it is a directory), by
/// value.
pub open spec fn dir_entries_view(v: Seq<(String, bool)>) -> Seq<(Seq<char>, bool)> {
    v.map_values(|e: (String, bool)| (e.0@, e.1))
}

fn trim_trailing_slashes(s: &[char]) -> (r: Vec<char>)
    ensures
        r@ == without_trailing_slashes(s@),
{
    let mut n = s.len();
    assert(s@.subrange(0, n as int) =~= s@);
    while n > 0 && s[n - 1] == '/'
        invariant
            n <= s.len(),
            without_trailing_slashes(s@) == without_trailing_slashes(s@.subrange(0, n as int)),
        decreases n,
    {
        assert(s@.subrange(0, n as int).drop_last() =~= s@.subrange(0, n - 1));
        n = n - 1;
    }
    slice_chars(s, 0, n)
}

fn insert_sorted(out: &mut Vec<String>, x: String)
    requires
        sorted(strings_view(old(out)@)),
    ensures
        sorted(strings_view(final(out)@)),
        strings_view(final(out)@).to_multiset() == strings_view(old(out)@).to_multiset().insert(x@),
{
    let ghost before = strings_view(out@);
    let xc = chars_of(x.as_str());
    let mut k: usize = 0;
    while k < out.len() && !crate::text::lex_lt_chars(xc.as_slice(), chars_of(out[k].as_str()).as_slice())
        invariant
            k <= out.len(),
            before == strings_view(out@),
            xc@ == x@,
            forall|m: int| 0 <= m < k ==> !crate::text::lex_lt(x@, before[m]),
        decreases out.len() - k,
    {
        assert(before[k as int] == out@[k as int]@);
        k = k + 1;
    }
    proof {
        if k < out.len() {
            assert(before[k as int] == out@[k as int]@);
        }
    }
    out.insert(k, x);
    let ghost after = strings_view(out@);
    assert(after =~= before.insert(k as int, x@));
    proof {
        broadcast use vstd::seq_lib::group_to_multiset_ensures;
        assert(after.remove(k as int) =~= before);
        assert(after.to_multiset().remove(x@) =~= before.to_multiset());
        assert(after.to_multiset().count(x@) > 0);
        assert(after.to_multiset() =~= before.to_multiset().insert(x@));
        assert forall|i: int, j: int| 0 <= i < j < after.len() implies !crate::text::lex_lt(after[j], after[i]) by {
            if j < k {
                assert(after[i] == before[i] && after[j] == before[j]);
            } else if j == k {
                assert(after[j] == x@ && after[i] == before[i]);
            } else if i > k {
                assert(after[i] == before[i - 1] && after[j] == before[j - 1]);
            } else if i == k {
                // x comes before before[k], which comes at or before before[j - 1].
                assert(after[i] == x@ && after[j] == before[j - 1]);
                assert(crate::text::lex_lt(x@, before[k as int]));
                if crate::text::lex_lt(after[j], after[i]) {
                    if before[j - 1] == before[k as int] {
                        crate::text::lemma_lex_lt_transitive(x@, before[k as int], x@);
                        crate::text::lemma_lex_lt_irreflexive(x@);
                    } else {
                        crate::text::lemma_lex_lt_total(before[k as int], before[j - 1]);
                        crate::text::lemma_lex_lt_transitive(x@, before[k as int], before[j - 1]);
                        crate::text::lemma_lex_lt_transitive(x@, before[j - 1], x@);
                        crate::text::lemma_lex_lt_irreflexive(x@);
                    }
                }
            } else {
                assert(after[i] == before[i] && after[j] == before[j - 1]);
            }
        }
    }
}

/// The completions of a path: the entries of the listed directory `dir`
/// (each a name and whether it is a directory) whose names start with
/// `prefix` and that are directories or markdown files, as `dir`-relative
/// paths (a directory with a trailing `/`), sorted.
pub fn path_candidates(dir: &str, prefix: &str, entries: &Vec<(String, bool)>) -> (r: Vec<String>)
    ensures
        sorted(strings_view(r@)),
        strings_view(r@).to_multiset() == completions_of(
            dir@,
            prefix@,
            dir_entries_view(entries@),
        ).to_multiset(),
{
    let dc = chars_of(dir);
    let pc = chars_of(prefix);
    let at_dot = chars_eq(dc.as_slice(), chars_of(".").as_slice());
    let base = trim_trailing_slashes(dc.as_slice());
    let ghost ev = dir_entries_view(entries@);
    let mut out: Vec<String> = Vec::new();
    let mut i: usize = 0;
    assert(ev.subrange(0, 0) =~= Seq::<(Seq<char>, bool)>::empty());
    assert(strings_view(out@) =~= Seq::<Seq<char>>::empty());
    assert(completions_of(dir@, prefix@, ev.subrange(0, 0)) =~= Seq::<Seq<char>>::empty());
    while i < entries.len()
        invariant
            i <= entries.len(),
            ev == dir_entries_view(entries@),
            dc@ == dir@,
            pc@ == prefix@,
            at_dot == (dir@ == "."@),
            base@ == without_trailing_slashes(dir@),
            sorted(strings_view(out@)),
            strings_view(out@).to_multiset() == completions_of(dir@, prefix@, ev.subrange(0, i as int)).to_multiset(),
        decreases entries.len() - i,
    {
        let ghost sub = ev.subrange(0, i + 1);
        assert(sub.drop_last() =~= ev.subrange(0, i as int));
        assert(sub.last() == (entries@[i as int].0@, entries@[i as int].1));
        let name = entries[i].0.as_str();
        let is_dir = entries[i].1;
        let nc = chars_of(name);
        if starts_with_chars(nc.as_slice(), pc.as_slice()) && (is_dir || is_markdown_file(name)) {
            let mut full: Vec<char> = if at_dot {
                chars_of(name)
            } else {
                let mut f = slice_chars(base.as_slice(), 0, base.len());
                f.push('/');
                push_all(&mut f, nc.as_slice());
                assert(f@ =~= without_trailing_slashes(dir@) + "/"@ + name@) by {
                    reveal_strlit("/");
                }
                f
            };
            if is_dir {
                full.push('/');
                assert(full@ =~= entry_completion(dir@, name@, is_dir)) by {
                    reveal_strlit("/");
                }
            }
            let ghost before = strings_view(out@).to_multiset();
            insert_sorted(&mut out, string_of(full.as_slice()));
            proof {
                broadcast use vstd::seq_lib::group_to_multiset_ensures;
                let prev = completions_of(dir@, prefix@, ev.subrange(0, i as int));
                assert(completions_of(dir@, prefix@, sub) == prev.push(entry_completion(dir@, name@, is_dir)));
            }
        }
        i = i + 1;
    }
    assert(ev.subrange(0, i as int) =~= ev);
    out
}

} // verus!
