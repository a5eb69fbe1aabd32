//! From markdown to the HTML body and its table of contents: heading anchors,
//! section numbers, media embeds, frontmatter and the page template.
use vstd::prelude::*;
use rand::Rng;
use pulldown_cmark::{CowStr, Event, HeadingLevel, Tag, TagEnd};

use crate::text::{
    alphanumeric, chars_eq, chars_of, dec, dec_chars, ends_with, ends_with_chars, find, find_chars,
    find_from, is_alphanumeric, join, join_chars, lemma_dec_injective, lemma_dec_len,
    lemma_find_from, lemma_join_push, lowercase, push_all, replace_all, replace_all_chars,
    slice_chars, string_of, strings_view,
    to_lowercase, views,
};

verus! {

#[verifier::external_type_specification]
#[verifier::external_body]
pub struct ExEvent<'a>(pulldown_cmark::Event<'a>);

// ---------------------------------------------------------------- slugs

/// The character that a slug keeps for `c`: itself when alphanumeric, else a
/// dash.
pub open spec fn slug_char(c: char) -> char {
    if alphanumeric(c) {
        c
    } else {
        '-'
    }
}

/// The maximal runs of characters other than `-` in `s`, in order.
pub open spec fn dash_words(s: Seq<char>) -> Seq<Seq<char>>
    decreases s.len(),
{
    if s.len() == 0 {
        seq![]
    } else {
        let w = dash_words(s.drop_last());
        let c = s.last();
        if c == '-' {
            w
        } else if s.len() >= 2 && s[s.len() - 2] != '-' {
            w.update(w.len() - 1, w.last().push(c))
        } else {
            w.push(seq![c])
        }
    }
}

/// The slug of an already lowercased heading: its characters with every
/// non-alphanumeric one made a dash, reduced to the runs of non-dashes joined
/// by single dashes (no leading, trailing or doubled dash).
pub open spec fn slug_of(lower: Seq<char>) -> Seq<char> {
    join(dash_words(lower.map_values(|c: char| slug_char(c))), seq!['-'])
}

proof fn lemma_dash_words(s: Seq<char>)
    ensures
        forall|k: int|
            0 <= k < dash_words(s).len() ==> #[trigger] dash_words(s)[k].len() > 0 && !dash_words(
                s,
            )[k].contains('-'),
        s.len() > 0 && s.last() != '-' ==> dash_words(s).len() > 0,
    decreases s.len(),
{
    if s.len() > 0 {
        let d = s.drop_last();
        lemma_dash_words(d);
        let w = dash_words(d);
        if s.last() != '-' && s.len() >= 2 && s[s.len() - 2] != '-' {
            assert(d.last() == s[s.len() - 2]);
            let nw = w.update(w.len() - 1, w.last().push(s.last()));
            assert forall|k: int| 0 <= k < nw.len() implies #[trigger] nw[k].len() > 0
                && !nw[k].contains('-') by {
                if k == w.len() - 1 {
                    assert forall|j: int| 0 <= j < nw[k].len() implies nw[k][j] != '-' by {
                        if j < w.last().len() {
                            assert(nw[k][j] == w.last()[j]);
                        }
                    }
                }
            }
        } else if s.last() != '-' {
            let nw = w.push(seq![s.last()]);
            assert forall|k: int| 0 <= k < nw.len() implies #[trigger] nw[k].len() > 0
                && !nw[k].contains('-') by {
                if k == w.len() {
                    assert(nw[k] == seq![s.last()]);
                }
            }
        }
    }
}

proof fn lemma_join_nonempty(w: Seq<Seq<char>>)
    requires
        forall|k: int| 0 <= k < w.len() ==> #[trigger] w[k].len() > 0 && !w[k].contains('-'),
    ensures
        w.len() > 0 ==> join(w, seq!['-']).len() > 0 && join(w, seq!['-']).last() == w.last().last(),
        w.len() == 0 ==> join(w, seq!['-']).len() == 0,
    decreases w.len(),
{
    if w.len() > 1 {
        lemma_join_nonempty(w.drop_last());
    }
}

proof fn lemma_join_extend_last(w: Seq<Seq<char>>, c: char)
    requires
        w.len() > 0,
    ensures
        join(w.update(w.len() - 1, w.last().push(c)), seq!['-']) == join(w, seq!['-']).push(c),
{
    let nw = w.update(w.len() - 1, w.last().push(c));
    if w.len() == 1 {
    } else {
        assert(nw.drop_last() =~= w.drop_last());
        assert(join(nw, seq!['-']) =~= join(w, seq!['-']).push(c));
    }
}

/// Dash-free, non-empty words joined by single dashes give a text that
/// neither starts nor ends with a dash and holds no two dashes in a row.
proof fn lemma_join_shape(w: Seq<Seq<char>>)
    requires
        forall|k: int| 0 <= k < w.len() ==> #[trigger] w[k].len() > 0 && !w[k].contains('-'),
    ensures
        ({
            let j = join(w, seq!['-']);
            &&& j.len() > 0 ==> j[0] != '-' && j.last() != '-'
            &&& forall|i: int| 0 <= i < j.len() - 1 ==> !(#[trigger] j[i] == '-' && j[i + 1] == '-')
        }),
    decreases w.len(),
{
    lemma_join_nonempty(w);
    if w.len() == 1 {
        let j = join(w, seq!['-']);
        assert(j == w[0]);
        assert(w[0][0] != '-') by {
            assert(w[0].contains(w[0][0]) ==> w[0][0] != '-');
        }
        assert(j.last() != '-') by {
            assert(w[0][w[0].len() - 1] == j.last());
        }
        assert forall|i: int| 0 <= i < j.len() - 1 implies !(#[trigger] j[i] == '-' && j[i + 1] == '-') by {
            assert(w[0][i] == j[i]);
        }
    } else if w.len() > 1 {
        let init = w.drop_last();
        assert forall|k: int| 0 <= k < init.len() implies #[trigger] init[k].len() > 0 && !init[k].contains('-') by {
            assert(init[k] == w[k]);
        }
        lemma_join_shape(init);
        lemma_join_nonempty(init);
        let a = join(init, seq!['-']);
        let l = w.last();
        assert(l == w[w.len() - 1]);
        let j = join(w, seq!['-']);
        assert(j == a + seq!['-'] + l);
        assert(a.len() > 0);
        assert(a.last() == init.last().last());
        assert(init.last() == w[w.len() - 2]);
        assert(init.last().last() != '-') by {
            let x = init.last();
            assert(x[x.len() - 1] == x.last());
        }
        assert(l[0] != '-') by {
            assert(l.contains(l[0]) ==> l[0] != '-');
        }
        assert(l.last() != '-') by {
            assert(l[l.len() - 1] == l.last());
        }
        assert(j[0] == a[0]);
        assert(j.last() == l.last());
        assert forall|i: int| 0 <= i < j.len() - 1 implies !(#[trigger] j[i] == '-' && j[i + 1] == '-') by {
            if i < a.len() - 1 {
                assert(j[i] == a[i] && j[i + 1] == a[i + 1]);
            } else if i == a.len() - 1 {
                assert(j[i] == a.last());
            } else if i == a.len() {
                assert(j[i + 1] == l[0]);
            } else {
                assert(j[i] == l[i - a.len() - 1]);
                assert(l.contains(l[i - a.len() - 1]));
            }
        }
    }
}

/// A slug neither starts nor ends with a dash, and holds no two dashes in a
/// row.
pub proof fn lemma_slug_shape(lower: Seq<char>)
    ensures
        ({
            let s = slug_of(lower);
            &&& s.len() > 0 ==> s[0] != '-' && s.last() != '-'
            &&& forall|i: int| 0 <= i < s.len() - 1 ==> !(#[trigger] s[i] == '-' && s[i + 1] == '-')
        }),
{
    let m = lower.map_values(|c: char| slug_char(c));
    lemma_dash_words(m);
    lemma_join_shape(dash_words(m));
}

/// A character that a slug of ASCII text keeps: a lowercase letter or a
/// digit.
pub open spec fn slug_letter(c: char) -> bool {
    ('a' <= c && c <= 'z') || ('0' <= c && c <= '9')
}

/// The words of a text of dashes and slug letters are made of slug letters.
proof fn lemma_dash_words_letters(s: Seq<char>)
    requires
        forall|i: int| 0 <= i < s.len() ==> #[trigger] s[i] == '-' || slug_letter(s[i]),
    ensures
        forall|k: int, j: int|
            0 <= k < dash_words(s).len() && 0 <= j < dash_words(s)[k].len() ==> slug_letter(
                #[trigger] dash_words(s)[k][j],
            ),
    decreases s.len(),
{
    if s.len() > 0 {
        let d = s.drop_last();
        assert forall|i: int| 0 <= i < d.len() implies #[trigger] d[i] == '-' || slug_letter(d[i]) by {
            assert(d[i] == s[i]);
        }
        lemma_dash_words_letters(d);
        lemma_dash_words(d);
        let w = dash_words(d);
        let c = s.last();
        assert(c == s[s.len() - 1]);
        if c != '-' && s.len() >= 2 && s[s.len() - 2] != '-' {
            assert(d.last() == s[s.len() - 2]);
            lemma_dash_words(s);
            let nw = w.update(w.len() - 1, w.last().push(c));
            assert forall|k: int, j: int| 0 <= k < nw.len() && 0 <= j < nw[k].len() implies slug_letter(
                #[trigger] nw[k][j],
            ) by {
                if k == w.len() - 1 && j < w.last().len() {
                    assert(nw[k][j] == w[k][j]);
                } else if k < w.len() - 1 {
                    assert(nw[k] == w[k]);
                }
            }
        } else if c != '-' {
            let nw = w.push(seq![c]);
            assert forall|k: int, j: int| 0 <= k < nw.len() && 0 <= j < nw[k].len() implies slug_letter(
                #[trigger] nw[k][j],
            ) by {
                if k < w.len() {
                    assert(nw[k] == w[k]);
                }
            }
        }
    }
}

/// Words of slug letters joined by dashes give dashes and slug letters.
proof fn lemma_join_letters(w: Seq<Seq<char>>)
    requires
        forall|k: int, j: int| 0 <= k < w.len() && 0 <= j < w[k].len() ==> slug_letter(#[trigger] w[k][j]),
    ensures
        forall|i: int|
            0 <= i < join(w, seq!['-']).len() ==> #[trigger] join(w, seq!['-'])[i] == '-' || slug_letter(
                join(w, seq!['-'])[i],
            ),
    decreases w.len(),
{
    if w.len() == 1 {
        assert forall|i: int| 0 <= i < join(w, seq!['-']).len() implies #[trigger] join(w, seq!['-'])[i] == '-'
            || slug_letter(join(w, seq!['-'])[i]) by {
            assert(join(w, seq!['-'])[i] == w[0][i]);
        }
    } else if w.len() > 1 {
        let init = w.drop_last();
        assert forall|k: int, j: int| 0 <= k < init.len() && 0 <= j < init[k].len() implies slug_letter(
            #[trigger] init[k][j],
        ) by {
            assert(init[k] == w[k]);
        }
        lemma_join_letters(init);
        let a = join(init, seq!['-']);
        let l = w.last();
        let jw = join(w, seq!['-']);
        assert(jw == a + seq!['-'] + l);
        assert forall|i: int| 0 <= i < jw.len() implies #[trigger] jw[i] == '-' || slug_letter(jw[i]) by {
            if i < a.len() {
                assert(jw[i] == a[i]);
            } else if i > a.len() {
                assert(jw[i] == w[w.len() - 1][i - a.len() - 1]);
            }
        }
    }
}

/// A dash-free word appended after a dash is one more word.
proof fn lemma_dash_words_after_dash(a: Seq<char>, x: Seq<char>)
    requires
        x.len() > 0,
        !x.contains('-'),
    ensures
        dash_words(a + seq!['-'] + x) == dash_words(a).push(x),
    decreases x.len(),
{
    let s = a + seq!['-'] + x;
    if x.len() == 1 {
        assert(s.drop_last() == a + seq!['-']);
        assert((a + seq!['-']).drop_last() == a);
        assert(x[0] != '-');
        assert(s[s.len() - 2] == '-');
        assert(s.last() == x[0]);
        assert(seq![s.last()] =~= x);
        assert(dash_words(a + seq!['-']) == dash_words(a));
        assert(dash_words(s) == dash_words(s.drop_last()).push(seq![s.last()]));
    } else {
        let x1 = x.drop_last();
        assert forall|i: int| 0 <= i < x1.len() implies x1[i] != '-' by {
            assert(x1[i] == x[i]);
        }
        lemma_dash_words_after_dash(a, x1);
        assert(s.drop_last() == a + seq!['-'] + x1);
        assert(s[s.len() - 2] == x[x.len() - 2]);
        assert(x[x.len() - 2] != '-');
        assert(x[x.len() - 1] != '-');
        let w = dash_words(a).push(x1);
        assert(s.last() == x.last());
        assert(x1.push(x.last()) =~= x);
        assert(w.last() == x1);
        assert(w.update(w.len() - 1, w.last().push(s.last())) =~= dash_words(a).push(x));
        assert(dash_words(s) == w.update(w.len() - 1, w.last().push(s.last())));
    }
}

/// A dash-free word is one word.
proof fn lemma_dash_words_word(x: Seq<char>)
    requires
        x.len() > 0,
        !x.contains('-'),
    ensures
        dash_words(x) == seq![x],
    decreases x.len(),
{
    if x.len() == 1 {
        assert(x.drop_last().len() == 0);
        assert(x[0] != '-');
        assert(x.last() == x[0]);
        assert(seq![x.last()] =~= x);
        assert(dash_words(x) == dash_words(x.drop_last()).push(seq![x.last()]));
    } else {
        let x1 = x.drop_last();
        assert forall|i: int| 0 <= i < x1.len() implies x1[i] != '-' by {
            assert(x1[i] == x[i]);
        }
        lemma_dash_words_word(x1);
        assert(x[x.len() - 2] != '-');
        assert(x[x.len() - 1] != '-');
        assert(x1.push(x.last()) =~= x);
        assert(seq![x1].update(0, x1.push(x.last())) =~= seq![x]);
        assert(dash_words(x) == seq![x1].update(0, x1.push(x.last())));
    }
}

/// Splitting dash-free, non-empty words joined by dashes gives the words.
proof fn lemma_dash_words_join(w: Seq<Seq<char>>)
    requires
        forall|k: int| 0 <= k < w.len() ==> #[trigger] w[k].len() > 0 && !w[k].contains('-'),
    ensures
        dash_words(join(w, seq!['-'])) == w,
    decreases w.len(),
{
    if w.len() == 1 {
        lemma_dash_words_word(w[0]);
        assert(seq![w[0]] =~= w);
    } else if w.len() > 1 {
        let init = w.drop_last();
        assert forall|k: int| 0 <= k < init.len() implies #[trigger] init[k].len() > 0 && !init[k].contains('-') by {
            assert(init[k] == w[k]);
        }
        lemma_dash_words_join(init);
        assert(w.last() == w[w.len() - 1]);
        lemma_dash_words_after_dash(join(init, seq!['-']), w.last());
        assert(init.push(w.last()) =~= w);
    }
}

/// Slugifying the slug of ASCII text changes nothing: the slug is made of
/// lowercase letters, digits and single inner dashes, which lowercasing and
/// slugifying keep.
pub proof fn lemma_slugify_idempotent(text: Seq<char>)
    requires
        crate::text::all_ascii(text),
    ensures
        slug_of(lowercase(slug_of(lowercase(text)))) == slug_of(lowercase(text)),
{
    let l = lowercase(text);
    let m = l.map_values(|c: char| slug_char(c));
    assert forall|i: int| 0 <= i < m.len() implies #[trigger] m[i] == '-' || slug_letter(m[i]) by {
        assert(l[i] == crate::text::ascii_lower(text[i]));
        assert(text[i] <= '\x7f');
    }
    lemma_dash_words(m);
    lemma_dash_words_letters(m);
    let w = dash_words(m);
    lemma_join_letters(w);
    let s1 = join(w, seq!['-']);
    assert(s1 == slug_of(l));
    assert(crate::text::all_ascii(s1)) by {
        assert forall|i: int| 0 <= i < s1.len() implies s1[i] <= '\x7f' by {
            assert(s1[i] == '-' || slug_letter(s1[i]));
        }
    }
    assert(lowercase(s1) =~= s1) by {
        assert forall|i: int| 0 <= i < s1.len() implies crate::text::ascii_lower(s1[i]) == s1[i] by {
            assert(s1[i] == '-' || slug_letter(s1[i]));
        }
    }
    assert(s1.map_values(|c: char| slug_char(c)) =~= s1) by {
        assert forall|i: int| 0 <= i < s1.len() implies slug_char(s1[i]) == s1[i] by {
            assert(s1[i] == '-' || slug_letter(s1[i]));
        }
    }
    lemma_dash_words_join(w);
}

/// The slug of an already lowercased heading.
pub fn slug_from_lowercase(lower: &str) -> (r: String)
    ensures
        r@ == slug_of(lower@),
{
    let l = chars_of(lower);
    let ghost m = l@.map_values(|c: char| slug_char(c));
    let mut result: Vec<char> = Vec::new();
    let mut prev_dash = false;
    let mut i: usize = 0;
    while i < l.len()
        invariant
            i <= l.len(),
            m == l@.map_values(|c: char| slug_char(c)),
            l@ == lower@,
            prev_dash <==> (i > 0 && m[i - 1] == '-'),
            prev_dash ==> result@ == (if dash_words(m.subrange(0, i as int)).len() > 0 {
                join(dash_words(m.subrange(0, i as int)), seq!['-']).push('-')
            } else {
                seq![]
            }),
            !prev_dash ==> result@ == join(dash_words(m.subrange(0, i as int)), seq!['-']),
        decreases l.len() - i,
    {
        let ghost p = m.subrange(0, i as int);
        let ghost w = dash_words(p);
        proof {
            lemma_dash_words(p);
            lemma_join_nonempty(w);
        }
        let ghost np = m.subrange(0, i + 1);
        assert(np.drop_last() =~= p);
        assert(np.last() == m[i as int]);
        let c = if is_alphanumeric(l[i]) {
            l[i]
        } else {
            '-'
        };
        assert(c == m[i as int]);
        if c == '-' {
            if !prev_dash && result.len() > 0 {
                result.push('-');
            }
            prev_dash = true;
        } else {
            if prev_dash {
                proof {
                    if w.len() > 0 {
                        lemma_join_push(w, seq!['-'], seq![c]);
                    }
                }
                assert(dash_words(np) == w.push(seq![c]));
            } else if i > 0 {
                assert(np[np.len() - 2] == m[i - 1]);
                proof {
                    lemma_join_extend_last(w, c);
                }
            } else {
                assert(dash_words(np) == w.push(seq![c]));
                assert(w.push(seq![c]).len() == 1);
            }
            result.push(c);
            prev_dash = false;
        }
        i = i + 1;
        assert(result@ =~= (if prev_dash {
            if dash_words(np).len() > 0 {
                join(dash_words(np), seq!['-']).push('-')
            } else {
                seq![]
            }
        } else {
            join(dash_words(np), seq!['-'])
        }));
    }
    assert(m.subrange(0, i as int) =~= m);
    proof {
        lemma_dash_words(m);
        lemma_join_nonempty(dash_words(m));
    }
    if result.len() > 0 && result[result.len() - 1] == '-' {
        result.pop();
        assert(result@ =~= join(dash_words(m), seq!['-']));
    }
    string_of(result.as_slice())
}

/// The anchor slug of a heading text: lowercased, every non-alphanumeric
/// character a dash, dashes collapsed and trimmed.
pub fn slugify(text: &str) -> (r: String)
    ensures
        r@ == slug_of(lowercase(text@)),
{
    let lower = to_lowercase(text);
    slug_from_lowercase(lower.as_str())
}

/// `base`, a dash and the number `n`.
pub open spec fn numbered(base: Seq<char>, n: nat) -> Seq<char> {
    base + seq!['-'] + dec(n)
}

/// The least `n >= 1` for which `numbered(base, n)` is not in `existing`.
pub open spec fn first_free(base: Seq<char>, existing: Seq<Seq<char>>) -> nat {
    choose|n: nat|
        n >= 1 && !existing.contains(numbered(base, n)) && forall|m: nat|
            1 <= m < n ==> existing.contains(#[trigger] numbered(base, m))
}

/// The anchor that a heading with slug `base` gets when `existing` are taken:
/// `heading-` and the count of anchors for an empty slug, else the slug when
/// free, else the slug numbered with the least free number from 1.
pub open spec fn unique_slug(base: Seq<char>, existing: Seq<Seq<char>>) -> Seq<char> {
    if base.len() == 0 {
        "heading-"@ + dec(existing.len())
    } else if !existing.contains(base) {
        base
    } else {
        numbered(base, first_free(base, existing))
    }
}

proof fn lemma_numbered_injective(base: Seq<char>, a: nat, b: nat)
    requires
        numbered(base, a) == numbered(base, b),
    ensures
        a == b,
{
    let k = base.len() + 1;
    assert(numbered(base, a).subrange(k as int, numbered(base, a).len() as int) =~= dec(a));
    assert(numbered(base, b).subrange(k as int, numbered(base, b).len() as int) =~= dec(b));
    lemma_dec_injective(a, b);
}

/// When the numbers 1 to `k` all give taken anchors, `k` is at most the
/// number of anchors taken.
proof fn lemma_taken_bound(base: Seq<char>, existing: Seq<Seq<char>>, k: nat)
    requires
        forall|m: nat| 1 <= m <= k ==> existing.contains(#[trigger] numbered(base, m)),
    ensures
        k <= existing.len(),
{
    let cands = Seq::new(k, |i: int| numbered(base, (i + 1) as nat));
    assert forall|i: int, j: int| 0 <= i < cands.len() && 0 <= j < cands.len() && i != j implies cands[i]
        != cands[j] by {
        if cands[i] == cands[j] {
            lemma_numbered_injective(base, (i + 1) as nat, (j + 1) as nat);
        }
    }
    assert(cands.no_duplicates());
    cands.unique_seq_to_set();
    existing.lemma_cardinality_of_set();
    assert forall|x: Seq<char>| cands.to_set().contains(x) implies existing.to_set().contains(x) by {
        let i = choose|i: int| 0 <= i < cands.len() && cands[i] == x;
        assert(existing.contains(numbered(base, (i + 1) as nat)));
    }
    vstd::seq_lib::seq_to_set_is_finite(existing);
    vstd::set_lib::lemma_len_subset(cands.to_set(), existing.to_set());
}

/// Some number from `n` on gives a free anchor, the least of them above
/// all taken ones below it, when the numbers below `n` all give taken ones.
proof fn lemma_free_number_from(base: Seq<char>, existing: Seq<Seq<char>>, n: nat)
    requires
        n >= 1,
        forall|m: nat| 1 <= m < n ==> existing.contains(#[trigger] numbered(base, m)),
    ensures
        exists|f: nat|
            f >= 1 && !existing.contains(numbered(base, f)) && forall|m: nat|
                1 <= m < f ==> existing.contains(#[trigger] numbered(base, m)),
    decreases existing.len() + 1 - n,
{
    if !existing.contains(numbered(base, n)) {
        assert(n >= 1 && !existing.contains(numbered(base, n)) && forall|m: nat|
            1 <= m < n ==> existing.contains(#[trigger] numbered(base, m)));
    } else {
        lemma_taken_bound(base, existing, n);
        lemma_free_number_from(base, existing, n + 1);
    }
}

/// The anchor that a heading with a non-empty slug gets is not taken yet.
pub proof fn lemma_unique_slug_fresh(base: Seq<char>, existing: Seq<Seq<char>>)
    requires
        base.len() > 0,
    ensures
        !existing.contains(unique_slug(base, existing)),
{
    if existing.contains(base) {
        lemma_free_number_from(base, existing, 1);
    }
}

/// Does `existing` hold `s`?
fn contains_string(existing: &[String], s: &Vec<char>) -> (b: bool)
    ensures
        b == strings_view(existing@).contains(s@),
{
    let st = string_of(s.as_slice());
    let mut i: usize = 0;
    while i < existing.len()
        invariant
            i <= existing.len(),
            st@ == s@,
            forall|j: int| 0 <= j < i ==> existing@[j]@ != s@,
        decreases existing.len() - i,
    {
        if existing[i] == st {
            assert(strings_view(existing@)[i as int] == s@);
            return true;
        }
        i = i + 1;
    }
    proof {
        if strings_view(existing@).contains(s@) {
            let j = choose|j: int| 0 <= j < existing@.len() && strings_view(existing@)[j] == s@;
            assert(existing@[j]@ == s@);
        }
    }
    false
}

/// The anchor for a heading with slug `base` (already slugified) when
/// `existing` anchors are taken.
pub fn unique_slug_of(base: &str, existing: &[String]) -> (r: String)
    ensures
        r@ == unique_slug(base@, strings_view(existing@)),
{
    let ghost ex = strings_view(existing@);
    let b = chars_of(base);
    if b.len() == 0 {
        let mut id = chars_of("heading-");
        push_all(&mut id, dec_chars(existing.len() as u128).as_slice());
        return string_of(id.as_slice());
    }
    if !contains_string(existing, &b) {
        return string_of(b.as_slice());
    }
    let mut n: u128 = 1;
    loop
        invariant
            b@ == base@,
            ex == strings_view(existing@),
            b@.len() > 0,
            ex.contains(b@),
            1 <= n,
            forall|m: nat| 1 <= m < n ==> ex.contains(#[trigger] numbered(b@, m)),
            n <= existing.len() + 1,
        decreases existing.len() + 1 - n,
    {
        let mut cand = b.clone();
        cand.push('-');
        push_all(&mut cand, dec_chars(n).as_slice());
        assert(cand@ =~= numbered(b@, n as nat));
        if !contains_string(existing, &cand) {
            proof {
                let f = first_free(b@, ex);
                assert(n >= 1 && !ex.contains(numbered(b@, n as nat)) && forall|m: nat|
                    1 <= m < n ==> ex.contains(#[trigger] numbered(b@, m)));
                assert(f >= 1 && !ex.contains(numbered(b@, f)) && forall|m: nat|
                    1 <= m < f ==> ex.contains(#[trigger] numbered(b@, m)));
                if f < n {
                    assert(ex.contains(numbered(b@, f)));
                } else if f > n {
                    assert(ex.contains(numbered(b@, n as nat)));
                }
            }
            return string_of(cand.as_slice());
        }
        proof {
            lemma_taken_bound(b@, ex, n as nat);
        }
        n = n + 1;
    }
}

/// The anchor for a heading text when `existing` anchors are taken: its slug,
/// made unique by a number when taken.
pub fn slugify_unique(text: &str, existing: &[String]) -> (r: String)
    ensures
        r@ == unique_slug(slug_of(lowercase(text@)), strings_view(existing@)),
{
    let base = slugify(text);
    unique_slug_of(base.as_str(), existing)
}


// ---------------------------------------------------------------- headings

/// An entry of the table of contents.
#[derive(Debug, Clone, PartialEq)]
pub struct TocEntry {
    pub level: u8,
    pub title: String,
    pub anchor_id: String,
}

/// The value of a table of contents entry.
pub struct TocEntryView {
    pub level: u8,
    pub title: Seq<char>,
    pub anchor_id: Seq<char>,
}

impl View for TocEntry {
    type V = TocEntryView;

    open spec fn view(&self) -> TocEntryView {
        TocEntryView { level: self.level, title: self.title@, anchor_id: self.anchor_id@ }
    }
}

/// The table of contents entries of a sequence, by value.
pub open spec fn toc_view(v: Seq<TocEntry>) -> Seq<TocEntryView> {
    v.map_values(|e: TocEntry| e@)
}

/// A markdown event as the heading logic reads it. Every event that the
/// logic does not read is carried through as `Other`.
pub enum MdEvent {
    /// The start of a heading of the given level, with its anchor once known.
    HeadingStart { level: u8, id: Option<String> },
    /// The end of a heading of the given level.
    HeadingEnd(u8),
    /// A text node.
    Text(String),
    /// An inline code node.
    Code(String),
    /// Any other event, carried through unchanged.
    Other(pulldown_cmark::Event<'static>),
}

/// A markdown event by value. An `Other` event is carried as it is: the
/// heading logic does not look into it, the rendering does.
pub enum MdEventView {
    HeadingStart { level: u8, id: Option<Seq<char>> },
    HeadingEnd(u8),
    Text(Seq<char>),
    Code(Seq<char>),
    Other(pulldown_cmark::Event<'static>),
}

impl View for MdEvent {
    type V = MdEventView;

    open spec fn view(&self) -> MdEventView {
        match self {
            MdEvent::HeadingStart { level, id } => MdEventView::HeadingStart {
                level: *level,
                id: match id {
                    Some(s) => Some(s@),
                    None => None,
                },
            },
            MdEvent::HeadingEnd(l) => MdEventView::HeadingEnd(*l),
            MdEvent::Text(t) => MdEventView::Text(t@),
            MdEvent::Code(c) => MdEventView::Code(c@),
            MdEvent::Other(e) => MdEventView::Other(*e),
        }
    }
}

/// The events of a sequence, by value.
pub open spec fn events_view(v: Seq<MdEvent>) -> Seq<MdEventView> {
    v.map_values(|e: MdEvent| e@)
}

/// What the scan over the events has gathered so far.
pub struct HeadingScan {
    /// The table of contents.
    pub toc: Seq<TocEntryView>,
    /// The anchors given so far.
    pub used: Seq<Seq<char>>,
    /// The events passed on, heading starts with their anchors.
    pub out: Seq<MdEventView>,
    /// Between a heading start and its end.
    pub in_heading: bool,
    /// The level of the last heading start.
    pub level: u8,
    /// The text of the last heading.
    pub text: Seq<char>,
}

/// The position of the last heading start in `out`.
pub open spec fn last_heading_start(out: Seq<MdEventView>) -> Option<nat>
    decreases out.len(),
{
    if out.len() == 0 {
        None
    } else if out.last() is HeadingStart {
        Some((out.len() - 1) as nat)
    } else {
        last_heading_start(out.drop_last())
    }
}

/// `out` with its last heading start given level `level` and anchor `id`.
pub open spec fn with_anchor(out: Seq<MdEventView>, level: u8, id: Seq<char>) -> Seq<MdEventView> {
    match last_heading_start(out) {
        Some(j) => out.update(j as int, MdEventView::HeadingStart { level: level, id: Some(id) }),
        None => out,
    }
}

/// One event of the scan: a heading start opens a heading, text and code in
/// a heading make its title, and a heading end adds the entry with a fresh
/// anchor, which goes onto the heading start.
pub open spec fn scan_step(st: HeadingScan, e: MdEventView) -> HeadingScan {
    match e {
        MdEventView::HeadingStart { level, id } => HeadingScan {
            toc: st.toc,
            used: st.used,
            out: st.out.push(e),
            in_heading: true,
            level: level,
            text: seq![],
        },
        MdEventView::HeadingEnd(l) => {
            let id = unique_slug(slug_of(lowercase(st.text)), st.used);
            HeadingScan {
                toc: st.toc.push(TocEntryView { level: st.level, title: st.text, anchor_id: id }),
                used: st.used.push(id),
                out: with_anchor(st.out, l, id).push(e),
                in_heading: false,
                level: st.level,
                text: st.text,
            }
        },
        MdEventView::Text(t) => HeadingScan {
            toc: st.toc,
            used: st.used,
            out: st.out.push(e),
            in_heading: st.in_heading,
            level: st.level,
            text: if st.in_heading {
                st.text + t
            } else {
                st.text
            },
        },
        MdEventView::Code(c) => HeadingScan {
            toc: st.toc,
            used: st.used,
            out: st.out.push(e),
            in_heading: st.in_heading,
            level: st.level,
            text: if st.in_heading {
                st.text + c
            } else {
                st.text
            },
        },
        MdEventView::Other(_) => HeadingScan {
            toc: st.toc,
            used: st.used,
            out: st.out.push(e),
            in_heading: st.in_heading,
            level: st.level,
            text: st.text,
        },
    }
}

/// The scan over all of `events`.
pub open spec fn heading_scan(events: Seq<MdEventView>) -> HeadingScan
    decreases events.len(),
{
    if events.len() == 0 {
        HeadingScan {
            toc: seq![],
            used: seq![],
            out: seq![],
            in_heading: false,
            level: 0,
            text: seq![],
        }
    } else {
        scan_step(heading_scan(events.drop_last()), events.last())
    }
}

/// The anchors that the scan has given are those of its table of contents.
proof fn lemma_scan_used(events: Seq<MdEventView>)
    ensures
        heading_scan(events).used == heading_scan(events).toc.map_values(
            |e: TocEntryView| e.anchor_id,
        ),
    decreases events.len(),
{
    if events.len() > 0 {
        lemma_scan_used(events.drop_last());
        let st = heading_scan(events.drop_last());
        let f = |e: TocEntryView| e.anchor_id;
        match events.last() {
            MdEventView::HeadingEnd(l) => {
                let id = unique_slug(slug_of(lowercase(st.text)), st.used);
                let e = TocEntryView { level: st.level, title: st.text, anchor_id: id };
                assert(st.toc.push(e).map_values(f) =~= st.toc.map_values(f).push(id));
            },
            _ => {},
        }
    }
}

/// Headings get distinct anchors: the anchor of a heading whose text gives
/// a non-empty slug differs from the anchor of every earlier heading.
pub proof fn lemma_anchors_distinct(events: Seq<MdEventView>)
    ensures
        ({
            let toc = heading_scan(events).toc;
            forall|i: int, j: int|
                0 <= i < j < toc.len() && slug_of(lowercase(toc[j].title)).len() > 0 ==> toc[i].anchor_id
                    != toc[j].anchor_id
        }),
    decreases events.len(),
{
    if events.len() > 0 {
        lemma_anchors_distinct(events.drop_last());
        lemma_scan_used(events.drop_last());
        let st = heading_scan(events.drop_last());
        match events.last() {
            MdEventView::HeadingEnd(l) => {
                let base = slug_of(lowercase(st.text));
                let id = unique_slug(base, st.used);
                let toc = heading_scan(events).toc;
                assert(toc == st.toc.push(TocEntryView { level: st.level, title: st.text, anchor_id: id }));
                if base.len() > 0 {
                    lemma_unique_slug_fresh(base, st.used);
                }
                assert forall|i: int, j: int|
                    0 <= i < j < toc.len() && slug_of(lowercase(toc[j].title)).len() > 0 implies toc[i].anchor_id
                        != toc[j].anchor_id by {
                    if j == toc.len() - 1 {
                        assert(st.used[i] == st.toc[i].anchor_id);
                        assert(st.used.contains(st.toc[i].anchor_id));
                    } else {
                        assert(toc[i] == st.toc[i] && toc[j] == st.toc[j]);
                    }
                }
            },
            _ => {},
        }
    }
}

proof fn lemma_last_heading_start(out: Seq<MdEventView>)
    ensures
        match last_heading_start(out) {
            Some(j) => j < out.len() && out[j as int] is HeadingStart,
            None => true,
        },
    decreases out.len(),
{
    if out.len() > 0 && !(out.last() is HeadingStart) {
        lemma_last_heading_start(out.drop_last());
    }
}

/// Gives each heading an anchor made from its text and collects the table
/// of contents. Heading starts get their anchor (and the level of the heading
/// end); every other event is passed on unchanged.
pub fn extract_headings_and_inject_ids(events: Vec<MdEvent>) -> (r: (Vec<MdEvent>, Vec<TocEntry>))
    ensures
        events_view(r.0@) == heading_scan(events_view(events@)).out,
        toc_view(r.1@) == heading_scan(events_view(events@)).toc,
        r.0.len() == events.len(),
        forall|i: int|
            0 <= i < events.len() && !(events@[i]@ is HeadingStart) ==> r.0@[i] == events@[i],
{
    let ghost ev = events@;
    let ghost all = events_view(events@);
    let n = events.len();
    // Reverse the events, so that popping gives them in order.
    let mut rest = events;
    let mut rev: Vec<MdEvent> = Vec::new();
    while rest.len() > 0
        invariant
            rest.len() + rev.len() == n,
            ev.len() == n,
            rest@ == ev.subrange(0, rest.len() as int),
            forall|k: int| 0 <= k < rev.len() ==> rev@[k] == ev[n - 1 - k],
        decreases rest.len(),
    {
        let e = rest.pop().unwrap();
        rev.push(e);
    }
    let mut out: Vec<MdEvent> = Vec::new();
    let mut toc: Vec<TocEntry> = Vec::new();
    let mut used: Vec<String> = Vec::new();
    let mut in_heading = false;
    let mut heading_level: u8 = 0;
    let mut heading_text: Vec<char> = Vec::new();
    let mut i: usize = 0;
    assert(all.subrange(0, 0) =~= Seq::<MdEventView>::empty());
    while i < n
        invariant
            i <= n,
            ev.len() == n,
            all == events_view(ev),
            rev.len() == n - i,
            forall|k: int| 0 <= k < rev.len() ==> rev@[k] == ev[n - 1 - k],
            out.len() == i,
            used.len() <= i,
            ({
                let st = heading_scan(all.subrange(0, i as int));
                &&& events_view(out@) == st.out
                &&& toc_view(toc@) == st.toc
                &&& strings_view(used@) == st.used
                &&& in_heading == st.in_heading
                &&& heading_level == st.level
                &&& heading_text@ == st.text
            }),
            forall|k: int| 0 <= k < i && !(ev[k]@ is HeadingStart) ==> out@[k] == ev[k],
            forall|k: int| 0 <= k < i ==> (out@[k]@ is HeadingStart <==> ev[k]@ is HeadingStart),
        decreases n - i,
    {
        let ghost pre = all.subrange(0, i as int);
        let ghost st = heading_scan(pre);
        assert(all.subrange(0, i + 1).drop_last() =~= pre);
        assert(all.subrange(0, i + 1).last() == ev[i as int]@);
        let event = rev.pop().unwrap();
        assert(event == ev[i as int]);
        let ghost ov = events_view(out@);
        match event {
            MdEvent::HeadingStart { level, id } => {
                in_heading = true;
                heading_level = level;
                heading_text = Vec::new();
                out.push(MdEvent::HeadingStart { level, id });
                assert(events_view(out@) =~= ov.push(ev[i as int]@));
            },
            MdEvent::HeadingEnd(lvl) => {
                in_heading = false;
                let text_str = string_of(heading_text.as_slice());
                let anchor_id = slugify_unique(text_str.as_str(), used.as_slice());
                let ghost idv = anchor_id@;
                // Find the last heading start among the events passed on.
                let mut j = out.len();
                assert(ov.subrange(0, j as int) =~= ov);
                while j > 0 && !matches!(out[j - 1], MdEvent::HeadingStart { .. })
                    invariant
                        j <= out.len(),
                        ov == events_view(out@),
                        last_heading_start(ov) == last_heading_start(ov.subrange(0, j as int)),
                    decreases j,
                {
                    assert(ov.subrange(0, j as int).drop_last() =~= ov.subrange(0, j - 1));
                    assert(ov.subrange(0, j as int).last() == out@[j - 1]@);
                    j = j - 1;
                }
                if j > 0 {
                    assert(ov.subrange(0, j as int).last() == out@[j - 1]@);
                    assert(last_heading_start(ov) == Some((j - 1) as nat));
                    let aid = string_of(chars_of(anchor_id.as_str()).as_slice());
                    out.set(j - 1, MdEvent::HeadingStart { level: lvl, id: Some(aid) });
                    assert(events_view(out@) =~= with_anchor(ov, lvl, idv));
                } else {
                    assert(ov.subrange(0, 0) =~= Seq::<MdEventView>::empty());
                    assert(last_heading_start(ov) is None);
                    assert(events_view(out@) =~= with_anchor(ov, lvl, idv));
                }
                let ghost ov2 = events_view(out@);
                out.push(MdEvent::HeadingEnd(lvl));
                assert(events_view(out@) =~= ov2.push(ev[i as int]@));
                let ghost tv = toc_view(toc@);
                toc.push(
                    TocEntry {
                        level: heading_level,
                        title: string_of(heading_text.as_slice()),
                        anchor_id: string_of(chars_of(anchor_id.as_str()).as_slice()),
                    },
                );
                assert(toc_view(toc@) =~= tv.push(
                    TocEntryView { level: heading_level, title: heading_text@, anchor_id: idv },
                ));
                let ghost uv = strings_view(used@);
                used.push(anchor_id);
                assert(strings_view(used@) =~= uv.push(idv));
            },
            MdEvent::Text(t) => {
                if in_heading {
                    push_all(&mut heading_text, chars_of(t.as_str()).as_slice());
                }
                out.push(MdEvent::Text(t));
                assert(events_view(out@) =~= ov.push(ev[i as int]@));
            },
            MdEvent::Code(c) => {
                if in_heading {
                    push_all(&mut heading_text, chars_of(c.as_str()).as_slice());
                }
                out.push(MdEvent::Code(c));
                assert(events_view(out@) =~= ov.push(ev[i as int]@));
            },
            MdEvent::Other(e) => {
                out.push(MdEvent::Other(e));
                assert(events_view(out@) =~= ov.push(ev[i as int]@));
            },
        }
        i = i + 1;
    }
    assert(all.subrange(0, n as int) =~= all);
    (out, toc)
}


// ---------------------------------------------------------------- section numbers

/// The levels of a sequence of table of contents entries.
pub open spec fn levels_of(entries: Seq<TocEntry>) -> Seq<u8> {
    entries.map_values(|e: TocEntry| e.level)
}

/// Is a heading of level `l` numbered when numbering starts at `start`?
pub open spec fn is_numbered(l: u8, start: u8) -> bool {
    start <= l && l - start < 6
}

/// The six section counters after the headings of levels `levels`: a
/// numbered heading at depth `d` counts one more at `d` and resets the
/// counters below it.
pub open spec fn counters_after(levels: Seq<u8>, start: u8) -> Seq<nat>
    decreases levels.len(),
{
    if levels.len() == 0 {
        seq![0nat, 0nat, 0nat, 0nat, 0nat, 0nat]
    } else {
        let c = counters_after(levels.drop_last(), start);
        let l = levels.last();
        if !is_numbered(l, start) {
            c
        } else {
            let d = l - start;
            Seq::new(
                6,
                |k: int|
                    if k < d {
                        c[k]
                    } else if k == d {
                        c[k] + 1
                    } else {
                        0
                    },
            )
        }
    }
}

/// The section number of heading `i`: the counters down to its depth, joined
/// by dots; empty for a heading that is not numbered.
pub open spec fn section_number(levels: Seq<u8>, start: u8, i: int) -> Seq<char> {
    let l = levels[i];
    if !is_numbered(l, start) {
        seq![]
    } else {
        let c = counters_after(levels.subrange(0, i + 1), start);
        join(Seq::new((l - start + 1) as nat, |k: int| dec(c[k])), seq!['.'])
    }
}

proof fn lemma_counters_after(levels: Seq<u8>, start: u8)
    ensures
        counters_after(levels, start).len() == 6,
        forall|k: int| 0 <= k < 6 ==> #[trigger] counters_after(levels, start)[k] <= levels.len(),
    decreases levels.len(),
{
    if levels.len() > 0 {
        lemma_counters_after(levels.drop_last(), start);
    }
}

/// A numbered heading counts one more at its own depth, keeps the counters
/// above its depth and sets every counter below it back to zero.
pub proof fn lemma_heading_resets_deeper(levels: Seq<u8>, l: u8, start: u8)
    requires
        is_numbered(l, start),
    ensures
        ({
            let before = counters_after(levels, start);
            let after = counters_after(levels.push(l), start);
            let d = l - start;
            &&& after.len() == 6
            &&& after[d] == before[d] + 1
            &&& forall|k: int| 0 <= k < d ==> after[k] == before[k]
            &&& forall|k: int| d < k < 6 ==> after[k] == 0
        }),
{
    assert(levels.push(l).drop_last() == levels);
    lemma_counters_after(levels, start);
}

/// A numbered heading right below a shallower numbered heading is numbered
/// with the counters of that heading down to its depth, zeros for the
/// depths between, and 1 at its own depth (`# D` then `### E` gives `2.0.1`
/// when `D` is `2`).
pub proof fn lemma_deeper_heading_numbering(levels: Seq<u8>, i: int, start: u8)
    requires
        0 <= i,
        i + 1 < levels.len(),
        is_numbered(levels[i], start),
        is_numbered(levels[i + 1], start),
        levels[i] < levels[i + 1],
    ensures
        ({
            let above = counters_after(levels.subrange(0, i + 1), start);
            let c = counters_after(levels.subrange(0, i + 2), start);
            let d = levels[i] - start;
            let e = levels[i + 1] - start;
            &&& forall|k: int| 0 <= k <= d ==> c[k] == above[k]
            &&& forall|k: int| d < k < e ==> c[k] == 0
            &&& c[e] == 1
        }),
{
    let p = levels.subrange(0, i);
    assert(levels.subrange(0, i + 1) == p.push(levels[i]));
    assert(levels.subrange(0, i + 2) == p.push(levels[i]).push(levels[i + 1]));
    lemma_heading_resets_deeper(p, levels[i], start);
    lemma_heading_resets_deeper(p.push(levels[i]), levels[i + 1], start);
}

/// `x` and `y` agree on their first `m` counters.
pub open spec fn agree(x: Seq<nat>, y: Seq<nat>, m: int) -> bool {
    forall|k: int| 0 <= k < m ==> x[k] == y[k]
}

/// On their first `m` counters `x` comes before `y` in lexicographic order.
pub open spec fn lex_below(x: Seq<nat>, y: Seq<nat>, m: int) -> bool {
    exists|p: int| 0 <= p < m && agree(x, y, p) && #[trigger] x[p] < y[p]
}

/// On their first `m` counters `x` comes at or before `y`.
pub open spec fn lex_at_most(x: Seq<nat>, y: Seq<nat>, m: int) -> bool {
    agree(x, y, m) || lex_below(x, y, m)
}

proof fn lemma_lex_chain(x: Seq<nat>, y: Seq<nat>, z: Seq<nat>, m: int)
    requires
        lex_at_most(x, y, m),
        lex_at_most(y, z, m),
    ensures
        lex_at_most(x, z, m),
        lex_below(y, z, m) ==> lex_below(x, z, m),
        lex_below(x, y, m) ==> lex_below(x, z, m),
{
    if agree(x, y, m) && agree(y, z, m) {
        assert(agree(x, z, m));
        if lex_below(y, z, m) {
            let q = choose|q: int| 0 <= q < m && agree(y, z, q) && #[trigger] y[q] < z[q];
            assert(x[q] == y[q]);
            assert(agree(x, z, q));
        }
    } else if agree(x, y, m) {
        let q = choose|q: int| 0 <= q < m && agree(y, z, q) && #[trigger] y[q] < z[q];
        assert(x[q] == y[q]);
        assert(agree(x, z, q));
    } else if agree(y, z, m) {
        let p = choose|p: int| 0 <= p < m && agree(x, y, p) && #[trigger] x[p] < y[p];
        assert(y[p] == z[p]);
        assert(agree(x, z, p));
    } else {
        let p = choose|p: int| 0 <= p < m && agree(x, y, p) && #[trigger] x[p] < y[p];
        let q = choose|q: int| 0 <= q < m && agree(y, z, q) && #[trigger] y[q] < z[q];
        if p <= q {
            if p < q {
                assert(y[p] == z[p]);
            }
            assert(agree(x, z, p));
            assert(x[p] < z[p]);
        } else {
            assert(x[q] == y[q]);
            assert(agree(x, z, q));
            assert(x[q] < z[q]);
        }
    }
}

/// One more heading moves the first `m` counters forward or leaves them,
/// and a numbered heading of depth below `m` moves them forward.
proof fn lemma_counters_step(levels: Seq<u8>, start: u8, m: int)
    requires
        levels.len() > 0,
        0 < m <= 6,
    ensures
        lex_at_most(counters_after(levels.drop_last(), start), counters_after(levels, start), m),
        is_numbered(levels.last(), start) && levels.last() - start < m ==> lex_below(
            counters_after(levels.drop_last(), start),
            counters_after(levels, start),
            m,
        ),
        is_numbered(levels.last(), start) && levels.last() - start == m - 1 ==> agree(
            counters_after(levels.drop_last(), start),
            counters_after(levels, start),
            m - 1,
        ),
{
    lemma_counters_after(levels.drop_last(), start);
    let c = counters_after(levels.drop_last(), start);
    let n = counters_after(levels, start);
    let l = levels.last();
    if is_numbered(l, start) {
        let d = l - start;
        if d < m {
            assert(agree(c, n, d));
            assert(c[d] < n[d]);
        } else {
            assert(agree(c, n, m));
        }
    } else {
        assert(agree(c, n, m));
    }
}

/// After a numbered heading of depth `d`, the first `d + 1` counters never
/// go back.
proof fn lemma_counters_forward(levels: Seq<u8>, start: u8, i: int, k: int)
    requires
        0 <= i < k <= levels.len(),
        is_numbered(levels[i], start),
    ensures
        lex_at_most(
            counters_after(levels.subrange(0, i + 1), start),
            counters_after(levels.subrange(0, k), start),
            levels[i] - start + 1,
        ),
    decreases k - i,
{
    let m = levels[i] - start + 1;
    if k == i + 1 {
        let c = counters_after(levels.subrange(0, i + 1), start);
        assert(agree(c, c, m));
    } else {
        lemma_counters_forward(levels, start, i, k - 1);
        let p = levels.subrange(0, k);
        assert(p.drop_last() =~= levels.subrange(0, k - 1));
        lemma_counters_step(p, start, m);
        lemma_lex_chain(
            counters_after(levels.subrange(0, i + 1), start),
            counters_after(levels.subrange(0, k - 1), start),
            counters_after(p, start),
            m,
        );
    }
}

/// Different numbered headings get different section numbers.
pub proof fn lemma_section_numbers_distinct(levels: Seq<u8>, start: u8, i: int, j: int)
    requires
        0 <= i < j < levels.len(),
        is_numbered(levels[i], start),
        is_numbered(levels[j], start),
    ensures
        section_number(levels, start, i) != section_number(levels, start, j),
{
    let di = levels[i] - start;
    let dj = levels[j] - start;
    let ci = counters_after(levels.subrange(0, i + 1), start);
    let cj = counters_after(levels.subrange(0, j + 1), start);
    let pi = Seq::new((di + 1) as nat, |k: int| dec(ci[k]));
    let pj = Seq::new((dj + 1) as nat, |k: int| dec(cj[k]));
    assert forall|k: int| 0 <= k < pi.len() implies !(#[trigger] pi[k]).contains('.') by {
        crate::text::lemma_dec_no_dot(ci[k]);
    }
    assert forall|k: int| 0 <= k < pj.len() implies !(#[trigger] pj[k]).contains('.') by {
        crate::text::lemma_dec_no_dot(cj[k]);
    }
    if section_number(levels, start, i) == section_number(levels, start, j) {
        crate::text::lemma_join_injective(pi, pj, '.');
        assert(pi.len() == pj.len());
        // Same depth: the later heading's counters are strictly ahead.
        let m = di + 1;
        lemma_counters_forward(levels, start, i, j);
        let q = levels.subrange(0, j + 1);
        assert(q.drop_last() =~= levels.subrange(0, j));
        assert(q.last() == levels[j]);
        lemma_counters_step(q, start, m);
        lemma_lex_chain(ci, counters_after(levels.subrange(0, j), start), cj, m);
        let p = choose|p: int| 0 <= p < m && agree(ci, cj, p) && #[trigger] ci[p] < cj[p];
        assert(pi[p] == pj[p]);
        crate::text::lemma_dec_injective(ci[p], cj[p]);
    }
}

/// Compute hierarchical section numbers for TOC entries.
/// Headings below `start_level` get empty strings.
/// Returns a parallel vec of number strings ("1", "1.1", "1.1.2", etc.).
pub fn compute_section_numbers(entries: &[TocEntry], start_level: u8) -> (r: Vec<String>)
    ensures
        r.len() == entries.len(),
        forall|i: int|
            0 <= i < entries.len() ==> #[trigger] r@[i]@ == section_number(
                levels_of(entries@),
                start_level,
                i,
            ),
{
    let ghost levels = levels_of(entries@);
    let mut counters: Vec<u64> = Vec::new();
    let mut k: usize = 0;
    while k < 6
        invariant
            k <= 6,
            counters.len() == k,
            forall|j: int| 0 <= j < k ==> counters@[j] == 0,
        decreases 6 - k,
    {
        counters.push(0);
        k = k + 1;
    }
    assert(levels.subrange(0, 0) =~= Seq::<u8>::empty());
    assert(counters@.map_values(|x: u64| x as nat) =~= counters_after(levels.subrange(0, 0), start_level));
    let mut numbers: Vec<String> = Vec::new();
    let mut i: usize = 0;
    while i < entries.len()
        invariant
            i <= entries.len(),
            levels == levels_of(entries@),
            counters.len() == 6,
            counters@.map_values(|x: u64| x as nat) == counters_after(
                levels.subrange(0, i as int),
                start_level,
            ),
            numbers.len() == i,
            forall|j: int|
                0 <= j < i ==> #[trigger] numbers@[j]@ == section_number(levels, start_level, j),
        decreases entries.len() - i,
    {
        let ghost pre = levels.subrange(0, i as int);
        let ghost now = levels.subrange(0, i + 1);
        assert(now.drop_last() =~= pre);
        assert(now.last() == entries@[i as int].level);
        proof {
            lemma_counters_after(pre, start_level);
        }
        let level = entries[i].level;
        if level < start_level || level - start_level >= 6 {
            let e: Vec<char> = Vec::new();
            assert(e@ =~= Seq::<char>::empty());
            numbers.push(string_of(e.as_slice()));
            assert(numbers@[i as int]@ == section_number(levels, start_level, i as int));
        } else {
            let depth = (level - start_level) as usize;
            let ghost c = counters@.map_values(|x: u64| x as nat);
            assert(c[depth as int] <= i);
            let v = counters[depth] + 1;
            counters.set(depth, v);
            let mut k = depth + 1;
            while k < 6
                invariant
                    depth < k <= 6,
                    counters.len() == 6,
                    counters@[depth as int] == v,
                    c.len() == 6,
                    forall|j: int| 0 <= j < depth ==> counters@[j] as nat == c[j],
                    forall|j: int| depth < j < k ==> counters@[j] == 0,
                decreases 6 - k,
            {
                counters.set(k, 0);
                k = k + 1;
            }
            assert(counters@.map_values(|x: u64| x as nat) =~= counters_after(now, start_level));
            let mut parts: Vec<Vec<char>> = Vec::new();
            let mut j: usize = 0;
            while j <= depth
                invariant
                    j <= depth + 1,
                    depth < 6,
                    counters.len() == 6,
                    counters@.map_values(|x: u64| x as nat) == counters_after(now, start_level),
                    views(parts@) =~= Seq::new(
                        j as nat,
                        |q: int| dec(counters_after(now, start_level)[q]),
                    ),
                decreases depth + 1 - j,
            {
                let d = dec_chars(counters[j] as u128);
                let ghost pv = views(parts@);
                parts.push(d);
                assert(views(parts@) =~= pv.push(d@));
                j = j + 1;
            }
            let mut dot: Vec<char> = Vec::new();
            dot.push('.');
            assert(dot@ =~= seq!['.']);
            let joined = join_chars(&parts, dot.as_slice());
            assert(views(parts@) =~= Seq::new(
                (level - start_level + 1) as nat,
                |q: int| dec(counters_after(now, start_level)[q]),
            ));
            numbers.push(string_of(joined.as_slice()));
            assert(numbers@[i as int]@ == section_number(levels, start_level, i as int));
        }
        i = i + 1;
    }
    assert(levels.subrange(0, i as int) =~= levels);
    numbers
}

/// The HTML of a section number before a heading's text.
pub open spec fn number_span(number: Seq<char>) -> Seq<char> {
    "<span class=\"section-number\">"@ + number + "</span> "@
}

/// `html` with the section number `number` put just after the opening tag
/// that carries `id="anchor"`; unchanged for an empty number or when no such
/// tag is found.
pub open spec fn inject_one(html: Seq<char>, anchor: Seq<char>, number: Seq<char>) -> Seq<char> {
    if number.len() == 0 {
        html
    } else {
        match find(html, "id=\""@ + anchor + "\""@) {
            None => html,
            Some(p) => match find_from(html, seq!['>'], p) {
                None => html,
                Some(t) => html.subrange(0, (t + 1) as int) + number_span(number) + html.subrange(
                    (t + 1) as int,
                    html.len() as int,
                ),
            },
        }
    }
}

/// The numbers of entries `k - 1` down to `0` put into `html`, in that order.
pub open spec fn inject_all(
    html: Seq<char>,
    anchors: Seq<Seq<char>>,
    numbers: Seq<Seq<char>>,
    k: nat,
) -> Seq<char>
    decreases k,
{
    if k == 0 {
        html
    } else {
        inject_all(
            inject_one(html, anchors[k - 1], numbers[k - 1]),
            anchors,
            numbers,
            (k - 1) as nat,
        )
    }
}

/// The anchors of a sequence of table of contents entries.
pub open spec fn anchors_of(entries: Seq<TocEntry>) -> Seq<Seq<char>> {
    entries.map_values(|e: TocEntry| e.anchor_id@)
}

/// Inject section numbers into HTML heading tags.
/// Finds `<h{n} id="...">` and prepends `<span class="section-number">N.N</span> `.
/// Entries and numbers are paired up to the shorter of the two, and handled
/// from the last pair to the first.
pub fn inject_section_numbers(html: &str, entries: &[TocEntry], numbers: &[String]) -> (r: String)
    ensures
        r@ == inject_all(
            html@,
            anchors_of(entries@),
            strings_view(numbers@),
            if entries.len() < numbers.len() {
                entries.len() as nat
            } else {
                numbers.len() as nat
            },
        ),
{
    let ghost anchors = anchors_of(entries@);
    let ghost nums = strings_view(numbers@);
    let m = if entries.len() < numbers.len() {
        entries.len()
    } else {
        numbers.len()
    };
    let mut result = chars_of(html);
    let mut k = m;
    while k > 0
        invariant
            k <= m <= entries.len(),
            m <= numbers.len(),
            anchors == anchors_of(entries@),
            nums == strings_view(numbers@),
            inject_all(result@, anchors, nums, k as nat) == inject_all(
                html@,
                anchors,
                nums,
                m as nat,
            ),
        decreases k,
    {
        let number = chars_of(numbers[k - 1].as_str());
        assert(number@ == nums[k - 1]);
        assert(entries@[k - 1].anchor_id@ == anchors[k - 1]);
        if number.len() > 0 {
            let mut pat = chars_of("id=\"");
            push_all(&mut pat, chars_of(entries[k - 1].anchor_id.as_str()).as_slice());
            push_all(&mut pat, chars_of("\"").as_slice());
            assert(pat@ =~= "id=\""@ + anchors[k - 1] + "\""@);
            match find_chars(result.as_slice(), pat.as_slice(), 0) {
                Some(p) => {
                    let mut gt: Vec<char> = Vec::new();
                    gt.push('>');
                    assert(gt@ =~= seq!['>']);
                    match find_chars(result.as_slice(), gt.as_slice(), p) {
                        Some(t) => {
                            proof {
                                lemma_find_from(result@, gt@, p as nat);
                            }
                            assert(t < result.len());
                            let mut next = slice_chars(result.as_slice(), 0, t + 1);
                            push_all(&mut next, chars_of("<span class=\"section-number\">").as_slice());
                            push_all(&mut next, number.as_slice());
                            push_all(&mut next, chars_of("</span> ").as_slice());
                            let tail = slice_chars(result.as_slice(), t + 1, result.len());
                            push_all(&mut next, tail.as_slice());
                            assert(next@ =~= inject_one(result@, anchors[k - 1], nums[k - 1]));
                            result = next;
                        },
                        None => {},
                    }
                },
                None => {},
            }
        }
        k = k - 1;
    }
    string_of(result.as_slice())
}

// ---------------------------------------------------------------- media embeds

/// The extensions of video files.
pub open spec fn video_extensions() -> Seq<Seq<char>> {
    seq![".webm"@, ".mp4"@, ".mov"@, ".ogv"@]
}

/// `s` up to the first `c` (all of `s` when it has none).
pub open spec fn before_char(s: Seq<char>, c: char) -> Seq<char> {
    match find(s, seq![c]) {
        Some(i) => s.subrange(0, i as int),
        None => s,
    }
}

/// A URL of a video: lowercased, without its query and fragment, it ends
/// with a video extension.
pub open spec fn is_video(url: Seq<char>) -> bool {
    let path = before_char(before_char(lowercase(url), '?'), '#');
    exists|k: int| 0 <= k < video_extensions().len() && ends_with(path, video_extensions()[k])
}

fn before_char_exec(s: &[char], c: char) -> (r: Vec<char>)
    ensures
        r@ == before_char(s@, c),
{
    let mut p: Vec<char> = Vec::new();
    p.push(c);
    assert(p@ =~= seq![c]);
    match find_chars(s, p.as_slice(), 0) {
        Some(i) => {
            proof {
                lemma_find_from(s@, p@, 0);
            }
            slice_chars(s, 0, i)
        },
        None => slice_chars(s, 0, s.len()),
    }
}

/// Does `url` name a video file?
pub fn is_video_url(url: &str) -> (b: bool)
    ensures
        b == is_video(url@),
{
    let lower = to_lowercase(url);
    let l = chars_of(lower.as_str());
    let a = before_char_exec(l.as_slice(), '?');
    let path = before_char_exec(a.as_slice(), '#');
    assert(l@.subrange(0, l@.len() as int) =~= l@);
    assert(a@.subrange(0, a@.len() as int) =~= a@);
    let b = ends_with_chars(path.as_slice(), chars_of(".webm").as_slice()) || ends_with_chars(
        path.as_slice(),
        chars_of(".mp4").as_slice(),
    ) || ends_with_chars(path.as_slice(), chars_of(".mov").as_slice()) || ends_with_chars(
        path.as_slice(),
        chars_of(".ogv").as_slice(),
    );
    proof {
        let e = video_extensions();
        if b {
            if ends_with(path@, ".webm"@) {
                assert(ends_with(path@, e[0]));
            } else if ends_with(path@, ".mp4"@) {
                assert(ends_with(path@, e[1]));
            } else if ends_with(path@, ".mov"@) {
                assert(ends_with(path@, e[2]));
            } else {
                assert(ends_with(path@, e[3]));
            }
        } else {
            assert forall|k: int| 0 <= k < e.len() implies !ends_with(path@, e[k]) by {
                if k == 0 {
                } else if k == 1 {
                } else if k == 2 {
                } else {
                }
            }
        }
    }
    b
}

/// The video element that replaces a link or image to a video.
pub open spec fn video_tag(url: Seq<char>) -> Seq<char> {
    "<video src=\""@ + url + "\" controls style=\"max-width:100%\"></video>"@
}

/// Scanning `s` from `from`: each element that starts with `open` (which
/// ends with the opening quote of its URL) and whose URL is a video is
/// replaced, up to and including the first `close` after the URL, by a video
/// tag; the scan goes on after what it wrote, or after the URL.
pub open spec fn rewrite_from(s: Seq<char>, open: Seq<char>, close: Seq<char>, from: nat) -> Seq<char>
    decreases s.len() - from,
{
    if from > s.len() || open.len() == 0 {
        s
    } else {
        match find_from(s, open, from) {
            None => s,
            Some(start) => {
                let url_start = start + open.len();
                match find_from(s, seq!['"'], url_start) {
                    None => s,
                    Some(url_end) => {
                        proof {
                            lemma_find_from(s, open, from);
                            lemma_find_from(s, seq!['"'], url_start);
                            assert(url_end >= url_start > from);
                            assert(url_end < s.len());
                        }
                        let url = s.subrange(url_start as int, url_end as int);
                        if is_video(url) {
                            match find_from(s, close, url_end) {
                                None => rewrite_from(s, open, close, url_end),
                                Some(close_at) => {
                                    proof {
                                        lemma_find_from(s, close, url_end);
                                        assert(close_at >= url_end);
                                        assert(close_at + close.len() <= s.len());
                                    }
                                    let t = video_tag(url);
                                    let s2 = s.subrange(0, start as int) + t + s.subrange(
                                        (close_at + close.len()) as int,
                                        s.len() as int,
                                    );
                                    proof {
                                        assert(s2.len() == start + t.len() + (s.len() - (close_at
                                            + close.len())));
                                    }
                                    rewrite_from(s2, open, close, start + t.len())
                                },
                            }
                        } else {
                            rewrite_from(s, open, close, url_end)
                        }
                    },
                }
            },
        }
    }
}

/// The HTML with links and images to videos made video elements.
pub open spec fn media_embeds_rewritten(html: Seq<char>) -> Seq<char> {
    rewrite_from(rewrite_from(html, "<a href=\""@, "</a>"@, 0), "<img src=\""@, ">"@, 0)
}

/// Where `p` occurs first from `from` on.
proof fn lemma_find_at(s: Seq<char>, p: Seq<char>, from: nat, i: int)
    requires
        from <= i,
        crate::text::occurs_at(s, i, p),
        forall|j: int| from <= j < i ==> !crate::text::occurs_at(s, j, p),
    ensures
        find_from(s, p, from) == Some(i as nat),
    decreases i - from,
{
    if from < i {
        assert(!crate::text::occurs_at(s, from as int, p));
        if p.len() == 0 {
            assert(s.subrange(from as int, from as int) =~= p);
        }
        lemma_find_at(s, p, from + 1, i);
    } else if p.len() == 0 {
        assert(s.subrange(from as int, from as int) =~= p);
    }
}

/// A rewrite from `from` leaves the text before `from` as it was.
proof fn lemma_rewrite_keeps_prefix(s: Seq<char>, open: Seq<char>, close: Seq<char>, from: nat)
    requires
        from <= s.len(),
    ensures
        rewrite_from(s, open, close, from).len() >= from,
        rewrite_from(s, open, close, from).subrange(0, from as int) == s.subrange(0, from as int),
    decreases s.len() - from,
{
    if open.len() > 0 {
        lemma_find_from(s, open, from);
        match find_from(s, open, from) {
            None => {},
            Some(start) => {
                let url_start = start + open.len();
                lemma_find_from(s, seq!['"'], url_start);
                match find_from(s, seq!['"'], url_start) {
                    None => {},
                    Some(url_end) => {
                        let url = s.subrange(url_start as int, url_end as int);
                        if is_video(url) {
                            lemma_find_from(s, close, url_end);
                            match find_from(s, close, url_end) {
                                None => {
                                    lemma_rewrite_keeps_prefix(s, open, close, url_end);
                                    let r = rewrite_from(s, open, close, url_end);
                                    assert(r.subrange(0, from as int) =~= r.subrange(0, url_end as int).subrange(0, from as int));
                                    assert(s.subrange(0, from as int) =~= s.subrange(0, url_end as int).subrange(0, from as int));
                                },
                                Some(close_at) => {
                                    let t = video_tag(url);
                                    let s2 = s.subrange(0, start as int) + t + s.subrange(
                                        (close_at + close.len()) as int,
                                        s.len() as int,
                                    );
                                    lemma_rewrite_keeps_prefix(s2, open, close, (start + t.len()) as nat);
                                    let r = rewrite_from(s2, open, close, (start + t.len()) as nat);
                                    assert(r.subrange(0, from as int) =~= r.subrange(0, (start + t.len()) as int).subrange(0, from as int));
                                    assert(s2.subrange(0, from as int) =~= s.subrange(0, from as int));
                                },
                            }
                        } else {
                            lemma_rewrite_keeps_prefix(s, open, close, url_end);
                            let r = rewrite_from(s, open, close, url_end);
                            assert(r.subrange(0, from as int) =~= r.subrange(0, url_end as int).subrange(0, from as int));
                            assert(s.subrange(0, from as int) =~= s.subrange(0, url_end as int).subrange(0, from as int));
                        }
                    },
                }
            },
        }
    }
}

/// A rewrite leaves the text before the first occurrence of `open` as it
/// was.
proof fn lemma_rewrite_before_first(s: Seq<char>, open: Seq<char>, close: Seq<char>, k: nat)
    requires
        k <= s.len(),
        open.len() > 0,
        forall|j: int| 0 <= j < k ==> !crate::text::occurs_at(s, j, open),
    ensures
        rewrite_from(s, open, close, 0).len() >= k,
        rewrite_from(s, open, close, 0).subrange(0, k as int) == s.subrange(0, k as int),
{
    lemma_find_from(s, open, 0);
    match find_from(s, open, 0) {
        None => {},
        Some(start) => {
            assert(start >= k);
            let url_start = start + open.len();
            lemma_find_from(s, seq!['"'], url_start);
            match find_from(s, seq!['"'], url_start) {
                None => {},
                Some(url_end) => {
                    let url = s.subrange(url_start as int, url_end as int);
                    if is_video(url) {
                        lemma_find_from(s, close, url_end);
                        match find_from(s, close, url_end) {
                            None => {
                                lemma_rewrite_keeps_prefix(s, open, close, url_end);
                                let r = rewrite_from(s, open, close, url_end);
                                assert(r.subrange(0, k as int) =~= r.subrange(0, url_end as int).subrange(0, k as int));
                                assert(s.subrange(0, k as int) =~= s.subrange(0, url_end as int).subrange(0, k as int));
                            },
                            Some(close_at) => {
                                let t = video_tag(url);
                                let s2 = s.subrange(0, start as int) + t + s.subrange(
                                    (close_at + close.len()) as int,
                                    s.len() as int,
                                );
                                lemma_rewrite_keeps_prefix(s2, open, close, (start + t.len()) as nat);
                                let r = rewrite_from(s2, open, close, (start + t.len()) as nat);
                                assert(r.subrange(0, k as int) =~= r.subrange(0, (start + t.len()) as int).subrange(0, k as int));
                                assert(s2.subrange(0, k as int) =~= s.subrange(0, k as int));
                            },
                        }
                    } else {
                        lemma_rewrite_keeps_prefix(s, open, close, url_end);
                        let r = rewrite_from(s, open, close, url_end);
                        assert(r.subrange(0, k as int) =~= r.subrange(0, url_end as int).subrange(0, k as int));
                        assert(s.subrange(0, k as int) =~= s.subrange(0, url_end as int).subrange(0, k as int));
                    }
                },
            }
        },
    }
}

/// A link to a video becomes a video element: in a page body made of a
/// prefix that holds no link or image start, then `<a href="u">t</a>` for a
/// video URL `u` (as pulldown-cmark writes a link, its URL without `"` or
/// `<`, its text without `</a>`) and any rest, the rewritten body starts
/// with the prefix and the video element of `u`.
pub proof fn lemma_video_link_rewritten(p: Seq<char>, u: Seq<char>, t: Seq<char>, q: Seq<char>)
    requires
        !crate::text::contains_seq(p, "<a href=\""@),
        !crate::text::contains_seq(p, "<img src=\""@),
        !u.contains('"'),
        !u.contains('<'),
        is_video(u),
        !crate::text::contains_seq(t, "</a>"@),
    ensures
        ({
            let html = p + "<a href=\""@ + u + "\">"@ + t + "</a>"@ + q;
            let r = media_embeds_rewritten(html);
            &&& r.len() >= p.len() + video_tag(u).len()
            &&& r.subrange(0, (p.len() + video_tag(u).len()) as int) == p + video_tag(u)
        }),
{
    reveal_strlit("<a href=\"");
    reveal_strlit("</a>");
    reveal_strlit("<img src=\"");
    reveal_strlit("\">");
    reveal_strlit("<video src=\"");
    reveal_strlit("\" controls style=\"max-width:100%\"></video>");
    let a = "<a href=\""@;
    let c = "</a>"@;
    let img = "<img src=\""@;
    let html = p + a + u + "\">"@ + t + c + q;
    let pl = p.len() as int;
    let ul = u.len() as int;
    let url_start = pl + 9;
    let url_end = url_start + ul;
    let close_at = url_end + 2 + t.len();
    assert(html.len() == close_at + 4 + q.len());
    assert(forall|i: int| 0 <= i < pl ==> html[i] == p[i]);
    assert(forall|i: int| 0 <= i < 9 ==> html[pl + i] == a[i]);
    assert(forall|i: int| 0 <= i < ul ==> html[url_start + i] == u[i]);
    assert(html[url_end] == '"' && html[url_end + 1] == '>');
    assert(forall|i: int| 0 <= i < t.len() ==> html[url_end + 2 + i] == t[i]);
    assert(forall|i: int| 0 <= i < 4 ==> html[close_at + i] == c[i]);
    assert(forall|i: int| 0 <= i < q.len() ==> html[close_at + 4 + i] == q[i]);
    // The link starts right after the prefix.
    assert(crate::text::occurs_at(html, pl, a)) by {
        assert(html.subrange(pl, pl + 9) =~= a);
    }
    assert forall|j: int| 0 <= j < pl implies !crate::text::occurs_at(html, j, a) by {
        if crate::text::occurs_at(html, j, a) {
            if j + 9 <= pl {
                assert(p.subrange(j, j + 9) =~= html.subrange(j, j + 9));
                assert(crate::text::occurs_at(p, j, a));
            } else {
                assert(html.subrange(j, j + 9)[pl - j] == html[pl]);
            }
        }
    }
    lemma_find_at(html, a, 0, pl);
    // Its URL runs to the first quote.
    assert(crate::text::occurs_at(html, url_end, seq!['"'])) by {
        assert(html.subrange(url_end, url_end + 1) =~= seq!['"']);
    }
    assert forall|j: int| url_start <= j < url_end implies !crate::text::occurs_at(html, j, seq!['"']) by {
        if crate::text::occurs_at(html, j, seq!['"']) {
            assert(html.subrange(j, j + 1)[0] == html[j]);
            assert(u[j - url_start] == html[j]);
            assert(u.contains(u[j - url_start]));
        }
    }
    lemma_find_at(html, seq!['"'], url_start as nat, url_end);
    assert(html.subrange(url_start, url_end) =~= u);
    // It ends at the first `</a>` after the URL.
    assert(crate::text::occurs_at(html, close_at, c)) by {
        assert(html.subrange(close_at, close_at + 4) =~= c);
    }
    assert forall|j: int| url_end <= j < close_at implies !crate::text::occurs_at(html, j, c) by {
        if crate::text::occurs_at(html, j, c) {
            assert(html.subrange(j, j + 4)[0] == html[j]);
            if j < url_end + 2 {
            } else if j + 4 <= close_at {
                let o = j - url_end - 2;
                assert(t.subrange(o, o + 4) =~= html.subrange(j, j + 4));
                assert(crate::text::occurs_at(t, o, c));
            } else {
                assert(html.subrange(j, j + 4)[close_at - j] == html[close_at]);
            }
        }
    }
    lemma_find_at(html, c, url_end as nat, close_at);
    let vt = video_tag(u);
    let s2 = html.subrange(0, pl) + vt + html.subrange(close_at + 4, html.len() as int);
    lemma_rewrite_keeps_prefix(s2, a, c, (pl + vt.len()) as nat);
    let r1 = rewrite_from(s2, a, c, (pl + vt.len()) as nat);
    assert(rewrite_from(html, a, c, 0) == r1);
    let k = pl + vt.len();
    assert(s2.subrange(0, k) =~= p + vt);
    assert(r1.subrange(0, k) == p + vt);
    assert(forall|i: int| 0 <= i < k ==> r1[i] == r1.subrange(0, k)[i]);
    // The element holds no image start, nor does the prefix.
    assert forall|j: int| 0 <= j < k implies !crate::text::occurs_at(r1, j, img) by {
        if crate::text::occurs_at(r1, j, img) {
            assert(r1.subrange(j, j + 10)[0] == r1[j]);
            if j + 10 <= pl {
                assert(p.subrange(j, j + 10) =~= r1.subrange(j, j + 10));
                assert(crate::text::occurs_at(p, j, img));
            } else if j < pl {
                assert(r1.subrange(j, j + 10)[pl - j] == r1[pl]);
                assert(r1[pl] == vt[0]);
            } else {
                let x = j - pl;
                assert(r1[j] == vt[x]);
                assert(r1.subrange(j, j + 10)[1] == r1[j + 1]);
                if x < 12 {
                    assert(x == 0);
                    assert(r1[j + 1] == vt[1]);
                } else if x < 12 + ul {
                    assert(vt[x] == u[x - 12]);
                    assert(u.contains(u[x - 12]));
                } else {
                    assert(x == 12 + ul + 34);
                    assert(r1[j + 1] == vt[x + 1]);
                }
            }
        }
    }
    lemma_rewrite_before_first(r1, img, ">"@, k as nat);
}

fn rewrite_exec(html: Vec<char>, open: &[char], close: &[char]) -> (r: Vec<char>)
    requires
        open.len() > 0,
    ensures
        r@ == rewrite_from(html@, open@, close@, 0),
{
    let mut result = html;
    let mut search_from: usize = 0;
    let mut quote: Vec<char> = Vec::new();
    quote.push('"');
    assert(quote@ =~= seq!['"']);
    while search_from <= result.len()
        invariant
            quote@ == seq!['"'],
            open.len() > 0,
            rewrite_from(result@, open@, close@, search_from as nat) == rewrite_from(
                html@,
                open@,
                close@,
                0,
            ),
        decreases result.len() - search_from,
    {
        let ghost s = result@;
        let start = match find_chars(result.as_slice(), open, search_from) {
            Some(x) => x,
            None => {
                return result;
            },
        };
        proof {
            lemma_find_from(s, open@, search_from as nat);
        }
        let url_start = start + open.len();
        let url_end = match find_chars(result.as_slice(), quote.as_slice(), url_start) {
            Some(x) => x,
            None => {
                return result;
            },
        };
        proof {
            lemma_find_from(s, quote@, url_start as nat);
        }
        assert(url_end < result.len());
        let url = slice_chars(result.as_slice(), url_start, url_end);
        let url_str = string_of(url.as_slice());
        if is_video_url(url_str.as_str()) {
            match find_chars(result.as_slice(), close, url_end) {
                None => {
                    search_from = url_end;
                },
                Some(close_at) => {
                    proof {
                        lemma_find_from(s, close@, url_end as nat);
                    }
                    let mut tag = chars_of("<video src=\"");
                    push_all(&mut tag, url.as_slice());
                    push_all(&mut tag, chars_of("\" controls style=\"max-width:100%\"></video>").as_slice());
                    assert(tag@ =~= video_tag(url@));
                    let mut next = slice_chars(result.as_slice(), 0, start);
                    push_all(&mut next, tag.as_slice());
                    let tail = slice_chars(result.as_slice(), close_at + close.len(), result.len());
                    push_all(&mut next, tail.as_slice());
                    assert(next@.len() == start + tag@.len() + tail@.len());
                    assert(next@ =~= s.subrange(0, start as int) + video_tag(url@) + s.subrange(
                        (close_at + close@.len()) as int,
                        s.len() as int,
                    ));
                    search_from = next.len() - tail.len();
                    result = next;
                },
            }
        } else {
            search_from = url_end;
        }
    }
    result
}

/// Rewrite `<a href="...video">...</a>` and `<img src="...video" ...>` into
/// `<video>` elements.
pub fn rewrite_media_embeds(html: &str) -> (r: String)
    ensures
        r@ == media_embeds_rewritten(html@),
{
    let h = chars_of(html);
    proof {
        reveal_strlit("<a href=\"");
        reveal_strlit("<img src=\"");
    }
    let a = rewrite_exec(h, chars_of("<a href=\"").as_slice(), chars_of("</a>").as_slice());
    let b = rewrite_exec(a, chars_of("<img src=\"").as_slice(), chars_of(">").as_slice());
    string_of(b.as_slice())
}


// ---------------------------------------------------------------- frontmatter

#[verifier::external_type_specification]
#[verifier::external_body]
pub struct ExPod(gray_matter::Pod);

/// A frontmatter value, as the page shows it. A float is held as the text
/// that Rust's `Display` writes for it.
pub enum FrontValue {
    Null,
    String(String),
    Integer(i64),
    Float(String),
    Boolean(bool),
    Array(Vec<FrontValue>),
    Hash(Vec<(String, FrontValue)>),
}

/// The decimal notation of an `i64`, as its `Display` writes it.
pub open spec fn i64_text(i: i64) -> Seq<char> {
    if i < 0 {
        seq!['-'] + dec((-i) as nat)
    } else {
        dec(i as nat)
    }
}

/// The text that the page shows for a frontmatter value: strings as they
/// are, numbers and booleans written out, null empty, arrays as their items
/// joined by `, `, tables as `key: value` joined by `, `.
pub open spec fn front_text(v: FrontValue) -> Seq<char>
    decreases v,
{
    match v {
        FrontValue::Null => seq![],
        FrontValue::String(s) => s@,
        FrontValue::Integer(i) => i64_text(i),
        FrontValue::Float(f) => f@,
        FrontValue::Boolean(b) => if b {
            "true"@
        } else {
            "false"@
        },
        FrontValue::Array(items) => join(front_texts(items@), ", "@),
        FrontValue::Hash(pairs) => join(front_pair_texts(pairs@), ", "@),
    }
}

/// The texts of a sequence of frontmatter values.
pub open spec fn front_texts(items: Seq<FrontValue>) -> Seq<Seq<char>>
    decreases items,
{
    if items.len() == 0 {
        seq![]
    } else {
        front_texts(items.drop_last()).push(front_text(items.last()))
    }
}

/// The `key: value` texts of a sequence of frontmatter pairs.
pub open spec fn front_pair_texts(pairs: Seq<(String, FrontValue)>) -> Seq<Seq<char>>
    decreases pairs,
{
    if pairs.len() == 0 {
        seq![]
    } else {
        front_pair_texts(pairs.drop_last()).push(
            pairs.last().0@ + ": "@ + front_text(pairs.last().1),
        )
    }
}

fn i64_chars(i: i64) -> (r: Vec<char>)
    ensures
        r@ == i64_text(i),
{
    if i < 0 {
        let m: u64 = ((-(i + 1)) as u64) + 1;
        let mut r: Vec<char> = Vec::new();
        r.push('-');
        push_all(&mut r, dec_chars(m as u128).as_slice());
        assert(r@ =~= seq!['-'] + dec((-i) as nat));
        r
    } else {
        dec_chars(i as u128)
    }
}

/// The text that the page shows for a frontmatter value.
pub fn pod_to_html_value(pod: &FrontValue) -> (r: String)
    ensures
        r@ == front_text(*pod),
    decreases pod,
{
    match pod {
        FrontValue::Null => string_of(Vec::<char>::new().as_slice()),
        FrontValue::String(s) => string_of(chars_of(s.as_str()).as_slice()),
        FrontValue::Integer(i) => string_of(i64_chars(*i).as_slice()),
        FrontValue::Float(f) => string_of(chars_of(f.as_str()).as_slice()),
        FrontValue::Boolean(b) => if *b {
            string_of(chars_of("true").as_slice())
        } else {
            string_of(chars_of("false").as_slice())
        },
        FrontValue::Array(items) => {
            let mut parts: Vec<Vec<char>> = Vec::new();
            let mut k: usize = 0;
            while k < items.len()
                invariant
                    k <= items.len(),
                    *pod == FrontValue::Array(*items),
                    views(parts@) == front_texts(items@.subrange(0, k as int)),
                decreases items.len() - k,
            {
                assert(items@.subrange(0, k + 1).drop_last() =~= items@.subrange(0, k as int));
                proof {
                    assert(decreases_to!(*pod => (*pod)->Array_0));
                    assert(decreases_to!(*items => items@));
                    assert(decreases_to!(items@ => items@[k as int]));
                }
                let t = pod_to_html_value(&items[k]);
                let ghost pv = views(parts@);
                parts.push(chars_of(t.as_str()));
                assert(views(parts@) =~= pv.push(t@));
                k = k + 1;
            }
            assert(items@.subrange(0, k as int) =~= items@);
            string_of(join_chars(&parts, chars_of(", ").as_slice()).as_slice())
        },
        FrontValue::Hash(pairs) => {
            let mut parts: Vec<Vec<char>> = Vec::new();
            let mut k: usize = 0;
            while k < pairs.len()
                invariant
                    k <= pairs.len(),
                    *pod == FrontValue::Hash(*pairs),
                    views(parts@) == front_pair_texts(pairs@.subrange(0, k as int)),
                decreases pairs.len() - k,
            {
                assert(pairs@.subrange(0, k + 1).drop_last() =~= pairs@.subrange(0, k as int));
                proof {
                    assert(decreases_to!(*pod => (*pod)->Hash_0));
                    assert(decreases_to!(*pairs => pairs@));
                    assert(decreases_to!(pairs@ => pairs@[k as int]));
                    assert(decreases_to!(pairs@[k as int] => pairs@[k as int].1));
                }
                let t = pod_to_html_value(&pairs[k].1);
                let mut item = chars_of(pairs[k].0.as_str());
                push_all(&mut item, chars_of(": ").as_slice());
                push_all(&mut item, chars_of(t.as_str()).as_slice());
                let ghost pv = views(parts@);
                parts.push(item);
                assert(views(parts@) =~= pv.push(pairs@[k as int].0@ + ": "@ + front_text(
                    pairs@[k as int].1,
                )));
                k = k + 1;
            }
            assert(pairs@.subrange(0, k as int) =~= pairs@);
            string_of(join_chars(&parts, chars_of(", ").as_slice()).as_slice())
        },
    }
}

/// The rows of the frontmatter table for `pairs`.
pub open spec fn front_rows(pairs: Seq<(String, FrontValue)>) -> Seq<char>
    decreases pairs.len(),
{
    if pairs.len() == 0 {
        seq![]
    } else {
        front_rows(pairs.drop_last()) + "<tr><th>"@ + pairs.last().0@ + "</th><td>"@ + front_text(
            pairs.last().1,
        ) + "</td></tr>\n"@
    }
}

/// The frontmatter table of the page: a table of the keys and values of a
/// frontmatter table value, nothing for any other value.
pub open spec fn front_table(data: FrontValue) -> Seq<char> {
    match data {
        FrontValue::Hash(pairs) => "<table class=\"frontmatter\"><tbody>\n"@ + front_rows(pairs@)
            + "</tbody></table>\n"@,
        _ => seq![],
    }
}

/// The frontmatter as an HTML table.
pub fn frontmatter_to_html(data: &FrontValue) -> (r: String)
    ensures
        r@ == front_table(*data),
{
    match data {
        FrontValue::Hash(pairs) => {
            let mut html = chars_of("<table class=\"frontmatter\"><tbody>\n");
            let ghost head = html@;
            let mut k: usize = 0;
            while k < pairs.len()
                invariant
                    k <= pairs.len(),
                    html@ == head + front_rows(pairs@.subrange(0, k as int)),
                decreases pairs.len() - k,
            {
                assert(pairs@.subrange(0, k + 1).drop_last() =~= pairs@.subrange(0, k as int));
                let t = pod_to_html_value(&pairs[k].1);
                push_all(&mut html, chars_of("<tr><th>").as_slice());
                push_all(&mut html, chars_of(pairs[k].0.as_str()).as_slice());
                push_all(&mut html, chars_of("</th><td>").as_slice());
                push_all(&mut html, chars_of(t.as_str()).as_slice());
                push_all(&mut html, chars_of("</td></tr>\n").as_slice());
                k = k + 1;
                assert(html@ =~= head + front_rows(pairs@.subrange(0, k as int)));
            }
            assert(pairs@.subrange(0, k as int) =~= pairs@);
            push_all(&mut html, chars_of("</tbody></table>\n").as_slice());
            string_of(html.as_slice())
        },
        _ => string_of(Vec::<char>::new().as_slice()),
    }
}

/// The position of the first pair of `pairs` whose key is `key`.
pub open spec fn key_index(pairs: Seq<(String, FrontValue)>, key: Seq<char>) -> Option<nat>
    decreases pairs.len(),
{
    if pairs.len() == 0 {
        None
    } else {
        match key_index(pairs.drop_last(), key) {
            Some(i) => Some(i),
            None => if pairs.last().0@ == key {
                Some((pairs.len() - 1) as nat)
            } else {
                None
            },
        }
    }
}

/// The document title that the frontmatter gives: the `title` entry of a
/// frontmatter table, when it is a string.
pub open spec fn front_title(data: Option<FrontValue>) -> Option<Seq<char>> {
    match data {
        Some(FrontValue::Hash(pairs)) => match key_index(pairs@, "title"@) {
            Some(i) => match pairs@[i as int].1 {
                FrontValue::String(s) => Some(s@),
                _ => None,
            },
            None => None,
        },
        _ => None,
    }
}

proof fn lemma_key_index(pairs: Seq<(String, FrontValue)>, key: Seq<char>)
    ensures
        match key_index(pairs, key) {
            Some(i) => i < pairs.len() && pairs[i as int].0@ == key && forall|j: int|
                0 <= j < i ==> pairs[j].0@ != key,
            None => forall|j: int| 0 <= j < pairs.len() ==> pairs[j].0@ != key,
        },
    decreases pairs.len(),
{
    if pairs.len() > 0 {
        let d = pairs.drop_last();
        lemma_key_index(d, key);
        assert forall|j: int| 0 <= j < d.len() implies d[j] == pairs[j] by {}
        match key_index(d, key) {
            Some(i) => {
                assert(pairs[i as int].0@ == key);
            },
            None => {
                assert forall|j: int| 0 <= j < pairs.len() - 1 implies pairs[j].0@ != key by {
                    assert(d[j].0@ != key);
                }
            },
        }
    }
}

/// The document title that the frontmatter gives.
pub fn frontmatter_title(data: &Option<FrontValue>) -> (r: Option<String>)
    ensures
        match r {
            Some(s) => front_title(*data) == Some(s@),
            None => front_title(*data) is None,
        },
{
    match data {
        Some(FrontValue::Hash(pairs)) => {
            let key = chars_of("title");
            let mut k: usize = 0;
            while k < pairs.len()
                invariant
                    k <= pairs.len(),
                    *data == Some(FrontValue::Hash(*pairs)),
                    key@ == "title"@,
                    forall|j: int| 0 <= j < k ==> pairs@[j].0@ != "title"@,
                decreases pairs.len() - k,
            {
                if chars_eq(chars_of(pairs[k].0.as_str()).as_slice(), key.as_slice()) {
                    proof {
                        lemma_key_index(pairs@, "title"@);
                        if key_index(pairs@, "title"@) != Some(k as nat) {
                            match key_index(pairs@, "title"@) {
                                Some(i) => {
                                    if i < k {
                                        assert(pairs@[i as int].0@ != "title"@);
                                    } else {
                                        assert(pairs@[k as int].0@ == "title"@);
                                    }
                                },
                                None => {
                                    assert(pairs@[k as int].0@ == "title"@);
                                },
                            }
                        }
                    }
                    return match &pairs[k].1 {
                        FrontValue::String(s) => Some(string_of(chars_of(s.as_str()).as_slice())),
                        _ => None,
                    };
                }
                k = k + 1;
            }
            proof {
                lemma_key_index(pairs@, "title"@);
            }
            None
        },
        _ => None,
    }
}

/// Frontmatter and content of a markdown document.
pub struct FrontMatter {
    /// The frontmatter, when the document has one.
    pub data: Option<FrontValue>,
    /// The document without its frontmatter.
    pub content: String,
}

/// `Pod` as `FrontValue`, variant for variant; a float becomes its
/// `Display` text, a table its (key, value) pairs in the order of the map.
#[verifier::external_body]
fn front_value_of(pod: &gray_matter::Pod) -> FrontValue {
    match pod {
        gray_matter::Pod::Null => FrontValue::Null,
        gray_matter::Pod::String(s) => FrontValue::String(s.clone()),
        gray_matter::Pod::Integer(i) => FrontValue::Integer(*i),
        gray_matter::Pod::Float(f) => FrontValue::Float(f.to_string()),
        gray_matter::Pod::Boolean(b) => FrontValue::Boolean(*b),
        gray_matter::Pod::Array(items) => FrontValue::Array(items.iter().map(front_value_of).collect()),
        gray_matter::Pod::Hash(map) => FrontValue::Hash(
            map.iter().map(|(k, v)| (k.clone(), front_value_of(v))).collect(),
        ),
    }
}

/// A frontmatter value that holds no table, at any depth: the text that the
/// page shows for it does not depend on the order in which a table is walked.
pub open spec fn holds_no_table(v: FrontValue) -> bool
    decreases v,
{
    match v {
        FrontValue::Hash(_) => false,
        FrontValue::Array(items) => no_table_in(items@),
        _ => true,
    }
}

/// No value of `items` holds a table.
pub open spec fn no_table_in(items: Seq<FrontValue>) -> bool
    decreases items,
{
    if items.len() == 0 {
        true
    } else {
        no_table_in(items.drop_last()) && holds_no_table(items.last())
    }
}

/// `data` is a frontmatter table exactly when `table` is some map, and then
/// its keys are those of the map, each once, and each value that holds no
/// table shows as the map's text for its key.
pub open spec fn table_fits(
    data: Option<FrontValue>,
    table: Option<Map<Seq<char>, Seq<char>>>,
) -> bool {
    match data {
        Some(FrontValue::Hash(pairs)) => match table {
            Some(m) => {
                &&& forall|i: int|
                    0 <= i < pairs@.len() ==> #[trigger] m.contains_key(pairs@[i].0@) && (
                    holds_no_table(pairs@[i].1) ==> m[pairs@[i].0@] == front_text(pairs@[i].1))
                &&& forall|k: Seq<char>|
                    #[trigger] m.contains_key(k) ==> exists|i: int|
                        0 <= i < pairs@.len() && #[trigger] pairs@[i].0@ == k
                &&& forall|i: int, j: int|
                    0 <= i < j < pairs@.len() ==> #[trigger] pairs@[i].0@ != #[trigger] pairs@[j].0@
            },
            None => false,
        },
        _ => table is None,
    }
}

/// What `gray_matter::Matter::<YAML>::parse` makes of a document: the
/// content without the frontmatter, the title that the frontmatter gives,
/// and, when the frontmatter is a table, its keys with the text of each
/// value.
pub uninterp spec fn parsed_matter(input: Seq<char>) -> (
    Seq<char>,
    Option<Seq<char>>,
    Option<Map<Seq<char>, Seq<char>>>,
);

/// The document without its frontmatter.
pub open spec fn matter_content(input: Seq<char>) -> Seq<char> {
    parsed_matter(input).0
}

/// The title that the frontmatter of the document gives.
pub open spec fn matter_title(input: Seq<char>) -> Option<Seq<char>> {
    parsed_matter(input).1
}

/// The frontmatter table of the document, key by key.
pub open spec fn matter_table(input: Seq<char>) -> Option<Map<Seq<char>, Seq<char>>> {
    parsed_matter(input).2
}

/// `gray_matter::Matter::<YAML>::parse`: splits off the YAML frontmatter.
/// What it gives is named `parsed_matter`, a function of the input alone:
/// the content, the title (the string under the key `title`, found the same
/// way in whatever order the table is walked) and the keys of a frontmatter
/// table, which a `HashMap` holds once each, with the text of every value
/// that holds no table. Not stated: the order of the entries of a table,
/// which is the order in which a `HashMap` is walked, and so the text of a
/// value that holds a table.
#[verifier::external_body]
fn parse_front_matter(input: &str) -> (r: FrontMatter)
    ensures
        r.content@ == parsed_matter(input@).0,
        front_title(r.data) == parsed_matter(input@).1,
        table_fits(r.data, parsed_matter(input@).2),
{
    let parsed = gray_matter::Matter::<gray_matter::engine::YAML>::new().parse(input);
    FrontMatter { data: parsed.data.as_ref().map(front_value_of), content: parsed.content }
}


// ---------------------------------------------------------------- markdown events

/// The extensions of markdown that the page is parsed with.
pub struct MdOptions {
    pub strikethrough: bool,
    pub tasklists: bool,
    pub tables: bool,
    pub math: bool,
}

/// Every heading start and end of `s` has a level from 1 to 6.
pub open spec fn valid_levels(s: Seq<MdEventView>) -> bool {
    forall|i: int|
        0 <= i < s.len() ==> match #[trigger] s[i] {
            MdEventView::HeadingStart { level, id } => 1 <= level <= 6,
            MdEventView::HeadingEnd(l) => 1 <= l <= 6,
            _ => true,
        }
}

/// The events, as the heading logic reads them, that pulldown-cmark's
/// parser gives for `content` with the given extensions.
pub uninterp spec fn markdown_events(
    content: Seq<char>,
    strikethrough: bool,
    tasklists: bool,
    tables: bool,
    math: bool,
) -> Seq<MdEventView>;

/// A pulldown-cmark event as `MdEvent`, variant for variant: heading starts
/// and ends with the number of their level, text and code with their text,
/// every other event as it is.
#[verifier::external_body]
fn md_event_of(e: pulldown_cmark::Event<'static>) -> MdEvent {
    match e {
        pulldown_cmark::Event::Start(pulldown_cmark::Tag::Heading { level, id, .. }) => {
            MdEvent::HeadingStart { level: level as u8, id: id.map(|s| s.to_string()) }
        },
        pulldown_cmark::Event::End(pulldown_cmark::TagEnd::Heading(level)) => MdEvent::HeadingEnd(
            level as u8,
        ),
        pulldown_cmark::Event::Text(t) => MdEvent::Text(t.to_string()),
        pulldown_cmark::Event::Code(c) => MdEvent::Code(c.to_string()),
        other => MdEvent::Other(other),
    }
}

/// `pulldown_cmark::Parser::new_ext` with the options that `options` turns
/// on, its events collected. The events are named `markdown_events`, a
/// function of the content and the options; the contract states the plain
/// fact of the source that heading levels are `H1` to `H6`.
#[verifier::external_body]
fn parse_markdown(content: &str, options: &MdOptions) -> (r: Vec<MdEvent>)
    ensures
        events_view(r@) == markdown_events(
            content@,
            options.strikethrough,
            options.tasklists,
            options.tables,
            options.math,
        ),
        valid_levels(events_view(r@)),
{
    let mut opts = pulldown_cmark::Options::empty();
    opts.set(pulldown_cmark::Options::ENABLE_STRIKETHROUGH, options.strikethrough);
    opts.set(pulldown_cmark::Options::ENABLE_TASKLISTS, options.tasklists);
    opts.set(pulldown_cmark::Options::ENABLE_TABLES, options.tables);
    opts.set(pulldown_cmark::Options::ENABLE_MATH, options.math);
    let mut out = Vec::new();
    for e in pulldown_cmark::Parser::new_ext(content, opts) {
        out.push(md_event_of(e.into_static()));
    }
    out
}

/// An `MdEvent` back as a pulldown-cmark event, variant for variant; a
/// heading start gets no classes and no attributes.
#[verifier::external_body]
fn pulldown_event_of(e: MdEvent) -> pulldown_cmark::Event<'static>
    requires
        valid_levels(seq![e@]),
{
    match e {
        MdEvent::HeadingStart { level, id } => Event::Start(Tag::Heading {
            level: HeadingLevel::try_from(level as usize).unwrap(),
            id: id.map(CowStr::from), classes: Vec::new(), attrs: Vec::new(),
        }),
        MdEvent::HeadingEnd(level) => Event::End(TagEnd::Heading(
            HeadingLevel::try_from(level as usize).unwrap())),
        MdEvent::Text(t) => Event::Text(CowStr::from(t)),
        MdEvent::Code(c) => Event::Code(CowStr::from(c)),
        MdEvent::Other(e) => e,
    }
}

/// The HTML that pulldown-cmark renders for a sequence of events.
pub uninterp spec fn rendered_html(events: Seq<MdEventView>) -> Seq<char>;

/// `pulldown_cmark::html::push_html` into an empty string, of the events
/// turned back into pulldown-cmark events. The HTML is named
/// `rendered_html`, a function of the events alone.
#[verifier::external_body]
fn push_html(events: Vec<MdEvent>) -> (r: String)
    requires
        valid_levels(events_view(events@)),
    ensures
        r@ == rendered_html(events_view(events@)),
{
    let mut s = String::new();
    pulldown_cmark::html::push_html(&mut s, events.into_iter().map(pulldown_event_of));
    s
}

proof fn lemma_scan_levels(events: Seq<MdEventView>)
    requires
        valid_levels(events),
    ensures
        valid_levels(heading_scan(events).out),
    decreases events.len(),
{
    if events.len() > 0 {
        let d = events.drop_last();
        assert forall|i: int| 0 <= i < d.len() implies match #[trigger] d[i] {
            MdEventView::HeadingStart { level, id } => 1 <= level <= 6,
            MdEventView::HeadingEnd(l) => 1 <= l <= 6,
            _ => true,
        } by {
            assert(d[i] == events[i]);
        }
        lemma_scan_levels(d);
        let st = heading_scan(d);
        let e = events.last();
        assert(match e {
            MdEventView::HeadingStart { level, id } => 1 <= level <= 6,
            MdEventView::HeadingEnd(l) => 1 <= l <= 6,
            _ => true,
        }) by {
            assert(events[events.len() - 1] == e);
        }
        match e {
            MdEventView::HeadingEnd(l) => {
                let id = unique_slug(slug_of(lowercase(st.text)), st.used);
                let w = with_anchor(st.out, l, id);
                lemma_last_heading_start(st.out);
                assert(w.len() == st.out.len());
                assert forall|i: int| 0 <= i < w.len() implies match #[trigger] w[i] {
                    MdEventView::HeadingStart { level, id } => 1 <= level <= 6,
                    MdEventView::HeadingEnd(l) => 1 <= l <= 6,
                    _ => true,
                } by {
                    match last_heading_start(st.out) {
                        Some(j) => {
                            if i != j {
                                assert(w[i] == st.out[i]);
                            }
                        },
                        None => {
                            assert(w[i] == st.out[i]);
                        },
                    }
                }
                let o = w.push(e);
                assert forall|i: int| 0 <= i < o.len() implies match #[trigger] o[i] {
                    MdEventView::HeadingStart { level, id } => 1 <= level <= 6,
                    MdEventView::HeadingEnd(l) => 1 <= l <= 6,
                    _ => true,
                } by {
                    if i < w.len() {
                        assert(o[i] == w[i]);
                    }
                }
            },
            _ => {
                let o = heading_scan(events).out;
                assert(o == st.out.push(e));
                assert forall|i: int| 0 <= i < o.len() implies match #[trigger] o[i] {
                    MdEventView::HeadingStart { level, id } => 1 <= level <= 6,
                    MdEventView::HeadingEnd(l) => 1 <= l <= 6,
                    _ => true,
                } by {
                    if i < st.out.len() {
                        assert(o[i] == st.out[i]);
                    }
                }
            },
        }
    }
}

// ---------------------------------------------------------------- the HTML body

/// The levels of a table of contents.
pub open spec fn toc_levels(toc: Seq<TocEntryView>) -> Seq<u8> {
    toc.map_values(|e: TocEntryView| e.level)
}

/// The table of contents with each numbered title prefixed by its section
/// number and a space.
pub open spec fn numbered_toc(toc: Seq<TocEntryView>, start: u8) -> Seq<TocEntryView> {
    Seq::new(
        toc.len(),
        |i: int|
            {
                let n = section_number(toc_levels(toc), start, i);
                if n.len() > 0 {
                    TocEntryView {
                        level: toc[i].level,
                        title: n + seq![' '] + toc[i].title,
                        anchor_id: toc[i].anchor_id,
                    }
                } else {
                    toc[i]
                }
            },
    )
}

/// The section numbers of a table of contents.
pub open spec fn toc_numbers(toc: Seq<TocEntryView>, start: u8) -> Seq<Seq<char>> {
    Seq::new(toc.len(), |i: int| section_number(toc_levels(toc), start, i))
}

/// The finished HTML of the page body: media embeds rewritten, then, with
/// paragraph numbers, the section numbers put into the headings.
pub open spec fn finished_html(
    page: Seq<char>,
    toc: Seq<TocEntryView>,
    paragraph_numbers: bool,
    start: u8,
) -> Seq<char> {
    let h = media_embeds_rewritten(page);
    if paragraph_numbers {
        inject_all(h, toc.map_values(|e: TocEntryView| e.anchor_id), toc_numbers(toc, start), toc.len())
    } else {
        h
    }
}

/// The table of contents of a markdown document.
pub open spec fn document_toc(input: Seq<char>, paragraph_numbers: bool, start: u8, math: bool) -> Seq<
    TocEntryView,
> {
    let toc = heading_scan(markdown_events(matter_content(input), true, true, true, math)).toc;
    if paragraph_numbers {
        numbered_toc(toc, start)
    } else {
        toc
    }
}

/// What the page body starts with: the frontmatter table, when it is shown.
pub open spec fn front_part(data: Option<FrontValue>, show_frontmatter: bool) -> Seq<char> {
    match data {
        Some(d) => if show_frontmatter {
            front_table(d)
        } else {
            seq![]
        },
        None => seq![],
    }
}

/// The events of a markdown document after the heading scan.
pub open spec fn document_scan(input: Seq<char>, math: bool) -> HeadingScan {
    heading_scan(markdown_events(matter_content(input), true, true, true, math))
}

/// The page body of a markdown document, with `data` as its frontmatter:
/// the frontmatter table when it is shown, then the rendered markdown, with
/// media embeds rewritten and, with paragraph numbers, the section numbers
/// put into the headings.
pub open spec fn page_body(
    input: Seq<char>,
    show_frontmatter: bool,
    paragraph_numbers: bool,
    start: u8,
    math: bool,
    data: Option<FrontValue>,
) -> Seq<char> {
    let scan = document_scan(input, math);
    finished_html(
        front_part(data, show_frontmatter) + rendered_html(scan.out),
        scan.toc,
        paragraph_numbers,
        start,
    )
}

/// The page body is `page_body` for frontmatter data that fits the
/// document's frontmatter table (so only the order of the table's rows is
/// left open), and the title is the one that the frontmatter gives.
pub open spec fn body_and_title(
    input: Seq<char>,
    show_frontmatter: bool,
    paragraph_numbers: bool,
    start: u8,
    math: bool,
    html: Seq<char>,
    title: Option<Seq<char>>,
) -> bool {
    &&& title == matter_title(input)
    &&& exists|data: Option<FrontValue>|
        #![trigger page_body(input, show_frontmatter, paragraph_numbers, start, math, data)]
        table_fits(data, matter_table(input)) && html == page_body(
            input,
            show_frontmatter,
            paragraph_numbers,
            start,
            math,
            data,
        )
}

/// Where no frontmatter table is shown, the page body does not depend on the
/// frontmatter data.
pub proof fn lemma_body_without_table(
    input: Seq<char>,
    show_frontmatter: bool,
    paragraph_numbers: bool,
    start: u8,
    math: bool,
    data: Option<FrontValue>,
)
    requires
        table_fits(data, matter_table(input)),
        !show_frontmatter || matter_table(input) is None,
    ensures
        page_body(input, show_frontmatter, paragraph_numbers, start, math, data) == page_body(
            input,
            show_frontmatter,
            paragraph_numbers,
            start,
            math,
            None,
        ),
{
    assert(front_part(data, show_frontmatter) =~= front_part(None, show_frontmatter));
}

/// Convert raw markdown text to HTML body with TOC entries.
/// When `paragraph_numbers` is true, injects section numbers into headings and TOC titles.
pub fn md_to_html_body_with_toc(
    markdown_input: &str,
    show_frontmatter: bool,
    paragraph_numbers: bool,
    paragraph_numbers_start: u8,
    math: bool,
) -> (r: (String, Vec<TocEntry>, Option<String>))
    ensures
        toc_view(r.1@) == document_toc(
            markdown_input@,
            paragraph_numbers,
            paragraph_numbers_start,
            math,
        ),
        body_and_title(
            markdown_input@,
            show_frontmatter,
            paragraph_numbers,
            paragraph_numbers_start,
            math,
            r.0@,
            match r.2 {
                Some(s) => Some(s@),
                None => None,
            },
        ),
{
    let fm = parse_front_matter(markdown_input);
    let frontmatter_title = frontmatter_title(&fm.data);
    let options = MdOptions { strikethrough: true, tasklists: true, tables: true, math };
    let events = parse_markdown(fm.content.as_str(), &options);
    let mut page: Vec<char> = Vec::new();
    if show_frontmatter {
        match &fm.data {
            Some(d) => {
                let t = frontmatter_to_html(d);
                page = chars_of(t.as_str());
            },
            None => {},
        }
    }
    assert(page@ == front_part(fm.data, show_frontmatter));
    let ghost evv = events_view(events@);
    let (events, toc) = extract_headings_and_inject_ids(events);
    proof {
        lemma_scan_levels(evv);
    }
    let body = push_html(events);
    push_all(&mut page, chars_of(body.as_str()).as_slice());
    let ghost rendered = body@;
    let page_str = string_of(page.as_slice());
    let html = rewrite_media_embeds(page_str.as_str());
    let ghost scan_toc = heading_scan(evv).toc;
    if paragraph_numbers {
        let numbers = compute_section_numbers(toc.as_slice(), paragraph_numbers_start);
        let html = inject_section_numbers(html.as_str(), toc.as_slice(), numbers.as_slice());
        proof {
            assert(levels_of(toc@) =~= toc_levels(scan_toc));
            assert(strings_view(numbers@) =~= toc_numbers(scan_toc, paragraph_numbers_start));
            assert(anchors_of(toc@) =~= scan_toc.map_values(|e: TocEntryView| e.anchor_id));
        }
        let mut titled: Vec<TocEntry> = Vec::new();
        let mut k: usize = 0;
        while k < toc.len()
            invariant
                k <= toc.len(),
                toc.len() == numbers.len(),
                toc_view(toc@) == scan_toc,
                strings_view(numbers@) == toc_numbers(scan_toc, paragraph_numbers_start),
                toc_view(titled@) =~= numbered_toc(scan_toc, paragraph_numbers_start).subrange(
                    0,
                    k as int,
                ),
            decreases toc.len() - k,
        {
            let n = chars_of(numbers[k].as_str());
            let entry = &toc[k];
            assert(scan_toc.len() == toc.len());
            assert(strings_view(numbers@)[k as int] == numbers@[k as int]@);
            assert(toc_numbers(scan_toc, paragraph_numbers_start)[k as int] == section_number(
                toc_levels(scan_toc),
                paragraph_numbers_start,
                k as int,
            ));
            assert(n@ == section_number(toc_levels(scan_toc), paragraph_numbers_start, k as int));
            let title = if n.len() > 0 {
                let mut t = n;
                t.push(' ');
                push_all(&mut t, chars_of(entry.title.as_str()).as_slice());
                assert(t@ =~= n@ + seq![' '] + entry.title@);
                string_of(t.as_slice())
            } else {
                string_of(chars_of(entry.title.as_str()).as_slice())
            };
            let ghost tv = toc_view(titled@);
            let e = TocEntry {
                level: entry.level,
                title,
                anchor_id: string_of(chars_of(entry.anchor_id.as_str()).as_slice()),
            };
            assert(toc_view(toc@)[k as int] == toc@[k as int]@);
            assert(strings_view(numbers@)[k as int] == numbers@[k as int]@);
            assert(e@ == numbered_toc(scan_toc, paragraph_numbers_start)[k as int]);
            titled.push(e);
            assert(toc_view(titled@) =~= tv.push(e@));
            k = k + 1;
        }
        assert(body_and_title(
            markdown_input@,
            show_frontmatter,
            paragraph_numbers,
            paragraph_numbers_start,
            math,
            html@,
            match frontmatter_title {
                Some(s) => Some(s@),
                None => None,
            },
        )) by {
            assert(front_title(fm.data) == match frontmatter_title {
                Some(s) => Some(s@),
                None => None::<Seq<char>>,
            });
            assert(rendered == rendered_html(document_scan(markdown_input@, math).out));
            assert(html@ == page_body(
                markdown_input@,
                show_frontmatter,
                paragraph_numbers,
                paragraph_numbers_start,
                math,
                fm.data,
            ));
        }
        (html, titled, frontmatter_title)
    } else {
        assert(body_and_title(
            markdown_input@,
            show_frontmatter,
            paragraph_numbers,
            paragraph_numbers_start,
            math,
            html@,
            match frontmatter_title {
                Some(s) => Some(s@),
                None => None,
            },
        )) by {
            assert(front_title(fm.data) == match frontmatter_title {
                Some(s) => Some(s@),
                None => None::<Seq<char>>,
            });
            assert(rendered == rendered_html(document_scan(markdown_input@, math).out));
            assert(html@ == page_body(
                markdown_input@,
                show_frontmatter,
                paragraph_numbers,
                paragraph_numbers_start,
                math,
                fm.data,
            ));
        }
        (html, toc, frontmatter_title)
    }
}


/// `html` is the page body of the document, without paragraph numbers and
/// math, for frontmatter data that fits the document's frontmatter table.
pub open spec fn plain_body(input: Seq<char>, show_frontmatter: bool, html: Seq<char>) -> bool {
    exists|data: Option<FrontValue>|
        #![trigger page_body(input, show_frontmatter, false, 1, false, data)]
        table_fits(data, matter_table(input)) && html == page_body(
            input,
            show_frontmatter,
            false,
            1,
            false,
            data,
        )
}

/// Convert raw markdown text to HTML body (without template wrapper).
pub fn md_to_html_body(markdown_input: &str, show_frontmatter: bool) -> (r: String)
    ensures
        plain_body(markdown_input@, show_frontmatter, r@),
        !show_frontmatter || matter_table(markdown_input@) is None ==> r@ == page_body(
            markdown_input@,
            show_frontmatter,
            false,
            1,
            false,
            None,
        ),
{
    let (html, _toc, title) = md_to_html_body_with_toc(markdown_input, show_frontmatter, false, 1, false);
    proof {
        let data = choose|data: Option<FrontValue>|
            #![trigger page_body(markdown_input@, show_frontmatter, false, 1, false, data)]
            table_fits(data, matter_table(markdown_input@)) && html@ == page_body(
                markdown_input@,
                show_frontmatter,
                false,
                1,
                false,
                data,
            );
        if !show_frontmatter || matter_table(markdown_input@) is None {
            lemma_body_without_table(markdown_input@, show_frontmatter, false, 1, false, data);
        }
    }
    html
}

// ---------------------------------------------------------------- the page

/// The scripts that load KaTeX and render the math of the page.
pub const MATH_SCRIPTS: &'static str = "<link rel=\"stylesheet\" href=\"/katex/katex.min.css\">\n    <script src=\"/katex/katex.min.js\"></script>\n    <script>\n      function renderMath(){document.querySelectorAll('.math').forEach(function(el){var math=el.textContent;var displayMode=el.classList.contains('math-display');try{katex.render(math,el,{displayMode:displayMode,throwOnError:false});}catch(e){el.textContent=math;}});}\n      document.addEventListener('DOMContentLoaded',renderMath);\n    </script>";

/// The page: the template with its placeholders `#{BODY}`, `#{INITIALSEED}`,
/// `#{SEEDURL}` and `#{THEME_CLASS}` replaced, in that order, and with math
/// the KaTeX scripts put before `</head>`.
pub open spec fn filled_template(
    template: Seq<char>,
    body: Seq<char>,
    seed: Seq<char>,
    seed_url: Seq<char>,
    theme_class: Seq<char>,
    math: bool,
) -> Seq<char> {
    let r = replace_all(
        replace_all(
            replace_all(replace_all(template, "#{BODY}"@, body), "#{INITIALSEED}"@, seed),
            "#{SEEDURL}"@,
            seed_url,
        ),
        "#{THEME_CLASS}"@,
        theme_class,
    );
    if math {
        replace_all(r, "</head>"@, MATH_SCRIPTS@ + "\n</head>"@)
    } else {
        r
    }
}

/// Fill the page template with the body and the page's settings.
pub fn fill_template(
    template: &str,
    body: &str,
    seed: &str,
    seed_url: &str,
    theme_class: &str,
    math: bool,
) -> (r: String)
    ensures
        r@ == filled_template(template@, body@, seed@, seed_url@, theme_class@, math),
{
    let t = chars_of(template);
    let a = replace_all_chars(t.as_slice(), chars_of("#{BODY}").as_slice(), chars_of(body).as_slice());
    let b = replace_all_chars(
        a.as_slice(),
        chars_of("#{INITIALSEED}").as_slice(),
        chars_of(seed).as_slice(),
    );
    let c = replace_all_chars(b.as_slice(), chars_of("#{SEEDURL}").as_slice(), chars_of(seed_url).as_slice());
    let d = replace_all_chars(
        c.as_slice(),
        chars_of("#{THEME_CLASS}").as_slice(),
        chars_of(theme_class).as_slice(),
    );
    if math {
        let mut scripts = chars_of(MATH_SCRIPTS);
        push_all(&mut scripts, chars_of("\n</head>").as_slice());
        let e = replace_all_chars(d.as_slice(), chars_of("</head>").as_slice(), scripts.as_slice());
        string_of(e.as_slice())
    } else {
        string_of(d.as_slice())
    }
}

/// Build the complete HTML document from markdown content.
/// This is a pure function: no I/O, no randomness.
/// Takes markdown string, template string, seed, seed URL,
/// show_frontmatter flag, and theme class; returns complete HTML string.
pub fn build_html(
    markdown_input: &str,
    template: &str,
    seed: &str,
    seed_url: &str,
    show_frontmatter: bool,
    theme_class: &str,
    math: bool,
) -> (r: String)
    ensures
        exists|body: Seq<char>|
            #![trigger filled_template(template@, body, seed@, seed_url@, theme_class@, math)]
            plain_body(markdown_input@, show_frontmatter, body) && r@ == filled_template(
                template@,
                body,
                seed@,
                seed_url@,
                theme_class@,
                math,
            ),
        !show_frontmatter || matter_table(markdown_input@) is None ==> r@ == filled_template(
            template@,
            page_body(markdown_input@, show_frontmatter, false, 1, false, None),
            seed@,
            seed_url@,
            theme_class@,
            math,
        ),
{
    let html_body = md_to_html_body(markdown_input, show_frontmatter);
    fill_template(template, html_body.as_str(), seed, seed_url, theme_class, math)
}

/// Seven ASCII letters and digits.
pub open spec fn is_seed(s: Seq<char>) -> bool {
    s.len() == 7 && forall|i: int|
        0 <= i < 7 ==> ('A' <= #[trigger] s[i] <= 'Z' || 'a' <= s[i] <= 'z' || '0' <= s[i] <= '9')
}

/// `rand::rng().sample_iter(&rand::distr::Alphanumeric).take(7)`: seven
/// characters drawn from `A`-`Z`, `a`-`z` and `0`-`9`, at random.
#[verifier::external_body]
fn random_seed() -> (s: String)
    ensures
        is_seed(s@),
{
    rand::rng().sample_iter(&rand::distr::Alphanumeric).take(7).map(char::from).collect()
}

/// The URL of the seed file that the page polls.
pub open spec fn seed_url_of(port: u16) -> Seq<char> {
    "http://localhost:"@ + dec(port as nat) + "/.temp.seed"@
}

/// The URL of the seed file that the page polls, on the preview server's port.
pub fn seed_url(port: u16) -> (r: String)
    ensures
        r@ == seed_url_of(port),
{
    let mut u = chars_of("http://localhost:");
    push_all(&mut u, dec_chars(port as u128).as_slice());
    push_all(&mut u, chars_of("/.temp.seed").as_slice());
    string_of(u.as_slice())
}

/// A fresh page: a random seed and the page built with it and with the seed
/// URL of `port`. Returns (page, seed).
pub fn prepare_page(
    markdown_input: &str,
    template: &str,
    port: u16,
    show_frontmatter: bool,
    theme_class: &str,
    math: bool,
) -> (r: (String, String))
    ensures
        is_seed(r.1@),
        exists|body: Seq<char>|
            #![trigger filled_template(template@, body, r.1@, seed_url_of(port), theme_class@, math)]
            plain_body(markdown_input@, show_frontmatter, body) && r.0@ == filled_template(
                template@,
                body,
                r.1@,
                seed_url_of(port),
                theme_class@,
                math,
            ),
        !show_frontmatter || matter_table(markdown_input@) is None ==> r.0@ == filled_template(
            template@,
            page_body(markdown_input@, show_frontmatter, false, 1, false, None),
            r.1@,
            seed_url_of(port),
            theme_class@,
            math,
        ),
{
    let url = seed_url(port);
    let seed = random_seed();
    let page = build_html(markdown_input, template, seed.as_str(), url.as_str(), show_frontmatter, theme_class, math);
    let ghost b = choose|body: Seq<char>|
        #![trigger filled_template(template@, body, seed@, url@, theme_class@, math)]
        plain_body(markdown_input@, show_frontmatter, body) && page@ == filled_template(
            template@,
            body,
            seed@,
            url@,
            theme_class@,
            math,
        );
    proof {
        assert(plain_body(markdown_input@, show_frontmatter, b));
        assert(page@ == filled_template(template@, b, seed@, seed_url_of(port), theme_class@, math));
    }
    let r = (page, seed);
    assert(plain_body(markdown_input@, show_frontmatter, b) && r.0@ == filled_template(
        template@,
        b,
        r.1@,
        seed_url_of(port),
        theme_class@,
        math,
    ));
    r
}

} // verus!
