//! The decisions of the preview window: what each command of the command
//! bar does, how Tab completes and the arrow keys browse the history, how
//! the table of contents nests, and how the page is cleaned for export and
//! updated in place.
use vstd::prelude::*;

use crate::markdown::{TocEntry, toc_view, TocEntryView};
use crate::text::{
    chars_of, find, find_chars, find_from, lemma_find_from, occurs_at, occurs_at_chars,
    push_all, slice_chars, starts_with, starts_with_chars, string_of, trim_chars,
    trim_start,
};

verus! {

// ---------------------------------------------------------------- the page

/// `s` without the first block that starts with `open`, up to and with the
/// first `close` after it; `s` itself when there is no such block.
pub open spec fn cut_block(s: Seq<char>, open: Seq<char>, close: Seq<char>) -> Seq<char> {
    match find(s, open) {
        Some(a) => match find_from(s, close, a) {
            Some(b) => s.subrange(0, a as int) + s.subrange((b + close.len()) as int, s.len() as int),
            None => s,
        },
        None => s,
    }
}

fn cut_block_chars(s: &[char], open: &str, close: &str) -> (r: Vec<char>)
    ensures
        r@ == cut_block(s@, open@, close@),
{
    let o = chars_of(open);
    let c = chars_of(close);
    match find_chars(s, o.as_slice(), 0) {
        Some(a) => match find_chars(s, c.as_slice(), a) {
            Some(b) => {
                proof {
                    lemma_find_from(s@, c@, a as nat);
                }
                let cl = c.len();
                let sl = s.len();
                assert(b + cl <= sl);
                let mut r = slice_chars(s, 0, a);
                let tail = slice_chars(s, b + cl, s.len());
                push_all(&mut r, tail.as_slice());
                r
            },
            None => slice_chars(s, 0, s.len()),
        },
        None => slice_chars(s, 0, s.len()),
    }
}

/// The page without the scripts that poll for changes and reload it: the
/// script that sets the seed variables, the key and polling script, and the
/// header link script (the window reloads the page itself).
pub open spec fn seedless(html: Seq<char>) -> Seq<char> {
    let close = "</script>"@;
    cut_block(
        cut_block(
            cut_block(html, "<script>var seedUrl="@, close),
            "<script>document.addEventListener(\"keydown\""@,
            close,
        ),
        "<script>document.getElementById(\"header\")"@,
        close,
    )
}

/// Remove the seed-polling scripts from the generated page.
pub fn strip_seed_scripts(html: &str) -> (r: String)
    ensures
        r@ == seedless(html@),
{
    let close = "</script>";
    let h = chars_of(html);
    let a = cut_block_chars(h.as_slice(), "<script>var seedUrl=", close);
    let b = cut_block_chars(a.as_slice(), "<script>document.addEventListener(\"keydown\"", close);
    let c = cut_block_chars(b.as_slice(), "<script>document.getElementById(\"header\")", close);
    string_of(c.as_slice())
}

/// A `<link` tag opening at `i`: followed by a space, a newline or a tab.
pub open spec fn link_at(t: Seq<char>, i: int) -> bool {
    occurs_at(t, i, "<link "@) || occurs_at(t, i, "<link\n"@) || occurs_at(t, i, "<link\t"@)
}

/// A tag text that refers to the local server.
pub open spec fn local_tag(tag: Seq<char>) -> bool {
    find(tag, "localhost"@) is Some || find(tag, "127.0.0.1"@) is Some
}

/// The text of the page from `i` on that an export keeps: each script
/// element (up to its `</script>`), each `<link>` tag that refers to the
/// local server, and the header `div` (up to the first `</div>`) are left
/// out; every other character is kept. An element that is not closed is
/// kept.
pub open spec fn export_kept(t: Seq<char>, i: nat) -> Seq<char>
    decreases t.len() - i,
{
    if i >= t.len() {
        seq![]
    } else {
        let here = seq![t[i as int]];
        if t[i as int] != '<' {
            here + export_kept(t, i + 1)
        } else if occurs_at(t, i as int, "<script"@) && find_from(t, "</script>"@, i) is Some {
            let e = find_from(t, "</script>"@, i)->0;
            proof {
                lemma_find_from(t, "</script>"@, i);
                lemma_tag_lengths();
            }
            export_kept(t, e + "</script>"@.len())
        } else if link_at(t, i as int) && find_from(t, ">"@, i) is Some && local_tag(
            t.subrange(i as int, (find_from(t, ">"@, i)->0 + 1) as int),
        ) {
            let g = find_from(t, ">"@, i)->0;
            proof {
                lemma_find_from(t, ">"@, i);
            }
            export_kept(t, g + 1)
        } else if occurs_at(t, i as int, "<div id=\"header\""@) && find_from(t, "</div>"@, i) is Some {
            let e = find_from(t, "</div>"@, i)->0;
            proof {
                lemma_find_from(t, "</div>"@, i);
                lemma_tag_lengths();
            }
            export_kept(t, e + "</div>"@.len())
        } else {
            here + export_kept(t, i + 1)
        }
    }
}

/// The closing tags that an export skips past are not empty.
pub proof fn lemma_tag_lengths()
    ensures
        "</script>"@.len() == 9,
        "</div>"@.len() == 6,
{
    reveal_strlit("</script>");
    reveal_strlit("</div>");
}

/// The page misses a doctype: after its leading white space it starts with
/// neither `<!DOCTYPE` nor `<!doctype`.
pub open spec fn needs_doctype(html: Seq<char>) -> bool {
    !starts_with(trim_start(html), "<!DOCTYPE"@) && !starts_with(trim_start(html), "<!doctype"@)
}

/// The page for a standalone export: a doctype in front where it has none,
/// then the text that `export_kept` keeps, character for character.
pub open spec fn exported(html: Seq<char>) -> Seq<char> {
    (if needs_doctype(html) {
        "<!DOCTYPE html>\n"@
    } else {
        seq![]
    }) + export_kept(html, 0)
}

/// Post-process the page's markup for a standalone export.
pub fn post_process_export(html: &str) -> (r: String)
    ensures
        r@ == exported(html@),
{
    let mut result: Vec<char> = Vec::new();
    let h = chars_of(html);
    let t = trim_chars_start(h.as_slice());
    if !starts_with_chars(t.as_slice(), chars_of("<!DOCTYPE").as_slice()) && !starts_with_chars(
        t.as_slice(),
        chars_of("<!doctype").as_slice(),
    ) {
        result = chars_of("<!DOCTYPE html>\n");
    }
    let ghost head = result@;
    let s = h.as_slice();
    let script = chars_of("<script");
    let script_end = chars_of("</script>");
    let link_sp = chars_of("<link ");
    let link_nl = chars_of("<link\n");
    let link_tab = chars_of("<link\t");
    let gt = chars_of(">");
    let local = chars_of("localhost");
    let local_ip = chars_of("127.0.0.1");
    let header = chars_of("<div id=\"header\"");
    let div_end = chars_of("</div>");
    let ghost b = s@;
    let mut i: usize = 0;
    while i < s.len()
        invariant
            i <= s.len(),
            b == s@,
            b == html@,
            script@ == "<script"@,
            script_end@ == "</script>"@,
            link_sp@ == "<link "@,
            link_nl@ == "<link\n"@,
            link_tab@ == "<link\t"@,
            gt@ == ">"@,
            local@ == "localhost"@,
            local_ip@ == "127.0.0.1"@,
            header@ == "<div id=\"header\""@,
            div_end@ == "</div>"@,
            head + export_kept(b, 0) == result@ + export_kept(b, i as nat),
        decreases s.len() - i,
    {
        let ghost before = export_kept(b, i as nat);
        if s[i] == '<' {
            if occurs_at_chars(s, i, script.as_slice()) {
                if let Some(e) = find_chars(s, script_end.as_slice(), i) {
                    proof {
                        lemma_find_from(b, script_end@, i as nat);
                        lemma_tag_lengths();
                    }
                    i = e + script_end.len();
                    continue;
                }
            }
            if occurs_at_chars(s, i, link_sp.as_slice()) || occurs_at_chars(s, i, link_nl.as_slice())
                || occurs_at_chars(s, i, link_tab.as_slice()) {
                if let Some(g) = find_chars(s, gt.as_slice(), i) {
                    proof {
                        lemma_find_from(b, gt@, i as nat);
                    }
                    let tag = slice_chars(s, i, g + 1);
                    if find_chars(tag.as_slice(), local.as_slice(), 0).is_some() || find_chars(
                        tag.as_slice(),
                        local_ip.as_slice(),
                        0,
                    ).is_some() {
                        i = g + 1;
                        continue;
                    }
                }
            }
            if occurs_at_chars(s, i, header.as_slice()) {
                if let Some(e) = find_chars(s, div_end.as_slice(), i) {
                    proof {
                        lemma_find_from(b, div_end@, i as nat);
                        lemma_tag_lengths();
                    }
                    i = e + div_end.len();
                    continue;
                }
            }
        }
        let ghost r0 = result@;
        result.push(s[i]);
        proof {
            assert(before == seq![b[i as int]] + export_kept(b, (i + 1) as nat));
            assert(r0.push(b[i as int]) =~= r0 + seq![b[i as int]]);
        }
        i = i + 1;
    }
    proof {
        assert(export_kept(b, i as nat) =~= Seq::<char>::empty());
        assert(result@ + Seq::<char>::empty() =~= result@);
    }
    string_of(result.as_slice())
}

fn trim_chars_start(s: &[char]) -> (r: Vec<char>)
    ensures
        r@ == trim_start(s@),
{
    let mut a: usize = 0;
    assert(s@.subrange(0, s@.len() as int) =~= s@);
    while a < s.len() && crate::text::char_is_ws(s[a])
        invariant
            a <= s.len(),
            trim_start(s@) == trim_start(s@.subrange(a as int, s@.len() as int)),
        decreases s.len() - a,
    {
        proof {
            let t = s@.subrange(a as int, s@.len() as int);
            assert(t.drop_first() =~= s@.subrange(a + 1, s@.len() as int));
        }
        a = a + 1;
    }
    proof {
        let t = s@.subrange(a as int, s@.len() as int);
        assert(t.len() == 0 || !crate::text::is_ws(t[0]));
    }
    slice_chars(s, a, s.len())
}

// ---------------------------------------------------------------- the table of contents

/// The nearest of the first `k` entries, counting back from the `k`-th, whose
/// level is below that of entry `i`.
pub open spec fn nearest_above(levels: Seq<u8>, i: int, k: int) -> Option<nat>
    decreases k,
{
    if k <= 0 {
        None
    } else if levels[k - 1] < levels[i] {
        Some((k - 1) as nat)
    } else {
        nearest_above(levels, i, k - 1)
    }
}

/// The entry that entry `i` nests under in the table of contents: the
/// nearest earlier entry of a lower level; `None` for a top entry.
pub open spec fn toc_parent(levels: Seq<u8>, i: int) -> Option<nat> {
    nearest_above(levels, i, i)
}

/// What `nearest_above` finds: an entry before `k` of a lower level with no
/// entry of a lower level after it and before `k`; or none at all.
pub proof fn lemma_nearest_above(levels: Seq<u8>, i: int, k: int)
    requires
        0 <= i < levels.len(),
        k <= i,
    ensures
        match nearest_above(levels, i, k) {
            Some(j) => j < k && levels[j as int] < levels[i] && forall|m: int|
                j < m < k ==> levels[m] >= levels[i],
            None => forall|m: int| 0 <= m < k ==> levels[m] >= levels[i],
        },
    decreases k,
{
    if k > 0 && levels[k - 1] >= levels[i] {
        lemma_nearest_above(levels, i, k - 1);
    }
}

/// The nesting of the table of contents: each entry nests under the
/// nearest earlier entry of a lower level, and an entry with no earlier
/// entry of a lower level is at the top. So a heading that skips levels
/// nests under the last heading above it, and a later heading of a level
/// at or above an earlier one closes that one's subtree.
pub proof fn lemma_toc_nesting(levels: Seq<u8>, i: int)
    requires
        0 <= i < levels.len(),
    ensures
        match toc_parent(levels, i) {
            Some(j) => j < i && levels[j as int] < levels[i] && forall|m: int|
                j < m < i ==> levels[m] >= levels[i],
            None => forall|m: int| 0 <= m < i ==> levels[m] >= levels[i],
        },
{
    lemma_nearest_above(levels, i, i);
}

/// The entries that the table of contents nests each entry under, by index.
pub fn toc_parents(entries: &[TocEntry]) -> (r: Vec<Option<usize>>)
    ensures
        r@.len() == entries@.len(),
        forall|i: int|
            0 <= i < r@.len() ==> match #[trigger] r@[i] {
                Some(j) => toc_parent(crate::markdown::levels_of(entries@), i) == Some(j as nat),
                None => toc_parent(crate::markdown::levels_of(entries@), i) is None,
            },
{
    let ghost levels = crate::markdown::levels_of(entries@);
    let mut r: Vec<Option<usize>> = Vec::new();
    let mut i: usize = 0;
    while i < entries.len()
        invariant
            i <= entries.len(),
            levels == crate::markdown::levels_of(entries@),
            r@.len() == i,
            forall|k: int|
                0 <= k < i ==> match #[trigger] r@[k] {
                    Some(j) => toc_parent(levels, k) == Some(j as nat),
                    None => toc_parent(levels, k) is None,
                },
        decreases entries.len() - i,
    {
        let level = entries[i].level;
        let mut k: usize = i;
        let mut found: Option<usize> = None;
        while k > 0
            invariant_except_break
                found is None,
            invariant
                k <= i < entries.len(),
                levels == crate::markdown::levels_of(entries@),
                level == levels[i as int],
                nearest_above(levels, i as int, i as int) == nearest_above(levels, i as int, k as int),
            ensures
                match found {
                    Some(j) => toc_parent(levels, i as int) == Some(j as nat),
                    None => toc_parent(levels, i as int) is None,
                },
            decreases k,
        {
            if entries[k - 1].level < level {
                found = Some(k - 1);
                break;
            }
            k = k - 1;
        }
        let ghost before = r@;
        r.push(found);
        assert forall|m: int| 0 <= m < i + 1 implies match #[trigger] r@[m] {
            Some(j) => toc_parent(levels, m) == Some(j as nat),
            None => toc_parent(levels, m) is None,
        } by {
            if m < i {
                assert(r@[m] == before[m]);
            }
        }
        i = i + 1;
    }
    r
}

/// The tab index after a Tab (or, `reverse`, a Shift+Tab) among `len`
/// matches: the next one, or the previous one, round; unchanged without
/// matches.
pub open spec fn cycled(index: nat, len: nat, reverse: bool) -> nat {
    if len == 0 {
        index
    } else if reverse {
        if index == 0 {
            (len - 1) as nat
        } else {
            (index - 1) as nat
        }
    } else {
        (index + 1) % len
    }
}

/// Move the completion index one match on, or back.
pub fn cycle_index(index: usize, len: usize, reverse: bool) -> (r: usize)
    requires
        index < usize::MAX,
    ensures
        r == cycled(index as nat, len as nat, reverse),
{
    if len == 0 {
        return index;
    }
    if reverse {
        if index == 0 {
            len - 1
        } else {
            index - 1
        }
    } else {
        (index + 1) % len
    }
}

// ---------------------------------------------------------------- scripts

/// `s` with `'` escaped as `\'`, as a JavaScript string literal in single
/// quotes needs it.
pub open spec fn quote_escaped(s: Seq<char>) -> Seq<char> {
    crate::text::replace_all(s, "'"@, "\\'"@)
}

/// The script that scrolls the page smoothly to the element `anchor_id`.
pub fn scroll_to_anchor_script(anchor_id: &str) -> (r: String)
    ensures
        r@ == "document.getElementById('"@ + quote_escaped(anchor_id@)
            + "').scrollIntoView({behavior: 'smooth'});"@,
{
    let mut v = chars_of("document.getElementById('");
    let e = crate::text::replace_all_chars(
        chars_of(anchor_id).as_slice(),
        chars_of("'").as_slice(),
        chars_of("\\'").as_slice(),
    );
    push_all(&mut v, e.as_slice());
    push_all(&mut v, chars_of("').scrollIntoView({behavior: 'smooth'});").as_slice());
    string_of(v.as_slice())
}

/// The body escaped for a JavaScript template literal: backslashes first,
/// then backticks, then `${`.
pub open spec fn template_escaped(s: Seq<char>) -> Seq<char> {
    crate::text::replace_all(
        crate::text::replace_all(crate::text::replace_all(s, "\\"@, "\\\\"@), "`"@, "\\`"@),
        "${"@,
        "\\${"@,
    )
}

/// The script that puts a new body into the page in place, and renders its
/// math where the page can.
pub fn body_update_script(html_body: &str) -> (r: String)
    ensures
        r@ == "document.querySelector('.section').innerHTML = `"@ + template_escaped(html_body@)
            + "`;if(typeof renderMath==='function')renderMath();"@,
{
    let a = crate::text::replace_all_chars(
        chars_of(html_body).as_slice(),
        chars_of("\\").as_slice(),
        chars_of("\\\\").as_slice(),
    );
    let b = crate::text::replace_all_chars(
        a.as_slice(),
        chars_of("`").as_slice(),
        chars_of("\\`").as_slice(),
    );
    let c = crate::text::replace_all_chars(
        b.as_slice(),
        chars_of("${").as_slice(),
        chars_of("\\${").as_slice(),
    );
    let mut v = chars_of("document.querySelector('.section').innerHTML = `");
    push_all(&mut v, c.as_slice());
    push_all(&mut v, chars_of("`;if(typeof renderMath==='function')renderMath();").as_slice());
    string_of(v.as_slice())
}

/// The script that sets the page's theme class.
pub fn theme_class_script(class: &str) -> (r: String)
    ensures
        r@ == "document.documentElement.className = '"@ + class@ + "';"@,
{
    let mut v = chars_of("document.documentElement.className = '");
    push_all(&mut v, chars_of(class).as_slice());
    push_all(&mut v, chars_of("';").as_slice());
    string_of(v.as_slice())
}

/// The page's theme class for a theme setting: `light` and `dark` as they
/// are, and for `system` (or anything else) what the desktop prefers.
pub fn theme_class(theme: &str, system_dark: bool) -> (r: &'static str)
    ensures
        r@ == (if theme@ == "light"@ {
            "light"@
        } else if theme@ == "dark"@ {
            "dark"@
        } else if system_dark {
            "dark"@
        } else {
            "light"@
        }),
{
    let t = chars_of(theme);
    if crate::text::chars_eq(t.as_slice(), chars_of("light").as_slice()) {
        "light"
    } else if crate::text::chars_eq(t.as_slice(), chars_of("dark").as_slice()) {
        "dark"
    } else if system_dark {
        "dark"
    } else {
        "light"
    }
}

/// The window title: the document's title, else its file name, then
/// ` - MiP`.
pub fn window_title(doc_title: Option<&str>, filename: &str) -> (r: String)
    ensures
        r@ == match doc_title {
            Some(t) => t@,
            None => filename@,
        } + " - MiP"@,
{
    let mut v = match doc_title {
        Some(t) => chars_of(t),
        None => chars_of(filename),
    };
    push_all(&mut v, chars_of(" - MiP").as_slice());
    string_of(v.as_slice())
}

/// The name that a document shows under: its file name, else `MiP`.
pub fn document_name(path: &str) -> (r: String)
    ensures
        r@ == match crate::text::file_name_of(path@) {
            Some(n) => n,
            None => "MiP"@,
        },
{
    match crate::text::path_file_name(path) {
        Some(n) => n,
        None => string_of(chars_of("MiP").as_slice()),
    }
}

/// A link that the window hands to the desktop's browser: one that leads
/// neither to the local server at `port` nor to an `about:` page.
pub fn opens_externally(uri: &str, port: u16) -> (r: bool)
    ensures
        r == (!starts_with(uri@, "http://localhost:"@ + crate::text::dec(port as nat))
            && !starts_with(uri@, "about:"@)),
{
    let mut origin = chars_of("http://localhost:");
    push_all(&mut origin, crate::text::dec_chars(port as u128).as_slice());
    let u = chars_of(uri);
    !starts_with_chars(u.as_slice(), origin.as_slice()) && !starts_with_chars(
        u.as_slice(),
        chars_of("about:").as_slice(),
    )
}

// ---------------------------------------------------------------- commands

/// How far one step widens or narrows the table of contents panel.
pub const SIDETOC_WIDTH_STEP: i32 = 50;

/// What a command of the command bar does to the window.
#[derive(Debug, Clone, PartialEq, Eq)]
pub enum CommandAction {
    /// Quit.
    Quit,
    /// Open the markdown file at this path (a leading `~` expanded), when it
    /// exists.
    Open(String),
    /// Show the table of contents panel and focus it.
    SidetocOpen,
    /// Hide the table of contents panel and focus the document.
    SidetocClose,
    /// Focus the open table of contents panel.
    SidetocFocus,
    /// Focus the document.
    DocumentFocus,
    /// Widen (`true`) or narrow the panel by one step.
    SidetocResize(bool),
    /// Export the page as a standalone file at this path.
    ExportHtml(String),
    /// `export_html` without a path: a warning.
    ExportNeedsPath,
    /// Open the print dialog.
    Print,
    /// Show or hide the front matter, and render again.
    SetFrontmatter(bool),
    /// Number the headings or not, and render again.
    SetParagraphNumbers(bool),
    /// Start the numbering at this heading level, and render again.
    SetParagraphNumbersStart(u8),
    /// Switch to this theme, and render again.
    SetTheme(String),
    /// A value that the setting does not take: a warning that names what it
    /// expects.
    InvalidValue { setting: String, value: String, expected: String },
    /// Switch between the document and the full-window table of contents.
    QuickToc,
    /// Zoom in one step.
    ZoomIn,
    /// Zoom out one step.
    ZoomOut,
    /// Back to the normal size.
    ZoomReset,
    /// Run this script in the page.
    Script(String),
    /// Nothing to do.
    Nothing,
}

/// The value of a command action.
pub enum ActionView {
    Quit,
    Open(Seq<char>),
    SidetocOpen,
    SidetocClose,
    SidetocFocus,
    DocumentFocus,
    SidetocResize(bool),
    ExportHtml(Seq<char>),
    ExportNeedsPath,
    Print,
    SetFrontmatter(bool),
    SetParagraphNumbers(bool),
    SetParagraphNumbersStart(u8),
    SetTheme(Seq<char>),
    InvalidValue { setting: Seq<char>, value: Seq<char>, expected: Seq<char> },
    QuickToc,
    ZoomIn,
    ZoomOut,
    ZoomReset,
    Script(Seq<char>),
    Nothing,
}

impl View for CommandAction {
    type V = ActionView;

    open spec fn view(&self) -> ActionView {
        match self {
            CommandAction::Quit => ActionView::Quit,
            CommandAction::Open(p) => ActionView::Open(p@),
            CommandAction::SidetocOpen => ActionView::SidetocOpen,
            CommandAction::SidetocClose => ActionView::SidetocClose,
            CommandAction::SidetocFocus => ActionView::SidetocFocus,
            CommandAction::DocumentFocus => ActionView::DocumentFocus,
            CommandAction::SidetocResize(w) => ActionView::SidetocResize(*w),
            CommandAction::ExportHtml(p) => ActionView::ExportHtml(p@),
            CommandAction::ExportNeedsPath => ActionView::ExportNeedsPath,
            CommandAction::Print => ActionView::Print,
            CommandAction::SetFrontmatter(b) => ActionView::SetFrontmatter(*b),
            CommandAction::SetParagraphNumbers(b) => ActionView::SetParagraphNumbers(*b),
            CommandAction::SetParagraphNumbersStart(n) => ActionView::SetParagraphNumbersStart(*n),
            CommandAction::SetTheme(t) => ActionView::SetTheme(t@),
            CommandAction::InvalidValue { setting, value, expected } => ActionView::InvalidValue {
                setting: setting@,
                value: value@,
                expected: expected@,
            },
            CommandAction::QuickToc => ActionView::QuickToc,
            CommandAction::ZoomIn => ActionView::ZoomIn,
            CommandAction::ZoomOut => ActionView::ZoomOut,
            CommandAction::ZoomReset => ActionView::ZoomReset,
            CommandAction::Script(js) => ActionView::Script(js@),
            CommandAction::Nothing => ActionView::Nothing,
        }
    }
}

/// The decimal value of a run of ASCII digits.
pub open spec fn digits_value(s: Seq<char>) -> nat
    decreases s.len(),
{
    if s.len() == 0 {
        0
    } else {
        10 * digits_value(s.drop_last()) + ((s.last() as nat) - ('0' as nat)) as nat
    }
}

/// Every character is an ASCII digit.
pub open spec fn all_digits(s: Seq<char>) -> bool {
    forall|i: int| 0 <= i < s.len() ==> '0' <= #[trigger] s[i] && s[i] <= '9'
}

/// What `str::parse::<u8>` gives: an optional `+`, then one or more ASCII
/// digits whose value is at most 255.
pub open spec fn parsed_u8(s: Seq<char>) -> Option<u8> {
    let d = if s.len() > 0 && s[0] == '+' {
        s.drop_first()
    } else {
        s
    };
    if d.len() > 0 && all_digits(d) && digits_value(d) <= 255 {
        Some(digits_value(d) as u8)
    } else {
        None
    }
}

/// Parse a `u8` as `str::parse` does.
pub fn parse_u8(s: &str) -> (r: Option<u8>)
    ensures
        r == parsed_u8(s@),
{
    let v = chars_of(s);
    let d = if v.len() > 0 && v[0] == '+' {
        slice_chars(v.as_slice(), 1, v.len())
    } else {
        slice_chars(v.as_slice(), 0, v.len())
    };
    assert(d@ == (if s@.len() > 0 && s@[0] == '+' {
        s@.drop_first()
    } else {
        s@
    }));
    if d.len() == 0 {
        return None;
    }
    // The value so far, held at 256 once it is past 255.
    let mut acc: u32 = 0;
    let mut i: usize = 0;
    while i < d.len()
        invariant
            i <= d.len(),
            d@.len() > 0,
            d@ == (if s@.len() > 0 && s@[0] == '+' {
                s@.drop_first()
            } else {
                s@
            }),
            all_digits(d@.subrange(0, i as int)),
            acc == (if digits_value(d@.subrange(0, i as int)) > 255 {
                256
            } else {
                digits_value(d@.subrange(0, i as int))
            }),
        decreases d.len() - i,
    {
        let c = d[i];
        if c < '0' || c > '9' {
            proof {
                assert(!all_digits(d@)) by {
                    assert(d@[i as int] == c);
                }
            }
            return None;
        }
        let ghost pre = d@.subrange(0, i as int);
        assert(d@.subrange(0, i + 1).drop_last() =~= pre);
        let dv: u32 = (c as u32) - ('0' as u32);
        let next = acc * 10 + dv;
        acc = if next > 255 {
            256
        } else {
            next
        };
        i = i + 1;
    }
    assert(d@.subrange(0, i as int) =~= d@);
    if acc > 255 {
        None
    } else {
        Some(acc as u8)
    }
}

/// `n` held to 1..=6.
pub open spec fn clamped_level(n: u8) -> u8 {
    if n < 1 {
        1
    } else if n > 6 {
        6
    } else {
        n
    }
}

/// The setting and the value of a `set` argument: the text up to its first
/// white space and what follows that white space, each trimmed.
pub open spec fn setting_parts(arg: Seq<char>) -> (Seq<char>, Seq<char>) {
    match crate::text::first_ws_from(arg, 0) {
        Some(i) => (
            crate::text::trim(arg.subrange(0, i as int)),
            crate::text::trim(arg.subrange((i + 1) as int, arg.len() as int)),
        ),
        None => (crate::text::trim(arg), seq![]),
    }
}

/// A value that turns a setting on, or off.
pub open spec fn on_value(v: Seq<char>) -> bool {
    v == "true"@ || v == "1"@ || v == "on"@
}

/// A value that turns a setting off.
pub open spec fn off_value(v: Seq<char>) -> bool {
    v == "false"@ || v == "0"@ || v == "off"@
}

/// What `set <setting> <value>` does.
pub open spec fn set_action(arg: Seq<char>) -> ActionView {
    let (setting, value) = setting_parts(arg);
    if setting == "frontmatter"@ {
        if on_value(value) {
            ActionView::SetFrontmatter(true)
        } else if off_value(value) {
            ActionView::SetFrontmatter(false)
        } else {
            ActionView::InvalidValue { setting, value, expected: "true/false"@ }
        }
    } else if setting == "paragraph_numbers"@ {
        if on_value(value) {
            ActionView::SetParagraphNumbers(true)
        } else if off_value(value) {
            ActionView::SetParagraphNumbers(false)
        } else {
            ActionView::InvalidValue { setting, value, expected: "true/false"@ }
        }
    } else if setting == "paragraph_numbers_start"@ {
        match parsed_u8(value) {
            Some(n) => ActionView::SetParagraphNumbersStart(clamped_level(n)),
            None => ActionView::InvalidValue { setting, value, expected: "1-6"@ },
        }
    } else if setting == "theme"@ {
        if value == "system"@ || value == "light"@ || value == "dark"@ {
            ActionView::SetTheme(value)
        } else {
            ActionView::InvalidValue { setting, value, expected: "system/light/dark"@ }
        }
    } else {
        ActionView::Nothing
    }
}

/// The script of a scrolling command, if `cmd` is one.
pub open spec fn scroll_script(cmd: Seq<char>) -> Option<Seq<char>> {
    if cmd == "scroll_down"@ {
        Some("window.scrollBy(0, 60)"@)
    } else if cmd == "scroll_up"@ {
        Some("window.scrollBy(0, -60)"@)
    } else if cmd == "scroll_page_down"@ {
        Some("window.scrollBy(0, window.innerHeight)"@)
    } else if cmd == "scroll_page_up"@ {
        Some("window.scrollBy(0, -window.innerHeight)"@)
    } else if cmd == "scroll_half_down"@ {
        Some("window.scrollBy(0, window.innerHeight/2)"@)
    } else if cmd == "scroll_half_up"@ {
        Some("window.scrollBy(0, -window.innerHeight/2)"@)
    } else if cmd == "scroll_top"@ {
        Some("window.scrollTo(0, 0)"@)
    } else if cmd == "scroll_bottom"@ {
        Some("window.scrollTo(0, document.body.scrollHeight)"@)
    } else if cmd == "scroll_next_heading"@ {
        Some(NEXT_HEADING_SCRIPT@)
    } else if cmd == "scroll_prev_heading"@ {
        Some(PREV_HEADING_SCRIPT@)
    } else {
        None
    }
}

/// The script that scrolls to the first heading below the top of the view.
pub const NEXT_HEADING_SCRIPT: &'static str = "(function(){var h=document.querySelectorAll('h1[id],h2[id],h3[id],h4[id],h5[id],h6[id]');var y=window.scrollY+10;for(var i=0;i<h.length;i++){if(h[i].offsetTop>y){h[i].scrollIntoView({behavior:'instant'});return;}}})()";

/// The script that scrolls to the last heading above the top of the view.
pub const PREV_HEADING_SCRIPT: &'static str = "(function(){var h=document.querySelectorAll('h1[id],h2[id],h3[id],h4[id],h5[id],h6[id]');var y=window.scrollY-10;for(var i=h.length-1;i>=0;i--){if(h[i].offsetTop<y){h[i].scrollIntoView({behavior:'instant'});return;}}})()";

/// What the command `cmd` with its argument `arg` does, when the table of
/// contents panel is open (`toc_open`) or not; `home` expands a leading `~`
/// of a path. An unknown command does nothing.
pub open spec fn action_of(cmd: Seq<char>, arg: Seq<char>, toc_open: bool, home: Seq<char>) -> ActionView {
    if cmd == "q"@ || cmd == "close"@ {
        ActionView::Quit
    } else if cmd == "open"@ || cmd == "o"@ {
        if arg.len() == 0 {
            ActionView::Nothing
        } else {
            ActionView::Open(crate::command::tilde_expanded(arg, home))
        }
    } else if cmd == "sidetoc_open"@ {
        ActionView::SidetocOpen
    } else if cmd == "document_focus"@ {
        ActionView::DocumentFocus
    } else if cmd == "sidetoc_focus"@ {
        if toc_open {
            ActionView::SidetocFocus
        } else {
            ActionView::Nothing
        }
    } else if cmd == "sidetoc_close"@ {
        ActionView::SidetocClose
    } else if cmd == "sidetoc_toggle"@ {
        if toc_open {
            ActionView::SidetocClose
        } else {
            ActionView::SidetocOpen
        }
    } else if cmd == "sidetoc_expand_width"@ {
        ActionView::SidetocResize(true)
    } else if cmd == "sidetoc_shrink_width"@ {
        ActionView::SidetocResize(false)
    } else if cmd == "export_html"@ {
        if arg.len() == 0 {
            ActionView::ExportNeedsPath
        } else {
            ActionView::ExportHtml(crate::command::tilde_expanded(arg, home))
        }
    } else if cmd == "print"@ {
        ActionView::Print
    } else if cmd == "set"@ {
        set_action(arg)
    } else if cmd == "quicktoc"@ {
        ActionView::QuickToc
    } else if cmd == "zoom_in"@ {
        ActionView::ZoomIn
    } else if cmd == "zoom_out"@ {
        ActionView::ZoomOut
    } else if cmd == "zoom_reset"@ {
        ActionView::ZoomReset
    } else {
        match scroll_script(cmd) {
            Some(js) => ActionView::Script(js),
            None => ActionView::Nothing,
        }
    }
}

fn is_lit(s: &[char], lit: &str) -> (r: bool)
    ensures
        r == (s@ == lit@),
{
    crate::text::chars_eq(s, chars_of(lit).as_slice())
}

fn owned(s: &str) -> (r: String)
    ensures
        r@ == s@,
{
    string_of(chars_of(s).as_slice())
}

fn owned_chars(s: &[char]) -> (r: String)
    ensures
        r@ == s@,
{
    string_of(s)
}

fn set_command(arg: &str) -> (r: CommandAction)
    ensures
        r@ == set_action(arg@),
{
    let a = chars_of(arg);
    let mut i: usize = 0;
    while i < a.len() && !crate::text::char_is_ws(a[i])
        invariant
            i <= a.len(),
            crate::text::first_ws_from(a@, 0) == crate::text::first_ws_from(a@, i as nat),
        decreases a.len() - i,
    {
        i = i + 1;
    }
    let (setting, value) = if i < a.len() {
        let first = slice_chars(a.as_slice(), 0, i);
        let rest = slice_chars(a.as_slice(), i + 1, a.len());
        (trim_chars(first.as_slice()), trim_chars(rest.as_slice()))
    } else {
        assert(crate::text::first_ws_from(a@, i as nat) is None);
        let empty: Vec<char> = Vec::new();
        assert(a@.subrange(0, a@.len() as int) =~= a@);
        (trim_chars(a.as_slice()), empty)
    };
    assert((setting@, value@) == setting_parts(arg@));
    let st = setting.as_slice();
    let vl = value.as_slice();
    let on = is_lit(vl, "true") || is_lit(vl, "1") || is_lit(vl, "on");
    let off = is_lit(vl, "false") || is_lit(vl, "0") || is_lit(vl, "off");
    if is_lit(st, "frontmatter") {
        if on {
            CommandAction::SetFrontmatter(true)
        } else if off {
            CommandAction::SetFrontmatter(false)
        } else {
            CommandAction::InvalidValue {
                setting: owned_chars(st),
                value: owned_chars(vl),
                expected: owned("true/false"),
            }
        }
    } else if is_lit(st, "paragraph_numbers") {
        if on {
            CommandAction::SetParagraphNumbers(true)
        } else if off {
            CommandAction::SetParagraphNumbers(false)
        } else {
            CommandAction::InvalidValue {
                setting: owned_chars(st),
                value: owned_chars(vl),
                expected: owned("true/false"),
            }
        }
    } else if is_lit(st, "paragraph_numbers_start") {
        let vs = owned_chars(vl);
        match parse_u8(vs.as_str()) {
            Some(n) => {
                let m = if n < 1 {
                    1
                } else if n > 6 {
                    6
                } else {
                    n
                };
                CommandAction::SetParagraphNumbersStart(m)
            },
            None => CommandAction::InvalidValue {
                setting: owned_chars(st),
                value: vs,
                expected: owned("1-6"),
            },
        }
    } else if is_lit(st, "theme") {
        if is_lit(vl, "system") || is_lit(vl, "light") || is_lit(vl, "dark") {
            CommandAction::SetTheme(owned_chars(vl))
        } else {
            CommandAction::InvalidValue {
                setting: owned_chars(st),
                value: owned_chars(vl),
                expected: owned("system/light/dark"),
            }
        }
    } else {
        CommandAction::Nothing
    }
}

fn scroll_command(c: &[char]) -> (r: Option<String>)
    ensures
        match r {
            Some(js) => scroll_script(c@) == Some(js@),
            None => scroll_script(c@) is None,
        },
{
    if is_lit(c, "scroll_down") {
        Some(owned("window.scrollBy(0, 60)"))
    } else if is_lit(c, "scroll_up") {
        Some(owned("window.scrollBy(0, -60)"))
    } else if is_lit(c, "scroll_page_down") {
        Some(owned("window.scrollBy(0, window.innerHeight)"))
    } else if is_lit(c, "scroll_page_up") {
        Some(owned("window.scrollBy(0, -window.innerHeight)"))
    } else if is_lit(c, "scroll_half_down") {
        Some(owned("window.scrollBy(0, window.innerHeight/2)"))
    } else if is_lit(c, "scroll_half_up") {
        Some(owned("window.scrollBy(0, -window.innerHeight/2)"))
    } else if is_lit(c, "scroll_top") {
        Some(owned("window.scrollTo(0, 0)"))
    } else if is_lit(c, "scroll_bottom") {
        Some(owned("window.scrollTo(0, document.body.scrollHeight)"))
    } else if is_lit(c, "scroll_next_heading") {
        Some(owned(NEXT_HEADING_SCRIPT))
    } else if is_lit(c, "scroll_prev_heading") {
        Some(owned(PREV_HEADING_SCRIPT))
    } else {
        None
    }
}

/// Each command of the command bar does what it is named for, whatever its
/// argument, the state of the side table of contents and the home
/// directory: `q` and `close` quit, `print` prints, `quicktoc` opens the
/// full-window table of contents, `zoom_in`, `zoom_out` and `zoom_reset`
/// zoom in, out and back, the side panel commands open, close, focus and
/// resize it, and `open` and `export_html` take the path they are given,
/// with `~` standing for the home directory.
pub proof fn lemma_commands_do_what_they_name(arg: Seq<char>, toc_open: bool, home: Seq<char>)
    ensures
        action_of("q"@, arg, toc_open, home) == ActionView::Quit,
        action_of("close"@, arg, toc_open, home) == ActionView::Quit,
        action_of("print"@, arg, toc_open, home) == ActionView::Print,
        action_of("quicktoc"@, arg, toc_open, home) == ActionView::QuickToc,
        action_of("zoom_in"@, arg, toc_open, home) == ActionView::ZoomIn,
        action_of("zoom_out"@, arg, toc_open, home) == ActionView::ZoomOut,
        action_of("zoom_reset"@, arg, toc_open, home) == ActionView::ZoomReset,
        action_of("sidetoc_open"@, arg, toc_open, home) == ActionView::SidetocOpen,
        action_of("sidetoc_close"@, arg, toc_open, home) == ActionView::SidetocClose,
        action_of("document_focus"@, arg, toc_open, home) == ActionView::DocumentFocus,
        action_of("sidetoc_focus"@, arg, toc_open, home) == (if toc_open {
            ActionView::SidetocFocus
        } else {
            ActionView::Nothing
        }),
        action_of("sidetoc_toggle"@, arg, toc_open, home) == (if toc_open {
            ActionView::SidetocClose
        } else {
            ActionView::SidetocOpen
        }),
        action_of("sidetoc_expand_width"@, arg, toc_open, home) == ActionView::SidetocResize(true),
        action_of("sidetoc_shrink_width"@, arg, toc_open, home) == ActionView::SidetocResize(false),
        arg.len() > 0 && arg[0] != '~' ==> action_of("open"@, arg, toc_open, home)
            == ActionView::Open(arg),
        arg.len() > 0 && arg[0] != '~' ==> action_of("o"@, arg, toc_open, home) == ActionView::Open(
            arg,
        ),
        arg.len() > 0 && arg[0] != '~' ==> action_of("export_html"@, arg, toc_open, home)
            == ActionView::ExportHtml(arg),
        arg.len() > 0 && arg[0] == '~' ==> action_of("open"@, arg, toc_open, home)
            == ActionView::Open(home + arg.drop_first()),
        arg.len() == 0 ==> action_of("open"@, arg, toc_open, home) == ActionView::Nothing
            && action_of("export_html"@, arg, toc_open, home) == ActionView::ExportNeedsPath,
{
    assert("q"@ =~= seq!['q']) by {
        reveal_strlit("q");
    }
    assert("close"@ =~= seq!['c', 'l', 'o', 's', 'e']) by {
        reveal_strlit("close");
    }
    assert("open"@ =~= seq!['o', 'p', 'e', 'n']) by {
        reveal_strlit("open");
    }
    assert("o"@ =~= seq!['o']) by {
        reveal_strlit("o");
    }
    assert("sidetoc_open"@ =~= seq!['s', 'i', 'd', 'e', 't', 'o', 'c', '_', 'o', 'p', 'e', 'n']) by {
        reveal_strlit("sidetoc_open");
    }
    assert("document_focus"@ =~= seq!['d', 'o', 'c', 'u', 'm', 'e', 'n', 't', '_', 'f', 'o', 'c', 'u', 's']) by {
        reveal_strlit("document_focus");
    }
    assert("sidetoc_focus"@ =~= seq!['s', 'i', 'd', 'e', 't', 'o', 'c', '_', 'f', 'o', 'c', 'u', 's']) by {
        reveal_strlit("sidetoc_focus");
    }
    assert("sidetoc_close"@ =~= seq!['s', 'i', 'd', 'e', 't', 'o', 'c', '_', 'c', 'l', 'o', 's', 'e']) by {
        reveal_strlit("sidetoc_close");
    }
    assert("sidetoc_toggle"@ =~= seq!['s', 'i', 'd', 'e', 't', 'o', 'c', '_', 't', 'o', 'g', 'g', 'l', 'e']) by {
        reveal_strlit("sidetoc_toggle");
    }
    assert("sidetoc_expand_width"@ =~= seq!['s', 'i', 'd', 'e', 't', 'o', 'c', '_', 'e', 'x', 'p', 'a', 'n', 'd', '_', 'w', 'i', 'd', 't', 'h']) by {
        reveal_strlit("sidetoc_expand_width");
    }
    assert("sidetoc_shrink_width"@ =~= seq!['s', 'i', 'd', 'e', 't', 'o', 'c', '_', 's', 'h', 'r', 'i', 'n', 'k', '_', 'w', 'i', 'd', 't', 'h']) by {
        reveal_strlit("sidetoc_shrink_width");
    }
    assert("export_html"@ =~= seq!['e', 'x', 'p', 'o', 'r', 't', '_', 'h', 't', 'm', 'l']) by {
        reveal_strlit("export_html");
    }
    assert("print"@ =~= seq!['p', 'r', 'i', 'n', 't']) by {
        reveal_strlit("print");
    }
    assert("set"@ =~= seq!['s', 'e', 't']) by {
        reveal_strlit("set");
    }
    assert("quicktoc"@ =~= seq!['q', 'u', 'i', 'c', 'k', 't', 'o', 'c']) by {
        reveal_strlit("quicktoc");
    }
    assert("zoom_in"@ =~= seq!['z', 'o', 'o', 'm', '_', 'i', 'n']) by {
        reveal_strlit("zoom_in");
    }
    assert("zoom_out"@ =~= seq!['z', 'o', 'o', 'm', '_', 'o', 'u', 't']) by {
        reveal_strlit("zoom_out");
    }
    assert("zoom_reset"@ =~= seq!['z', 'o', 'o', 'm', '_', 'r', 'e', 's', 'e', 't']) by {
        reveal_strlit("zoom_reset");
    }
    assert("o"@[0] != "q"@[0]);
    assert("o"@ != "close"@ && "o"@ != "q"@);
}

/// What the command `cmd` with its argument `arg` does, when the table of
/// contents panel is open (`toc_open`) or not; `home` (the value of `HOME`,
/// empty when unset) expands a leading `~` of a path.
pub fn command_action(cmd: &str, arg: &str, toc_open: bool, home: &str) -> (r: CommandAction)
    ensures
        r@ == action_of(cmd@, arg@, toc_open, home@),
{
    let c = chars_of(cmd);
    let cs = c.as_slice();
    let arg_empty = chars_of(arg).len() == 0;
    if is_lit(cs, "q") || is_lit(cs, "close") {
        CommandAction::Quit
    } else if is_lit(cs, "open") || is_lit(cs, "o") {
        if arg_empty {
            CommandAction::Nothing
        } else {
            CommandAction::Open(crate::command::expand_tilde(arg, home))
        }
    } else if is_lit(cs, "sidetoc_open") {
        CommandAction::SidetocOpen
    } else if is_lit(cs, "document_focus") {
        CommandAction::DocumentFocus
    } else if is_lit(cs, "sidetoc_focus") {
        if toc_open {
            CommandAction::SidetocFocus
        } else {
            CommandAction::Nothing
        }
    } else if is_lit(cs, "sidetoc_close") {
        CommandAction::SidetocClose
    } else if is_lit(cs, "sidetoc_toggle") {
        if toc_open {
            CommandAction::SidetocClose
        } else {
            CommandAction::SidetocOpen
        }
    } else if is_lit(cs, "sidetoc_expand_width") {
        CommandAction::SidetocResize(true)
    } else if is_lit(cs, "sidetoc_shrink_width") {
        CommandAction::SidetocResize(false)
    } else if is_lit(cs, "export_html") {
        if arg_empty {
            CommandAction::ExportNeedsPath
        } else {
            CommandAction::ExportHtml(crate::command::expand_tilde(arg, home))
        }
    } else if is_lit(cs, "print") {
        CommandAction::Print
    } else if is_lit(cs, "set") {
        set_command(arg)
    } else if is_lit(cs, "quicktoc") {
        CommandAction::QuickToc
    } else if is_lit(cs, "zoom_in") {
        CommandAction::ZoomIn
    } else if is_lit(cs, "zoom_out") {
        CommandAction::ZoomOut
    } else if is_lit(cs, "zoom_reset") {
        CommandAction::ZoomReset
    } else {
        match scroll_command(cs) {
            Some(js) => CommandAction::Script(js),
            None => CommandAction::Nothing,
        }
    }
}

/// The commands of a command line: its `;`-separated parts, each split
/// into command and argument.
pub open spec fn planned(text: Seq<char>) -> Seq<(Seq<char>, Seq<char>)> {
    crate::text::split_on(text, ';').map_values(|p: Seq<char>| crate::text::trim(p)).filter(
        |p: Seq<char>| p.len() > 0,
    ).map_values(|p: Seq<char>| crate::command::command_parts(p))
}

/// The commands that a command line runs, in order, each as command and
/// argument.
pub fn plan_commands(text: &str) -> (r: Vec<(String, String)>)
    ensures
        r@.map_values(|p: (String, String)| (p.0@, p.1@)) == crate::command::nonempty_trimmed(
            crate::text::split_on(text@, ';'),
        ).map_values(|p: Seq<char>| crate::command::command_parts(p)),
{
    let parts = crate::command::split_commands(text);
    let ghost pv = crate::text::strings_view(parts@);
    let mut r: Vec<(String, String)> = Vec::new();
    let mut i: usize = 0;
    while i < parts.len()
        invariant
            i <= parts.len(),
            pv == crate::text::strings_view(parts@),
            pv == crate::command::nonempty_trimmed(crate::text::split_on(text@, ';')),
            r@.len() == i,
            r@.map_values(|p: (String, String)| (p.0@, p.1@)) == pv.subrange(0, i as int).map_values(
                |p: Seq<char>| crate::command::command_parts(p),
            ),
        decreases parts.len() - i,
    {
        let ghost before = r@;
        let pc = crate::command::parse_command(parts[i].as_str());
        assert(pv[i as int] == parts@[i as int]@);
        r.push(pc);
        let ghost f = |p: (String, String)| (p.0@, p.1@);
        let ghost g = |p: Seq<char>| crate::command::command_parts(p);
        assert forall|k: int| 0 <= k < i + 1 implies #[trigger] r@.map_values(f)[k] == pv.subrange(
            0,
            i + 1,
        ).map_values(g)[k] by {
            if k < i {
                assert(r@[k] == before[k]);
                assert(before.map_values(f)[k] == pv.subrange(0, i as int).map_values(g)[k]);
            }
        }
        assert(r@.map_values(f) =~= pv.subrange(0, i + 1).map_values(g));
        i = i + 1;
    }
    assert(pv.subrange(0, i as int) =~= pv);
    r
}

/// Where the divider of the panel stands when it is open: the panel's
/// width from the left edge, or from the right edge of a window `total`
/// wide.
pub open spec fn open_position(right: bool, total: int, width: int) -> int {
    if right {
        total - width
    } else {
        width
    }
}

/// The divider's position with the panel open.
pub fn sidetoc_open_position(right: bool, total: i32, width: i32) -> (r: i32)
    requires
        right ==> i32::MIN <= total - width <= i32::MAX,
    ensures
        r == open_position(right, total as int, width as int),
{
    if right {
        total - width
    } else {
        width
    }
}

/// The divider's position with the panel closed: at the window's right
/// edge, or at the left edge.
pub fn sidetoc_closed_position(right: bool, total: i32) -> (r: i32)
    ensures
        r == (if right {
            total
        } else {
            0
        }),
{
    if right {
        total
    } else {
        0
    }
}

/// The divider's position after widening (`widen`) or narrowing the panel
/// by one step: it moves toward the document when widening, away from it
/// when narrowing, and never past the left edge.
pub open spec fn resized_position(pos: int, right: bool, widen: bool) -> int {
    if right == widen {
        if pos - SIDETOC_WIDTH_STEP >= 0 {
            pos - SIDETOC_WIDTH_STEP
        } else {
            0
        }
    } else {
        pos + SIDETOC_WIDTH_STEP
    }
}

/// The divider's position after one step of `sidetoc_expand_width`
/// (`widen`) or `sidetoc_shrink_width`.
pub fn sidetoc_resized_position(pos: i32, right: bool, widen: bool) -> (r: i32)
    requires
        pos + SIDETOC_WIDTH_STEP <= i32::MAX,
        pos - SIDETOC_WIDTH_STEP >= i32::MIN,
    ensures
        r == resized_position(pos as int, right, widen),
{
    if right == widen {
        let p = pos - SIDETOC_WIDTH_STEP;
        if p >= 0 {
            p
        } else {
            0
        }
    } else {
        pos + SIDETOC_WIDTH_STEP
    }
}

// ---------------------------------------------------------------- completion

/// What Tab completes in the command bar.
#[derive(Debug, Clone, Copy, PartialEq, Eq)]
pub enum CompletionKind {
    /// A command name.
    Command,
    /// A setting name after `set `.
    Setting,
    /// A path after `open ` (`long`) or `o `; `used_tilde` when the typed
    /// path starts with `~`.
    Path { long: bool, used_tilde: bool },
}

/// What Tab completes, and the word typed so far.
#[derive(Debug, Clone)]
pub struct CompletionRequest {
    pub kind: CompletionKind,
    pub word: String,
}

/// `s` without the prefix `p`, when it starts with it.
pub open spec fn after_prefix(s: Seq<char>, p: Seq<char>) -> Option<Seq<char>> {
    if starts_with(s, p) {
        Some(s.subrange(p.len() as int, s.len() as int))
    } else {
        None
    }
}

/// What Tab completes in the command bar's text, if anything: a command
/// name while the text (without its `:`) holds no space; a setting name
/// after `set ` while the trimmed rest holds no space; a path after `open `
/// or `o `.
pub open spec fn completion_of(text: Seq<char>) -> Option<(CompletionKind, Seq<char>)> {
    let t = crate::command::strip_colon(text);
    if !t.contains(' ') {
        Some((CompletionKind::Command, t))
    } else if starts_with(t, "set "@) {
        let w = crate::text::trim(t.subrange(4, t.len() as int));
        if !w.contains(' ') {
            Some((CompletionKind::Setting, w))
        } else {
            None
        }
    } else {
        let long = starts_with(t, "open "@);
        let arg = if long {
            after_prefix(t, "open "@)
        } else {
            after_prefix(t, "o "@)
        };
        match arg {
            Some(a) => Some(
                (CompletionKind::Path { long, used_tilde: a.len() > 0 && a[0] == '~' }, a),
            ),
            None => None,
        }
    }
}

fn has_space(s: &[char]) -> (r: bool)
    ensures
        r == s@.contains(' '),
{
    let mut i: usize = 0;
    while i < s.len()
        invariant
            i <= s.len(),
            forall|k: int| 0 <= k < i ==> s@[k] != ' ',
        decreases s.len() - i,
    {
        if s[i] == ' ' {
            assert(s@[i as int] == ' ');
            return true;
        }
        i = i + 1;
    }
    false
}

/// What Tab completes in the command bar's text `text`.
pub fn completion_request(text: &str) -> (r: Option<CompletionRequest>)
    ensures
        match r {
            Some(q) => completion_of(text@) == Some((q.kind, q.word@)),
            None => completion_of(text@) is None,
        },
{
    let v = chars_of(text);
    let t = if v.len() > 0 && v[0] == ':' {
        slice_chars(v.as_slice(), 1, v.len())
    } else {
        v
    };
    assert(t@ == crate::command::strip_colon(text@)) by {
        if text@.len() > 0 && text@[0] == ':' {
            assert(text@.drop_first() =~= text@.subrange(1, text@.len() as int));
        }
    }
    let ts = t.as_slice();
    if !has_space(ts) {
        return Some(CompletionRequest { kind: CompletionKind::Command, word: owned_chars(ts) });
    }
    if starts_with_chars(ts, chars_of("set ").as_slice()) {
        proof {
            reveal_strlit("set ");
        }
        let rest = slice_chars(ts, 4, ts.len());
        let w = trim_chars(rest.as_slice());
        if !has_space(w.as_slice()) {
            return Some(CompletionRequest { kind: CompletionKind::Setting, word: owned_chars(w.as_slice()) });
        }
        return None;
    }
    let long = starts_with_chars(ts, chars_of("open ").as_slice());
    let p = if long {
        chars_of("open ")
    } else {
        chars_of("o ")
    };
    if starts_with_chars(ts, p.as_slice()) {
        let a = slice_chars(ts, p.len(), ts.len());
        let used_tilde = a.len() > 0 && a[0] == '~';
        Some(CompletionRequest { kind: CompletionKind::Path { long, used_tilde }, word: owned_chars(a.as_slice()) })
    } else {
        None
    }
}

/// The matches of a completion of a command or a setting name; `None` for a
/// path, whose matches come from the directory.
pub fn name_matches(q: &CompletionRequest) -> (r: Option<Vec<String>>)
    ensures
        match q.kind {
            CompletionKind::Command => r is Some && crate::text::strings_view(r->0@)
                == crate::command::prefixed_by(crate::command::commands(), q.word@),
            CompletionKind::Setting => r is Some && crate::text::strings_view(r->0@)
                == crate::command::prefixed_by(crate::command::settings(), q.word@),
            CompletionKind::Path { .. } => r is None,
        },
{
    match q.kind {
        CompletionKind::Command => Some(crate::command::match_commands(q.word.as_str())),
        CompletionKind::Setting => Some(crate::command::match_settings(q.word.as_str())),
        CompletionKind::Path { .. } => None,
    }
}

/// The command bar after a completion: its text, the cursor (a byte
/// offset, at the end), and the wildmenu's markup when it shows.
#[derive(Debug, Clone)]
pub struct Completion {
    pub text: String,
    pub cursor: usize,
    pub wildmenu: Option<String>,
}

/// The text of the command bar that completes to `m`.
pub open spec fn completed_text(kind: CompletionKind, m: Seq<char>, single: bool, home: Seq<char>) -> Seq<char> {
    match kind {
        CompletionKind::Command => ":"@ + m + (if single {
            " "@
        } else {
            seq![]
        }),
        CompletionKind::Setting => ":set "@ + m + (if single {
            " "@
        } else {
            seq![]
        }),
        CompletionKind::Path { long, used_tilde } => (if long {
            ":open "@
        } else {
            ":o "@
        }) + crate::command::tilde_unexpanded(m, used_tilde, home),
    }
}

/// The most matches that the wildmenu shows at once.
pub const WILDMENU_MAX: usize = 10;

/// The command bar with the match at `index` of `matches` taken: the
/// completed text, the cursor at its end, and the wildmenu unless there is
/// a single match; nothing when `index` is past the matches. `home` is the
/// value of `HOME` (empty when unset).
pub fn complete(kind: CompletionKind, matches: &Vec<String>, index: usize, home: &str) -> (r: Option<Completion>)
    ensures
        index >= matches@.len() ==> r is None,
        index < matches@.len() ==> r is Some && ({
            let c = r->0;
            let ms = crate::text::strings_view(matches@);
            &&& c.text@ == completed_text(kind, ms[index as int], ms.len() == 1, home@)
            &&& c.cursor == vstd::utf8::encode_utf8(c.text@).len() as usize
            &&& c.wildmenu is Some <==> ms.len() > 1
            &&& c.wildmenu is Some ==> c.wildmenu->0@ == crate::command::wildmenu_text(
                ms,
                index as nat,
                WILDMENU_MAX as nat,
            )
        }),
{
    if index >= matches.len() {
        return None;
    }
    let ghost ms = crate::text::strings_view(matches@);
    let m = matches[index].as_str();
    assert(ms[index as int] == m@);
    let single = matches.len() == 1;
    let mut t: Vec<char> = Vec::new();
    match kind {
        CompletionKind::Command => {
            t = chars_of(":");
            push_all(&mut t, chars_of(m).as_slice());
            if single {
                push_all(&mut t, chars_of(" ").as_slice());
            }
        },
        CompletionKind::Setting => {
            t = chars_of(":set ");
            push_all(&mut t, chars_of(m).as_slice());
            if single {
                push_all(&mut t, chars_of(" ").as_slice());
            }
        },
        CompletionKind::Path { long, used_tilde } => {
            t = if long {
                chars_of(":open ")
            } else {
                chars_of(":o ")
            };
            let d = crate::command::unexpand_tilde(m, used_tilde, home);
            push_all(&mut t, chars_of(d.as_str()).as_slice());
        },
    }
    proof {
        match kind {
            CompletionKind::Command => {
                if !single {
                    assert(t@ =~= ":"@ + m@ + Seq::<char>::empty());
                }
            },
            CompletionKind::Setting => {
                if !single {
                    assert(t@ =~= ":set "@ + m@ + Seq::<char>::empty());
                }
            },
            _ => {},
        }
    }
    assert(t@ == completed_text(kind, ms[index as int], ms.len() == 1, home@));
    let text = string_of(t.as_slice());
    let cursor = text.as_str().len();

    let wildmenu = if matches.len() > 1 {
        Some(crate::command::wildmenu_markup(matches, index, WILDMENU_MAX))
    } else {
        None
    };
    Some(Completion { text, cursor, wildmenu })
}

/// The state of Tab completion in the command bar: the matches of the
/// completion under way (none when no completion is), and the index of the
/// match shown.
#[derive(Debug, Clone)]
pub struct TabCompletion {
    pub matches: Vec<String>,
    pub index: usize,
}

impl TabCompletion {
    /// No completion under way.
    pub fn new() -> (r: TabCompletion)
        ensures
            r.matches@.len() == 0,
            r.index == 0,
    {
        TabCompletion { matches: Vec::new(), index: 0 }
    }

    /// A completion is under way: Tab cycles through its matches instead of
    /// finding new ones.
    pub fn started(&self) -> (r: bool)
        ensures
            r == (self.matches@.len() > 0),
    {
        self.matches.len() > 0
    }

    /// Start a completion with the matches found, at the first one.
    pub fn start(&mut self, found: Vec<String>)
        ensures
            final(self).matches@ == found@,
            final(self).index == 0,
    {
        self.matches = found;
        self.index = 0;
    }

    /// Another Tab (or, `reverse`, Shift+Tab): the next (previous) match,
    /// round.
    pub fn cycle(&mut self, reverse: bool)
        requires
            old(self).index < usize::MAX,
        ensures
            final(self).matches@ == old(self).matches@,
            final(self).index == cycled(old(self).index as nat, old(self).matches@.len(), reverse),
    {
        self.index = cycle_index(self.index, self.matches.len(), reverse);
    }

    /// The completion is over (the text was edited or the bar closed).
    pub fn reset(&mut self)
        ensures
            final(self).matches@.len() == 0,
            final(self).index == 0,
    {
        self.matches = Vec::new();
        self.index = 0;
    }
}

// ---------------------------------------------------------------- history keys

/// The state of browsing the command history with the arrow keys: the
/// entries that start with what was typed (oldest first), the one shown,
/// and what was typed (without its `:`).
#[derive(Debug, Clone)]
pub struct HistoryBrowse {
    pub matches: Vec<String>,
    pub index: Option<usize>,
    pub saved: String,
}

/// The state of history browsing, by value.
pub struct BrowseView {
    pub matches: Seq<Seq<char>>,
    pub index: Option<nat>,
    pub saved: Seq<char>,
}

impl View for HistoryBrowse {
    type V = BrowseView;

    open spec fn view(&self) -> BrowseView {
        BrowseView {
            matches: crate::text::strings_view(self.matches@),
            index: match self.index {
                Some(i) => Some(i as nat),
                None => None,
            },
            saved: self.saved@,
        }
    }
}

/// The command bar's text that shows entry `e`.
pub open spec fn shown(e: Seq<char>) -> Seq<char> {
    ":"@ + e
}

/// Browsing after the Up key, with `text` in the command bar and the
/// history's entries `entries`: the first Up takes the entries that start
/// with the typed text and shows the newest; a later Up shows the one
/// before, and stays at the oldest.
pub open spec fn after_up(b: BrowseView, text: Seq<char>, entries: Seq<Seq<char>>) -> BrowseView {
    match b.index {
        None => {
            let typed = crate::command::strip_colon(text);
            let ms = crate::history::matching(entries, typed);
            BrowseView {
                matches: ms,
                index: if ms.len() > 0 {
                    Some((ms.len() - 1) as nat)
                } else {
                    None
                },
                saved: typed,
            }
        },
        Some(i) => BrowseView {
            index: Some(if i > 0 {
                (i - 1) as nat
            } else {
                i
            }),
            ..b
        },
    }
}

/// What the command bar shows after Up: the entry now browsed to.
pub open spec fn up_text(b: BrowseView) -> Option<Seq<char>> {
    match b.index {
        Some(i) => if i < b.matches.len() {
            Some(shown(b.matches[i as int]))
        } else {
            None
        },
        None => None,
    }
}

/// Browsing after the Down key: the next newer entry; past the newest,
/// browsing ends and the typed text comes back. Without browsing, nothing.
pub open spec fn after_down(b: BrowseView) -> (BrowseView, Option<Seq<char>>) {
    match b.index {
        None => (b, None),
        Some(i) => if i + 1 < b.matches.len() {
            (BrowseView { index: Some(i + 1), ..b }, Some(shown(b.matches[(i + 1) as int])))
        } else {
            (BrowseView { matches: seq![], index: None, saved: b.saved }, Some(shown(b.saved)))
        },
    }
}

impl HistoryBrowse {
    /// Not browsing.
    pub fn new() -> (r: HistoryBrowse)
        ensures
            r@.index is None,
            r@.matches.len() == 0,
            r@.saved.len() == 0,
    {
        proof {
            reveal_strlit("");
        }
        let r = HistoryBrowse { matches: Vec::new(), index: None, saved: owned("") };
        assert(r@.matches =~= Seq::<Seq<char>>::empty());
        r
    }

    /// The Up key, with `text` in the command bar: the text to show, if any.
    pub fn up(&mut self, text: &str, history: &crate::history::CommandHistory) -> (r: Option<String>)
        ensures
            final(self)@ == after_up(old(self)@, text@, history.entries()),
            match r {
                Some(t) => up_text(final(self)@) == Some(t@),
                None => up_text(final(self)@) is None,
            },
    {
        match self.index {
            None => {
                let v = chars_of(text);
                let t = if v.len() > 0 && v[0] == ':' {
                    slice_chars(v.as_slice(), 1, v.len())
                } else {
                    v
                };
                assert(t@ == crate::command::strip_colon(text@)) by {
                    if text@.len() > 0 && text@[0] == ':' {
                        assert(text@.drop_first() =~= text@.subrange(1, text@.len() as int));
                    }
                }
                let typed = owned_chars(t.as_slice());
                let found = history.filter(typed.as_str());
                let mut ms: Vec<String> = Vec::new();
                let mut k: usize = 0;
                while k < found.len()
                    invariant
                        k <= found.len(),
                        crate::text::strings_view(ms@) =~= crate::history::strs_view(found@).subrange(0, k as int),
                    decreases found.len() - k,
                {
                    let ghost before = crate::text::strings_view(ms@);
                    ms.push(owned(found[k]));
                    assert(crate::text::strings_view(ms@) =~= before.push(found@[k as int]@));
                    k = k + 1;
                }
                assert(crate::history::strs_view(found@).subrange(0, k as int) =~= crate::history::strs_view(found@));
                let n = ms.len();
                self.matches = ms;
                self.saved = typed;
                self.index = if n > 0 {
                    Some(n - 1)
                } else {
                    None
                };
            },
            Some(i) => {
                if i > 0 {
                    self.index = Some(i - 1);
                }
            },
        }
        match self.index {
            Some(i) => {
                if i < self.matches.len() {
                    let mut t = chars_of(":");
                    push_all(&mut t, chars_of(self.matches[i].as_str()).as_slice());
                    Some(string_of(t.as_slice()))
                } else {
                    None
                }
            },
            None => None,
        }
    }

    /// The Down key: the text to show, if any.
    pub fn down(&mut self) -> (r: Option<String>)
        ensures
            final(self)@ == after_down(old(self)@).0,
            match r {
                Some(t) => after_down(old(self)@).1 == Some(t@),
                None => after_down(old(self)@).1 is None,
            },
    {
        match self.index {
            None => None,
            Some(i) => {
                if i < usize::MAX && i + 1 < self.matches.len() {
                    let ghost b = self@;
                    self.index = Some(i + 1);
                    assert(self@ == (BrowseView { index: Some((i + 1) as nat), ..b }));
                    let mut t = chars_of(":");
                    push_all(&mut t, chars_of(self.matches[i + 1].as_str()).as_slice());
                    assert(b.matches[i + 1] == self.matches@[i + 1]@);
                    assert(t@ == shown(b.matches[i + 1]));
                    Some(string_of(t.as_slice()))
                } else {
                    let n = self.matches.len();
                    assert(n == old(self)@.matches.len());
                    self.index = None;
                    self.matches = Vec::new();
                    assert(crate::text::strings_view(self.matches@) =~= Seq::<Seq<char>>::empty());
                    assert(self@ == (BrowseView { matches: seq![], index: None, saved: old(self)@.saved }));
                    assert(!(i + 1 < old(self)@.matches.len()));
                    let mut t = chars_of(":");
                    push_all(&mut t, chars_of(self.saved.as_str()).as_slice());
                    Some(string_of(t.as_slice()))
                }
            },
        }
    }

    /// Browsing ends (another key was typed).
    pub fn reset(&mut self)
        ensures
            final(self)@.index is None,
            final(self)@.matches.len() == 0,
            final(self)@.saved == old(self)@.saved,
    {
        self.index = None;
        self.matches = Vec::new();
    }
}

/// Up then Down from the newest entry gives back what was typed: browsing
/// that starts on a text with matches, and goes one step down from where
/// the first Up put it, ends and shows the typed text again.
pub proof fn lemma_up_down_restores(b: BrowseView, text: Seq<char>, entries: Seq<Seq<char>>)
    requires
        b.index is None,
        crate::history::matching(entries, crate::command::strip_colon(text)).len() > 0,
    ensures
        after_down(after_up(b, text, entries)).1 == Some(shown(crate::command::strip_colon(text))),
        after_down(after_up(b, text, entries)).0.index is None,
{
}

/// Up from a fresh start shows the newest entry that starts with what was
/// typed; each further Up shows the one before, down to the oldest.
pub proof fn lemma_up_shows_newest_match(b: BrowseView, text: Seq<char>, entries: Seq<Seq<char>>)
    requires
        b.index is None,
        crate::history::matching(entries, crate::command::strip_colon(text)).len() > 0,
    ensures
        ({
            let ms = crate::history::matching(entries, crate::command::strip_colon(text));
            up_text(after_up(b, text, entries)) == Some(shown(ms.last()))
        }),
{
}

} // verus!
