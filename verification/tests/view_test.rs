use mip::history::CommandHistory;
use mip::markdown::TocEntry;
use mip::view::{
    body_update_script, command_action, complete, completion_request, cycle_index, document_name,
    name_matches, opens_externally, parse_u8, plan_commands, post_process_export,
    scroll_to_anchor_script, sidetoc_closed_position, sidetoc_open_position,
    sidetoc_resized_position, strip_seed_scripts, theme_class, theme_class_script, toc_parents,
    window_title, CommandAction, CompletionKind, HistoryBrowse, TabCompletion,
};

#[test]
fn test_strip_seed_scripts_removes_all_seed_scripts() {
    let html = r#"<html>
<head></head>
<body>
<div>content</div>
<script>var seedUrl="http://localhost:8000/.temp.seed";var initialSeed="abc1234";</script>
<script>document.addEventListener("keydown",function(e){});</script>
<script>document.getElementById("header").onclick=function(){};</script>
<script>console.log("keep me");</script>
</body>
</html>"#;

    let result = strip_seed_scripts(html);

    assert!(!result.contains("var seedUrl="));
    assert!(!result.contains("document.addEventListener(\"keydown\""));
    assert!(!result.contains("document.getElementById(\"header\")"));
    assert!(result.contains("console.log(\"keep me\")"));
    assert!(result.contains("<div>content</div>"));
}

#[test]
fn test_strip_seed_scripts_preserves_non_seed_content() {
    let html = r#"<html><body><h1>Hello</h1><script>alert("safe")</script></body></html>"#;
    let result = strip_seed_scripts(html);
    assert_eq!(result, html);
}

#[test]
fn test_strip_seed_scripts_handles_empty_input() {
    let result = strip_seed_scripts("");
    assert_eq!(result, "");
}

#[test]
fn test_strip_seed_scripts_handles_no_scripts() {
    let html = "<html><body><p>No scripts here</p></body></html>";
    let result = strip_seed_scripts(html);
    assert_eq!(result, html);
}

#[test]
fn strip_seed_scripts_exact_cut() {
    let html = "a<script>var seedUrl=1;</script>b<script>document.addEventListener(\"keydown\"x</script>c";
    assert_eq!(strip_seed_scripts(html), "abc");
    let unclosed = "a<script>var seedUrl=1;";
    assert_eq!(strip_seed_scripts(unclosed), unclosed);
}

#[test]
fn test_post_process_strips_scripts() {
    let html = r#"<!DOCTYPE html><html><head><script>var x=1;</script></head><body><p>Hello</p><script src="bridge.js"></script></body></html>"#;
    let result = post_process_export(html);
    assert!(!result.contains("<script"));
    assert!(!result.contains("</script>"));
    assert!(result.contains("<p>Hello</p>"));
}

#[test]
fn test_post_process_strips_localhost_links() {
    let html = r#"<!DOCTYPE html><html><head><link rel="stylesheet" href="http://localhost:8000/katex/katex.min.css"><style>body{}</style></head><body></body></html>"#;
    let result = post_process_export(html);
    assert!(!result.contains("localhost"));
    assert!(result.contains("<style>body{}</style>"));
}

#[test]
fn test_post_process_strips_header_div() {
    let html = r#"<!DOCTYPE html><html><body><div id="header"><a href="http://localhost:8000/">file.md</a></div><div id="content">Hello</div></body></html>"#;
    let result = post_process_export(html);
    assert!(!result.contains(r#"id="header""#));
    assert!(result.contains(r#"id="content"#));
}

#[test]
fn test_post_process_preserves_content() {
    let html = r#"<!DOCTYPE html><html><head><style>.katex{color:red}</style></head><body><h1 id="title">Title</h1><p>Content here</p></body></html>"#;
    let result = post_process_export(html);
    assert!(result.contains("<h1 id=\"title\">Title</h1>"));
    assert!(result.contains("<p>Content here</p>"));
    assert!(result.contains(".katex{color:red}"));
}

#[test]
fn test_post_process_ensures_doctype() {
    let html = r#"<html><body><p>No doctype</p></body></html>"#;
    let result = post_process_export(html);
    assert!(result.starts_with("<!DOCTYPE html>"));
    assert!(result.contains("<p>No doctype</p>"));
}

#[test]
fn test_post_process_preserves_existing_doctype() {
    let html = r#"<!DOCTYPE html><html><body><p>Has doctype</p></body></html>"#;
    let result = post_process_export(html);
    assert_eq!(result.matches("<!DOCTYPE").count(), 1);
}

#[test]
fn test_post_process_passthrough_no_scripts_links() {
    let html = r#"<!DOCTYPE html><html><head><style>h1{}</style></head><body><p>Clean</p></body></html>"#;
    let result = post_process_export(html);
    assert_eq!(result, html);
}

#[test]
fn test_post_process_preserves_inline_svgs() {
    let html = r#"<!DOCTYPE html><html><body><svg xmlns="http://www.w3.org/2000/svg" viewBox="0 0 100 100"><rect width="100" height="100" fill="red"/></svg></body></html>"#;
    let result = post_process_export(html);
    assert!(result.contains("<svg"));
    assert!(result.contains("<rect"));
    assert!(result.contains("</svg>"));
}

#[test]
fn test_post_process_preserves_katex_math_spans() {
    let html = r#"<!DOCTYPE html><html><body><span class="katex"><span class="katex-mathml"><math xmlns="http://www.w3.org/1998/Math/MathML"><mi>x</mi></math></span><span class="katex-html"><span class="base"><span class="mord mathnormal">x</span></span></span></span></body></html>"#;
    let result = post_process_export(html);
    assert!(result.contains("class=\"katex\""));
    assert!(result.contains("katex-mathml"));
    assert!(result.contains("katex-html"));
    assert!(result.contains("<mi>x</mi>"));
}

#[test]
fn post_process_keeps_remote_links_and_lowercase_doctype() {
    let html = "  <!doctype html><link href=\"https://cdn.example/x.css\"><link\thref=\"http://127.0.0.1:9/a\">";
    assert_eq!(
        post_process_export(html),
        "  <!doctype html><link href=\"https://cdn.example/x.css\">"
    );
    // Text beyond ASCII is kept as it is.
    assert_eq!(post_process_export("<!DOCTYPE html><p>Über é 🤔</p>"), "<!DOCTYPE html><p>Über é 🤔</p>");
}

fn entry(level: u8) -> TocEntry {
    TocEntry { level, title: String::new(), anchor_id: String::new() }
}

#[test]
fn toc_nests_under_the_nearest_higher_heading() {
    let entries: Vec<TocEntry> = [1, 3, 2, 3, 1, 2].iter().map(|l| entry(*l)).collect();
    assert_eq!(
        toc_parents(&entries),
        vec![None, Some(0), Some(0), Some(2), None, Some(4)]
    );
    assert!(toc_parents(&[]).is_empty());
    let flat: Vec<TocEntry> = [2, 2].iter().map(|l| entry(*l)).collect();
    assert_eq!(toc_parents(&flat), vec![None, None]);
}

#[test]
fn cycle_index_wraps_both_ways() {
    assert_eq!(cycle_index(0, 3, false), 1);
    assert_eq!(cycle_index(2, 3, false), 0);
    assert_eq!(cycle_index(0, 3, true), 2);
    assert_eq!(cycle_index(2, 3, true), 1);
    assert_eq!(cycle_index(4, 0, true), 4);
}

#[test]
fn commands_decide_their_actions() {
    assert_eq!(command_action("q", "", false, "/h"), CommandAction::Quit);
    assert_eq!(command_action("close", "", false, "/h"), CommandAction::Quit);
    assert_eq!(command_action("o", "~/a.md", false, "/h"), CommandAction::Open("/h/a.md".to_string()));
    assert_eq!(command_action("open", "", false, "/h"), CommandAction::Nothing);
    assert_eq!(command_action("sidetoc_toggle", "", true, "/h"), CommandAction::SidetocClose);
    assert_eq!(command_action("sidetoc_toggle", "", false, "/h"), CommandAction::SidetocOpen);
    assert_eq!(command_action("sidetoc_focus", "", false, "/h"), CommandAction::Nothing);
    assert_eq!(command_action("sidetoc_expand_width", "", false, "/h"), CommandAction::SidetocResize(true));
    assert_eq!(command_action("export_html", "", false, "/h"), CommandAction::ExportNeedsPath);
    assert_eq!(command_action("export_html", "~/x.html", false, "/h"), CommandAction::ExportHtml("/h/x.html".to_string()));
    assert_eq!(command_action("zoom_in", "", false, "/h"), CommandAction::ZoomIn);
    assert_eq!(command_action("scroll_top", "", false, "/h"), CommandAction::Script("window.scrollTo(0, 0)".to_string()));
    assert_eq!(command_action("nope", "x", false, "/h"), CommandAction::Nothing);
}

#[test]
fn set_commands_parse_their_values() {
    assert_eq!(command_action("set", "frontmatter on", false, ""), CommandAction::SetFrontmatter(true));
    assert_eq!(command_action("set", "paragraph_numbers 0", false, ""), CommandAction::SetParagraphNumbers(false));
    assert_eq!(command_action("set", "paragraph_numbers_start 9", false, ""), CommandAction::SetParagraphNumbersStart(6));
    assert_eq!(command_action("set", "paragraph_numbers_start +0", false, ""), CommandAction::SetParagraphNumbersStart(1));
    assert_eq!(command_action("set", "theme dark", false, ""), CommandAction::SetTheme("dark".to_string()));
    assert_eq!(
        command_action("set", "theme neon", false, ""),
        CommandAction::InvalidValue {
            setting: "theme".to_string(),
            value: "neon".to_string(),
            expected: "system/light/dark".to_string()
        }
    );
    assert_eq!(
        command_action("set", "paragraph_numbers_start 300", false, ""),
        CommandAction::InvalidValue {
            setting: "paragraph_numbers_start".to_string(),
            value: "300".to_string(),
            expected: "1-6".to_string()
        }
    );
    assert_eq!(command_action("set", "unknown x", false, ""), CommandAction::Nothing);
}

#[test]
fn parse_u8_as_std_does() {
    for s in ["0", "7", "255", "+12", "007", "", "+", "-1", "256", "1a", " 1"] {
        assert_eq!(parse_u8(s), s.parse::<u8>().ok(), "{:?}", s);
    }
}

#[test]
fn plan_commands_splits_and_parses() {
    let plan = plan_commands("sidetoc_open; set theme dark;; :q ");
    let strs: Vec<(&str, &str)> = plan.iter().map(|(c, a)| (c.as_str(), a.as_str())).collect();
    assert_eq!(strs, vec![("sidetoc_open", ""), ("set", "theme dark"), ("q", "")]);
}

#[test]
fn sidetoc_positions() {
    assert_eq!(sidetoc_open_position(false, 800, 250), 250);
    assert_eq!(sidetoc_open_position(true, 800, 250), 550);
    assert_eq!(sidetoc_closed_position(true, 800), 800);
    assert_eq!(sidetoc_closed_position(false, 800), 0);
    assert_eq!(sidetoc_resized_position(250, false, true), 300);
    assert_eq!(sidetoc_resized_position(30, false, false), 0);
    assert_eq!(sidetoc_resized_position(550, true, true), 500);
    assert_eq!(sidetoc_resized_position(550, true, false), 600);
}

#[test]
fn scripts_escape_their_text() {
    assert_eq!(
        scroll_to_anchor_script("it's"),
        "document.getElementById('it\\'s').scrollIntoView({behavior: 'smooth'});"
    );
    assert_eq!(
        body_update_script("a`b\\c${d}"),
        "document.querySelector('.section').innerHTML = `a\\`b\\\\c\\${d}`;if(typeof renderMath==='function')renderMath();"
    );
    assert_eq!(theme_class_script("dark"), "document.documentElement.className = 'dark';");
}

#[test]
fn theme_class_title_and_names() {
    assert_eq!(theme_class("light", true), "light");
    assert_eq!(theme_class("dark", false), "dark");
    assert_eq!(theme_class("system", true), "dark");
    assert_eq!(theme_class("system", false), "light");
    assert_eq!(window_title(Some("Doc"), "a.md"), "Doc - MiP");
    assert_eq!(window_title(None, "a.md"), "a.md - MiP");
    assert_eq!(document_name("/x/y/a.md"), "a.md");
    assert_eq!(document_name("/"), "MiP");
    assert!(opens_externally("https://example.org", 8000));
    assert!(!opens_externally("http://localhost:8000/x", 8000));
    assert!(opens_externally("http://localhost:8001/x", 8000));
    assert!(!opens_externally("about:blank", 8000));
}

#[test]
fn completion_requests() {
    let q = completion_request(":op").unwrap();
    assert_eq!(q.kind, CompletionKind::Command);
    assert_eq!(q.word, "op");
    let q = completion_request(":set  para").unwrap();
    assert_eq!(q.kind, CompletionKind::Setting);
    assert_eq!(q.word, "para");
    assert!(completion_request(":set theme d").is_none());
    let q = completion_request(":open ~/no").unwrap();
    assert_eq!(q.kind, CompletionKind::Path { long: true, used_tilde: true });
    assert_eq!(q.word, "~/no");
    let q = completion_request("o src/").unwrap();
    assert_eq!(q.kind, CompletionKind::Path { long: false, used_tilde: false });
    assert!(completion_request(":print now").is_none());
}

#[test]
fn completing_cycles_through_the_matches() {
    let q = completion_request(":s").unwrap();
    let found = name_matches(&q).unwrap();
    assert_eq!(found.len(), 7);
    let mut tab = TabCompletion::new();
    assert!(!tab.started());
    tab.start(found);
    let c = complete(q.kind, &tab.matches, tab.index, "").unwrap();
    assert_eq!(c.text, ":set");
    assert_eq!(c.cursor, 4);
    assert!(c.wildmenu.unwrap().starts_with("<b>set</b>"));
    tab.cycle(true);
    let c = complete(q.kind, &tab.matches, tab.index, "").unwrap();
    assert_eq!(c.text, ":sidetoc_toggle");
    tab.reset();
    assert!(!tab.started());
    assert!(complete(q.kind, &tab.matches, 0, "").is_none());
}

#[test]
fn a_single_match_completes_with_a_space() {
    let q = completion_request(":set fr").unwrap();
    let found = name_matches(&q).unwrap();
    let c = complete(q.kind, &found, 0, "").unwrap();
    assert_eq!(c.text, ":set frontmatter ");
    assert!(c.wildmenu.is_none());
    let paths = vec!["/home/u/notes/".to_string()];
    let c = complete(CompletionKind::Path { long: false, used_tilde: true }, &paths, 0, "/home/u").unwrap();
    assert_eq!(c.text, ":o ~/notes/");
    assert_eq!(c.cursor, ":o ~/notes/".len());
}

#[test]
fn history_keys_browse_and_restore() {
    let mut h = CommandHistory::new(50);
    h.push("open a.md");
    h.push("q");
    h.push("open b.md");
    let mut b = HistoryBrowse::new();
    assert_eq!(b.up(":open", &h), Some(":open b.md".to_string()));
    assert_eq!(b.up(":open", &h), Some(":open a.md".to_string()));
    assert_eq!(b.up(":open", &h), Some(":open a.md".to_string()));
    assert_eq!(b.down(), Some(":open b.md".to_string()));
    assert_eq!(b.down(), Some(":open".to_string()));
    assert_eq!(b.down(), None);
    let mut none = HistoryBrowse::new();
    assert_eq!(none.up(":zzz", &h), None);
}
