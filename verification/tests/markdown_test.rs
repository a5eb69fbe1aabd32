use mip::markdown::{
    build_html, compute_section_numbers, fill_template, frontmatter_to_html, is_video_url,
    md_to_html_body, md_to_html_body_with_toc, pod_to_html_value, rewrite_media_embeds, seed_url,
    slugify, slugify_unique, FrontValue, TocEntry,
};

fn entry(level: u8, title: &str, anchor_id: &str) -> TocEntry {
    TocEntry { level, title: title.into(), anchor_id: anchor_id.into() }
}

#[test]
fn test_pod_to_html_value_string() {
    let pod = FrontValue::String("hello".to_string());
    assert_eq!(pod_to_html_value(&pod), "hello");
}

#[test]
fn test_pod_to_html_value_integer() {
    let pod = FrontValue::Integer(42);
    assert_eq!(pod_to_html_value(&pod), "42");
}

#[test]
fn test_pod_to_html_value_float() {
    let pod = FrontValue::Float("3.14".to_string());
    assert_eq!(pod_to_html_value(&pod), "3.14");
}

#[test]
fn test_pod_to_html_value_boolean() {
    assert_eq!(pod_to_html_value(&FrontValue::Boolean(true)), "true");
    assert_eq!(pod_to_html_value(&FrontValue::Boolean(false)), "false");
}

#[test]
fn test_pod_to_html_value_null() {
    assert_eq!(pod_to_html_value(&FrontValue::Null), "");
}

#[test]
fn test_pod_to_html_value_array() {
    let pod = FrontValue::Array(vec![FrontValue::String("a".to_string()), FrontValue::Integer(1)]);
    assert_eq!(pod_to_html_value(&pod), "a, 1");
}

#[test]
fn test_pod_to_html_value_hash() {
    let pod = FrontValue::Hash(vec![("key".to_string(), FrontValue::String("val".to_string()))]);
    assert_eq!(pod_to_html_value(&pod), "key: val");
}

#[test]
fn pod_to_html_value_negative_and_nested() {
    assert_eq!(pod_to_html_value(&FrontValue::Integer(-7)), "-7");
    assert_eq!(pod_to_html_value(&FrontValue::Integer(i64::MIN)), "-9223372036854775808");
    let inner = FrontValue::Array(vec![FrontValue::Integer(1), FrontValue::Integer(2)]);
    assert_eq!(pod_to_html_value(&FrontValue::Array(vec![inner, FrontValue::Null])), "1, 2, ");
}

#[test]
fn frontmatter_table_of_a_hash() {
    let data = FrontValue::Hash(vec![
        ("title".to_string(), FrontValue::String("Hi".to_string())),
        ("n".to_string(), FrontValue::Integer(3)),
    ]);
    let html = frontmatter_to_html(&data);
    assert!(html.contains("<table class=\"frontmatter\">"));
    assert!(html.contains("title"));
    assert!(html.contains("Hi"));
    assert_eq!(frontmatter_to_html(&FrontValue::Null), "");
}

#[test]
fn test_slugify_basic() {
    assert_eq!(slugify("Hello World"), "hello-world");
}

#[test]
fn test_slugify_special_chars() {
    assert_eq!(slugify("Setup & Dependencies"), "setup-dependencies");
}

#[test]
fn test_slugify_unicode() {
    assert_eq!(slugify("Über cool"), "über-cool");
}

#[test]
fn test_slugify_consecutive_dashes() {
    assert_eq!(slugify("a - - b"), "a-b");
}

#[test]
fn test_slugify_leading_trailing() {
    assert_eq!(slugify("  hello  "), "hello");
}

#[test]
fn test_slugify_empty() {
    assert_eq!(slugify(""), "");
}

#[test]
fn test_slugify_numbers() {
    assert_eq!(slugify("Step 1: Do it"), "step-1-do-it");
}

#[test]
fn slugify_has_no_edge_or_double_dashes() {
    for text in ["--a--b--", "!!!", "a\u{00A0}b", "x_y-z"] {
        let s = slugify(text);
        assert!(!s.starts_with('-') && !s.ends_with('-') && !s.contains("--"), "{}", s);
    }
    assert_eq!(slugify("x_y-z"), "x-y-z");
}

#[test]
fn test_slugify_unique_duplicates() {
    let existing = vec!["intro".to_string()];
    assert_eq!(slugify_unique("Intro", &existing), "intro-1");

    let existing2 = vec!["intro".to_string(), "intro-1".to_string()];
    assert_eq!(slugify_unique("Intro", &existing2), "intro-2");
}

#[test]
fn test_slugify_unique_empty_text() {
    let existing = vec![];
    assert_eq!(slugify_unique("", &existing), "heading-0");
}

#[test]
fn slugify_unique_skips_taken_numbers() {
    let existing = vec!["a".to_string(), "a-2".to_string(), "a-1".to_string(), "b".to_string()];
    assert_eq!(slugify_unique("A", &existing), "a-3");
    assert_eq!(slugify_unique("C", &existing), "c");
    assert_eq!(slugify_unique("!!", &existing), "heading-4");
}

#[test]
fn test_md_to_html_body_with_toc_basic() {
    let md = "# Title\n\n## Section\n\nText\n\n### Sub";
    let (html, toc, _title) = md_to_html_body_with_toc(md, false, false, 1, false);

    assert_eq!(toc.len(), 3);
    assert_eq!(toc[0], entry(1, "Title", "title"));
    assert_eq!(toc[1], entry(2, "Section", "section"));
    assert_eq!(toc[2], entry(3, "Sub", "sub"));

    assert!(html.contains("<h1 id=\"title\">Title</h1>"));
    assert!(html.contains("<h2 id=\"section\">Section</h2>"));
    assert!(html.contains("<h3 id=\"sub\">Sub</h3>"));
}

#[test]
fn test_md_to_html_body_with_toc_skipped_levels() {
    let md = "# Top\n\n### Skipped h2\n\n## Back to h2";
    let (_html, toc, _title) = md_to_html_body_with_toc(md, false, false, 1, false);

    assert_eq!(toc.len(), 3);
    assert_eq!(toc[0].level, 1);
    assert_eq!(toc[1].level, 3);
    assert_eq!(toc[2].level, 2);
}

#[test]
fn test_md_to_html_body_with_toc_no_headings() {
    let md = "Just a paragraph.\n\nAnother one.";
    let (_html, toc, _title) = md_to_html_body_with_toc(md, false, false, 1, false);
    assert!(toc.is_empty());
}

#[test]
fn test_md_to_html_body_with_toc_duplicate_headings() {
    let md = "# Intro\n\n## Intro\n\n### Intro";
    let (_html, toc, _title) = md_to_html_body_with_toc(md, false, false, 1, false);

    assert_eq!(toc[0].anchor_id, "intro");
    assert_eq!(toc[1].anchor_id, "intro-1");
    assert_eq!(toc[2].anchor_id, "intro-2");
}

#[test]
fn test_md_to_html_body_with_toc_frontmatter_excluded() {
    let md = "---\ntitle: Test\n---\n\n# Real Heading";
    let (_html, toc, _title) = md_to_html_body_with_toc(md, true, false, 1, false);

    assert_eq!(toc.len(), 1);
    assert_eq!(toc[0].title, "Real Heading");
}

#[test]
fn test_section_numbers_basic_hierarchy() {
    let entries = vec![
        entry(1, "A", "a"),
        entry(2, "B", "b"),
        entry(2, "C", "c"),
        entry(1, "D", "d"),
        entry(2, "E", "e"),
        entry(3, "F", "f"),
    ];
    let nums = compute_section_numbers(&entries, 1);
    assert_eq!(nums, vec!["1", "1.1", "1.2", "2", "2.1", "2.1.1"]);
}

#[test]
fn test_section_numbers_start_level_2() {
    let entries = vec![
        entry(1, "Title", "t"),
        entry(2, "A", "a"),
        entry(3, "B", "b"),
        entry(2, "C", "c"),
    ];
    let nums = compute_section_numbers(&entries, 2);
    assert_eq!(nums, vec!["", "1", "1.1", "2"]);
}

#[test]
fn test_section_numbers_skipped_levels() {
    let entries = vec![entry(1, "A", "a"), entry(3, "B", "b")];
    let nums = compute_section_numbers(&entries, 1);
    assert_eq!(nums, vec!["1", "1.0.1"]);
}

#[test]
fn test_section_numbers_single() {
    let entries = vec![entry(2, "A", "a")];
    let nums = compute_section_numbers(&entries, 2);
    assert_eq!(nums, vec!["1"]);
}

#[test]
fn test_section_numbers_empty() {
    let nums = compute_section_numbers(&[], 1);
    assert!(nums.is_empty());
}

#[test]
fn section_numbers_restart_below_a_new_parent() {
    let entries = vec![entry(1, "A", "a"), entry(2, "B", "b"), entry(1, "C", "c"), entry(2, "D", "d")];
    assert_eq!(compute_section_numbers(&entries, 1), vec!["1", "1.1", "2", "2.1"]);
}

#[test]
fn test_section_numbers_with_toc_integration() {
    let md = "# Title\n\n## First\n\n### Sub\n\n## Second";
    let (_html, toc, _title) = md_to_html_body_with_toc(md, false, true, 2, false);
    assert_eq!(toc[0].title, "Title");
    assert_eq!(toc[1].title, "1 First");
    assert_eq!(toc[2].title, "1.1 Sub");
    assert_eq!(toc[3].title, "2 Second");
}

#[test]
fn test_section_numbers_in_html() {
    let md = "# Heading One\n\n## Heading Two";
    let (html, _toc, _title) = md_to_html_body_with_toc(md, false, true, 1, false);
    assert!(html.contains("<span class=\"section-number\">1</span> Heading One"));
    assert!(html.contains("<span class=\"section-number\">1.1</span> Heading Two"));
}

#[test]
fn test_frontmatter_title_present() {
    let md = "---\ntitle: My Document\n---\n\n# Heading";
    let (_html, _toc, title) = md_to_html_body_with_toc(md, false, false, 1, false);
    assert_eq!(title, Some("My Document".to_string()));
}

#[test]
fn test_frontmatter_title_missing() {
    let md = "---\nauthor: John\n---\n\n# Heading";
    let (_html, _toc, title) = md_to_html_body_with_toc(md, false, false, 1, false);
    assert_eq!(title, None);
}

#[test]
fn test_no_frontmatter() {
    let md = "# Just a heading\n\nSome content.";
    let (_html, _toc, title) = md_to_html_body_with_toc(md, false, false, 1, false);
    assert_eq!(title, None);
}

#[test]
fn test_math_inline_produces_span() {
    let md = "The formula $x^2 + y^2 = z^2$ is well known.";
    let (html, _toc, _title) = md_to_html_body_with_toc(md, false, false, 1, true);
    assert!(html.contains("<span class=\"math math-inline\">"));
    assert!(html.contains("x^2 + y^2 = z^2"));
}

#[test]
fn test_math_display_produces_span() {
    let md = "$$\\int_0^\\infty e^{-x} dx = 1$$";
    let (html, _toc, _title) = md_to_html_body_with_toc(md, false, false, 1, true);
    assert!(html.contains("<span class=\"math math-display\">"));
}

#[test]
fn test_math_disabled_no_spans() {
    let md = "The formula $x^2$ and $$y^2$$ should not be math.";
    let (html, _toc, _title) = md_to_html_body_with_toc(md, false, false, 1, false);
    assert!(!html.contains("math-inline"));
    assert!(!html.contains("math-display"));
}

#[test]
fn test_math_in_code_block_not_rendered() {
    let md = "```\n$not math$\n$$also not math$$\n```";
    let (html, _toc, _title) = md_to_html_body_with_toc(md, false, false, 1, true);
    assert!(!html.contains("math-inline"));
    assert!(!html.contains("math-display"));
}

#[test]
fn test_math_in_inline_code_not_rendered() {
    let md = "Use `$variable` in your code.";
    let (html, _toc, _title) = md_to_html_body_with_toc(md, false, false, 1, true);
    assert!(!html.contains("math-inline"));
}

#[test]
fn test_math_in_heading_toc_plain() {
    let md = "# The $E = mc^2$ equation";
    let (_html, toc, _title) = md_to_html_body_with_toc(md, false, false, 1, true);
    assert_eq!(toc.len(), 1);
    assert_eq!(toc[0].title, "The  equation");
}

// The body and the page, from the integration tests of the markdown module.

#[test]
fn test_md_to_html_body_headings() {
    let md = "# Heading 1\n\n## Heading 2\n\nParagraph text.";
    let html = md_to_html_body(md, false);
    assert!(html.contains("<h1 id=\"heading-1\">Heading 1</h1>"));
    assert!(html.contains("<h2 id=\"heading-2\">Heading 2</h2>"));
    assert!(html.contains("<p>Paragraph text.</p>"));
}

#[test]
fn test_md_to_html_body_inline_formatting() {
    let md = "This is **bold** and *italic* text.";
    let html = md_to_html_body(md, false);
    assert!(html.contains("<strong>bold</strong>"));
    assert!(html.contains("<em>italic</em>"));
}

#[test]
fn test_md_to_html_body_strikethrough() {
    let md = "This is ~~deleted~~ text.";
    let html = md_to_html_body(md, false);
    assert!(html.contains("<del>deleted</del>"));
}

#[test]
fn test_md_to_html_body_task_list() {
    let md = "- [x] Done\n- [ ] Todo";
    let html = md_to_html_body(md, false);
    assert!(html.contains("checked=\"\""));
    assert!(html.contains("type=\"checkbox\""));
}

#[test]
fn test_md_to_html_body_table() {
    let md = "| A | B |\n|---|---|\n| 1 | 2 |";
    let html = md_to_html_body(md, false);
    assert!(html.contains("<table>"));
    assert!(html.contains("<th>"));
    assert!(html.contains("<td>"));
}

#[test]
fn test_md_to_html_body_frontmatter_hidden() {
    let md = "---\ntitle: Hello\nauthor: Test\n---\n\n# Content";
    let html = md_to_html_body(md, false);
    assert!(!html.contains("frontmatter"));
    assert!(!html.contains("title"));
    assert!(html.contains("<h1 id=\"content\">Content</h1>"));
}

#[test]
fn test_md_to_html_body_frontmatter_shown() {
    let md = "---\ntitle: Hello\nauthor: Test\n---\n\n# Content";
    let html = md_to_html_body(md, true);
    assert!(html.contains("<table class=\"frontmatter\">"));
    assert!(html.contains("title"));
    assert!(html.contains("Hello"));
    assert!(html.contains("<h1 id=\"content\">Content</h1>"));
}

#[test]
fn test_build_html_replaces_placeholders() {
    let template = "<html class=\"#{THEME_CLASS}\"><body>#{BODY}<script>var seedUrl=\"#{SEEDURL}\";var initialSeed=\"#{INITIALSEED}\";</script></body></html>";
    let md = "# Hello";
    let result = build_html(md, template, "abc1234", "http://localhost:8000/.temp.seed", false, "dark", false);

    assert!(result.contains("<h1 id=\"hello\">Hello</h1>"));
    assert!(!result.contains("#{BODY}"));
    assert!(!result.contains("#{INITIALSEED}"));
    assert!(!result.contains("#{SEEDURL}"));
    assert!(!result.contains("#{THEME_CLASS}"));
    assert!(result.contains("abc1234"));
    assert!(result.contains("http://localhost:8000/.temp.seed"));
    assert!(result.contains("dark"));
}

#[test]
fn test_build_html_applies_theme_class() {
    let template = "<html class=\"#{THEME_CLASS}\"><body>#{BODY}</body></html>";
    let result = build_html("hello", template, "s", "u", false, "light", false);
    assert!(result.contains("class=\"light\""));
}

#[test]
fn test_build_html_with_frontmatter() {
    let template = "<html>#{BODY}</html>";
    let md = "---\ntitle: Test\n---\n\nBody text";
    let result = build_html(md, template, "s", "u", true, "light", false);
    assert!(result.contains("<table class=\"frontmatter\">"));
    assert!(result.contains("title"));
}

#[test]
fn build_html_with_math_adds_the_scripts_before_head_end() {
    let template = "<html><head></head><body>#{BODY}</body></html>";
    let with = build_html("x", template, "s", "u", false, "light", true);
    assert!(with.contains("katex.min.js"));
    assert!(with.contains("\n</head>"));
    let without = build_html("x", template, "s", "u", false, "light", false);
    assert!(!without.contains("katex"));
}

#[test]
fn fill_template_replaces_in_order() {
    let page = fill_template("#{BODY}|#{SEEDURL}|#{THEME_CLASS}", "#{SEEDURL}", "s", "U", "dark", false);
    assert_eq!(page, "U|U|dark");
    assert_eq!(seed_url(8123), "http://localhost:8123/.temp.seed");
}

#[test]
fn test_md_to_html_body_with_toc_realistic() {
    let md = r#"# Introduction

Some text here.

## Getting Started

### Prerequisites

Install Rust.

### Installation

Run cargo install.

## Usage

### Basic Usage

Just run it.

### Advanced Usage

- [x] Feature A
- [ ] Feature B

## FAQ

| Q | A |
|---|---|
| Why? | Because |
"#;
    let (html, toc, _title) = md_to_html_body_with_toc(md, false, false, 1, false);

    assert_eq!(toc.len(), 8);
    assert_eq!(toc[0].title, "Introduction");
    assert_eq!(toc[0].level, 1);
    assert_eq!(toc[1].title, "Getting Started");
    assert_eq!(toc[1].level, 2);
    assert_eq!(toc[2].title, "Prerequisites");
    assert_eq!(toc[2].level, 3);
    assert_eq!(toc[3].title, "Installation");
    assert_eq!(toc[3].level, 3);
    assert_eq!(toc[4].title, "Usage");
    assert_eq!(toc[4].level, 2);
    assert_eq!(toc[7].title, "FAQ");

    assert!(html.contains("<h1 id=\"introduction\">"));
    assert!(html.contains("<h2 id=\"getting-started\">"));
    assert!(html.contains("<h3 id=\"prerequisites\">"));

    assert!(html.contains("checked=\"\""));
    assert!(html.contains("<table>"));
}

#[test]
fn test_md_to_html_body_with_toc_with_frontmatter() {
    let md = "---\ntitle: My Doc\n---\n\n# Real Heading\n\n## Sub Heading";
    let (html, toc, _title) = md_to_html_body_with_toc(md, true, false, 1, false);

    assert_eq!(toc.len(), 2);
    assert_eq!(toc[0].title, "Real Heading");
    assert_eq!(toc[1].title, "Sub Heading");
    assert!(html.contains("<table class=\"frontmatter\">"));
    assert!(html.contains("<h1 id=\"real-heading\">"));
}

#[test]
fn test_md_to_html_body_with_toc_code_in_heading() {
    let md = "## The `main` function";
    let (_html, toc, _title) = md_to_html_body_with_toc(md, false, false, 1, false);

    assert_eq!(toc.len(), 1);
    assert_eq!(toc[0].title, "The main function");
    assert_eq!(toc[0].anchor_id, "the-main-function");
}

#[test]
fn media_embeds_and_video_urls() {
    assert!(is_video_url("clip.mp4"));
    assert!(is_video_url("a/b.WEBM?x=1"));
    assert!(!is_video_url("pic.png"));
    let html = rewrite_media_embeds("<p><img src=\"clip.mp4\" alt=\"c\" /></p>");
    assert!(html.contains("<video"));
    let keep = rewrite_media_embeds("<img src=\"pic.png\" alt=\"p\" />");
    assert!(!keep.contains("<video"));
}

#[test]
fn frontmatter_table_rows_come_from_the_document() {
    let md = "---\ntitle: Hello\nauthor: Test\ncount: 3\n---\n\n# Content";
    let html = md_to_html_body(md, true);
    assert!(html.starts_with("<table class=\"frontmatter\"><tbody>\n"));
    assert!(html.contains("<tr><th>title</th><td>Hello</td></tr>\n"));
    assert!(html.contains("<tr><th>author</th><td>Test</td></tr>\n"));
    assert!(html.contains("<tr><th>count</th><td>3</td></tr>\n"));
    assert_eq!(html.matches("<tr>").count(), 3);
}

#[test]
fn without_a_shown_table_the_page_is_the_same_on_every_call() {
    let template = "<html>#{BODY}</html>";
    let md = "---\ntitle: T\na: 1\nb: 2\n---\n\n# Head\n\ntext";
    let first = build_html(md, template, "s", "u", false, "light", false);
    let second = build_html(md, template, "s", "u", false, "light", false);
    assert_eq!(first, second);
    assert_eq!(first, format!("<html>{}</html>", md_to_html_body(md, false)));
}

#[test]
fn slugify_of_a_slug_is_the_slug() {
    for text in ["Hello, World!", "  --Mixed CASE 42 -- text--", "a_b.c", "", "!!!"] {
        let once = slugify(text);
        assert_eq!(slugify(&once), once);
    }
}
