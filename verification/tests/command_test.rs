use mip::command::{
    display_name, expand_tilde, is_known_key, is_markdown_file, keyval_to_name, match_commands,
    match_settings, parse_command, parse_key_combo, path_candidates, path_query, split_commands,
    unexpand_tilde, wildmenu_markup, KeybindingRegistry,
};

fn pair(text: &str) -> (String, String) {
    parse_command(text)
}

// expand_tilde, with the value of HOME given
#[test]
fn test_expand_tilde_with_tilde() {
    let home = "/home/user";
    let result = expand_tilde("~/foo", home);
    assert_eq!(result, format!("{}/foo", home));
}

#[test]
fn test_expand_tilde_without_tilde() {
    assert_eq!(expand_tilde("/usr/bin", "/home/user"), "/usr/bin");
    assert_eq!(expand_tilde("relative/path", "/home/user"), "relative/path");
}

#[test]
fn test_expand_tilde_just_tilde() {
    let home = "/home/user";
    let result = expand_tilde("~", home);
    assert_eq!(result, home);
}

#[test]
fn expand_tilde_only_at_the_start() {
    assert_eq!(expand_tilde("a/~/b", "/home/user"), "a/~/b");
    assert_eq!(expand_tilde("~x", "/h"), "/hx");
    assert_eq!(expand_tilde("", "/h"), "");
}

// parse_command
#[test]
fn test_parse_command_simple() {
    let (c, a) = pair(":q");
    assert_eq!((c.as_str(), a.as_str()), ("q", ""));
}

#[test]
fn test_parse_command_with_arg() {
    let (c, a) = pair(":open foo.md");
    assert_eq!((c.as_str(), a.as_str()), ("open", "foo.md"));
}

#[test]
fn test_parse_command_no_colon() {
    let (c, a) = pair("q");
    assert_eq!((c.as_str(), a.as_str()), ("q", ""));
}

#[test]
fn test_parse_command_extra_whitespace() {
    let (c, a) = pair(":open   foo.md");
    assert_eq!((c.as_str(), a.as_str()), ("open", "foo.md"));
}

#[test]
fn test_parse_command_empty() {
    let (c, a) = pair(":");
    assert_eq!((c.as_str(), a.as_str()), ("", ""));
}

#[test]
fn test_parse_command_arg_with_spaces() {
    let (c, a) = pair(":open path with spaces.md");
    assert_eq!((c.as_str(), a.as_str()), ("open", "path with spaces.md"));
}

#[test]
fn parse_command_only_one_colon_is_stripped() {
    let (c, a) = pair("::q");
    assert_eq!((c.as_str(), a.as_str()), (":q", ""));
    let (c, a) = pair(":set\ttheme dark ");
    assert_eq!((c.as_str(), a.as_str()), ("set", "theme dark"));
}

// match_commands
#[test]
fn test_match_commands_unique_prefix() {
    let matches = match_commands("op");
    assert_eq!(matches, vec!["open"]);
}

#[test]
fn test_match_commands_ambiguous() {
    let mut matches = match_commands("o");
    matches.sort();
    assert!(matches.contains(&"o".to_string()));
    assert!(matches.contains(&"open".to_string()));
}

#[test]
fn test_match_commands_no_match() {
    let matches = match_commands("xyz");
    assert!(matches.is_empty());
}

#[test]
fn test_match_commands_exact() {
    let matches = match_commands("q");
    assert!(matches.contains(&"q".to_string()));
    assert!(matches.contains(&"quicktoc".to_string()));
}

#[test]
fn test_match_commands_cl() {
    let matches = match_commands("cl");
    assert_eq!(matches, vec!["close"]);
}

#[test]
fn match_commands_come_sorted_without_repeats() {
    let all = match_commands("");
    assert_eq!(all.len(), 17);
    for w in all.windows(2) {
        assert!(w[0] < w[1]);
    }
    assert_eq!(
        match_commands("sidetoc_"),
        vec![
            "sidetoc_close",
            "sidetoc_expand_width",
            "sidetoc_focus",
            "sidetoc_open",
            "sidetoc_shrink_width",
            "sidetoc_toggle"
        ]
    );
}

// path completion: the query and the candidates of a listing
#[test]
fn path_query_of_a_directory_fragment() {
    let (dir, prefix) = path_query("examples/", "/home/user");
    assert_eq!((dir.as_str(), prefix.as_str()), ("examples/", ""));
    let (dir, prefix) = path_query("", "/home/user");
    assert_eq!((dir.as_str(), prefix.as_str()), ("", ""));
}

#[test]
fn path_query_of_a_partial_name() {
    let (dir, prefix) = path_query("README", "/home/user");
    assert_eq!((dir.as_str(), prefix.as_str()), (".", "README"));
    let (dir, prefix) = path_query("docs/gui", "/home/user");
    assert_eq!((dir.as_str(), prefix.as_str()), ("docs", "gui"));
    let (dir, prefix) = path_query("~/notes/to", "/home/user");
    assert_eq!((dir.as_str(), prefix.as_str()), ("/home/user/notes", "to"));
}

fn listing(entries: &[(&str, bool)]) -> Vec<(String, bool)> {
    entries.iter().map(|(n, d)| (n.to_string(), *d)).collect()
}

#[test]
fn test_match_paths_existing_dir() {
    let entries = listing(&[("intro.md", false), ("notes.markdown", false), ("img.png", false)]);
    let matches = path_candidates("examples/", "", &entries);
    assert!(!matches.is_empty());
    assert!(matches.iter().any(|m| m.ends_with(".md")));
}

#[test]
fn test_match_paths_partial_filename() {
    let entries = listing(&[("README.md", false), ("src", true), ("Cargo.toml", false)]);
    let matches = path_candidates(".", "README", &entries);
    assert!(matches.iter().any(|m| m.contains("README.md")));
}

#[test]
fn test_match_paths_excludes_non_markdown() {
    let entries = listing(&[("main.rs", false), ("lib.rs", false), ("bin", true), ("notes.MD", false)]);
    let matches = path_candidates("src/", "", &entries);
    assert!(matches.iter().all(|m| m.ends_with('/') || is_markdown_file(m)));
    assert_eq!(matches, vec!["src/bin/", "src/notes.MD"]);
}

#[test]
fn test_match_paths_nonexistent() {
    let matches = path_candidates("/nonexistent_dir_xyz/", "", &Vec::new());
    assert!(matches.is_empty());
}

#[test]
fn test_match_paths_directories_have_trailing_slash() {
    let entries = listing(&[("src", true), ("README.md", false)]);
    let matches = path_candidates(".", "src", &entries);
    assert!(matches.iter().any(|m| m == "src/"));
}

#[test]
fn path_candidates_are_sorted() {
    let entries = listing(&[("b.md", false), ("a", true), ("c.markdown", false), ("A.md", false)]);
    let matches = path_candidates("docs//", "", &entries);
    assert_eq!(matches, vec!["docs/A.md", "docs/a/", "docs/b.md", "docs/c.markdown"]);
}

// wildmenu_markup
#[test]
fn test_wildmenu_markup_single() {
    let matches = vec!["README.md".to_string()];
    let result = wildmenu_markup(&matches, 0, 10);
    assert_eq!(result, "<b>README.md</b>");
}

#[test]
fn test_wildmenu_markup_multiple() {
    let matches = vec!["README.md".to_string(), "src/".to_string()];
    let result = wildmenu_markup(&matches, 0, 10);
    assert_eq!(result, "<b>README.md</b>   src/");
}

#[test]
fn test_wildmenu_markup_second_selected() {
    let matches = vec!["README.md".to_string(), "src/".to_string()];
    let result = wildmenu_markup(&matches, 1, 10);
    assert_eq!(result, "README.md   <b>src/</b>");
}

#[test]
fn test_wildmenu_markup_truncation_start() {
    let matches: Vec<String> = (0..15).map(|i| format!("file{}.txt", i)).collect();
    let result = wildmenu_markup(&matches, 0, 10);
    assert!(result.contains("(+5 more)"));
    assert!(result.contains("<b>file0.txt</b>"));
    assert!(!result.starts_with("(+"));
}

#[test]
fn test_wildmenu_markup_sliding_window_middle() {
    let matches: Vec<String> = (0..15).map(|i| format!("file{}.txt", i)).collect();
    let result = wildmenu_markup(&matches, 10, 10);
    assert!(result.starts_with("(+"));
    assert!(result.contains("<b>file10.txt</b>"));
}

#[test]
fn test_wildmenu_markup_sliding_window_end() {
    let matches: Vec<String> = (0..15).map(|i| format!("file{}.txt", i)).collect();
    let result = wildmenu_markup(&matches, 14, 10);
    assert!(result.starts_with("(+5)"));
    assert!(result.contains("<b>file14.txt</b>"));
    assert!(!result.contains("more)"));
}

#[test]
fn test_wildmenu_markup_empty() {
    let result = wildmenu_markup(&Vec::new(), 0, 10);
    assert_eq!(result, "");
}

#[test]
fn test_wildmenu_markup_escapes_pango() {
    let matches = vec!["file<1>.txt".to_string()];
    let result = wildmenu_markup(&matches, 0, 10);
    assert!(result.contains("&lt;"));
    assert!(result.contains("&gt;"));
}

#[test]
fn wildmenu_markup_window_in_the_middle_exactly() {
    let matches: Vec<String> = (0..15).map(|i| format!("f{}", i)).collect();
    let result = wildmenu_markup(&matches, 7, 10);
    assert_eq!(
        result,
        "(+2)   f2   f3   f4   f5   f6   <b>f7</b>   f8   f9   f10   f11   (+3 more)"
    );
    let amp = vec!["a&b/".to_string()];
    assert_eq!(wildmenu_markup(&amp, 0, 10), "<b>a&amp;b/</b>");
}

// display_name
#[test]
fn test_display_name_file() {
    assert_eq!(display_name("src/main.rs"), "main.rs");
}

#[test]
fn test_display_name_dir() {
    assert_eq!(display_name("src/"), "src/");
}

#[test]
fn test_display_name_no_slash() {
    assert_eq!(display_name("README.md"), "README.md");
}

#[test]
fn display_name_of_a_nested_directory() {
    assert_eq!(display_name("a/b/c/"), "c/");
}

// unexpand_tilde, with the value of HOME given
#[test]
fn test_unexpand_tilde_yes() {
    let home = "/home/user";
    let path = format!("{}/docs", home);
    assert_eq!(unexpand_tilde(&path, true, home), "~/docs");
}

#[test]
fn test_unexpand_tilde_no() {
    let home = "/home/user";
    let path = format!("{}/docs", home);
    assert_eq!(unexpand_tilde(&path, false, home), path);
}

// split_commands
#[test]
fn test_split_commands_single() {
    assert_eq!(split_commands("sidetoc_open"), vec!["sidetoc_open"]);
}

#[test]
fn test_split_commands_multiple() {
    assert_eq!(
        split_commands("sidetoc_open; set theme dark"),
        vec!["sidetoc_open", "set theme dark"]
    );
}

#[test]
fn test_split_commands_whitespace() {
    assert_eq!(
        split_commands("  sidetoc_open ;  quicktoc  "),
        vec!["sidetoc_open", "quicktoc"]
    );
}

#[test]
fn test_split_commands_empty_parts() {
    assert_eq!(split_commands("sidetoc_open;;quicktoc"), vec!["sidetoc_open", "quicktoc"]);
}

#[test]
fn test_split_commands_empty() {
    let result: Vec<String> = split_commands("");
    assert!(result.is_empty());
}

// parse_key_combo
#[test]
fn test_parse_key_combo_simple_key() {
    let combo = parse_key_combo("tab").unwrap();
    assert_eq!(combo.key, "tab");
    assert!(!combo.ctrl && !combo.shift && !combo.alt && !combo.super_);
}

#[test]
fn test_parse_key_combo_with_ctrl() {
    let combo = parse_key_combo("ctrl+p").unwrap();
    assert_eq!(combo.key, "p");
    assert!(combo.ctrl);
    assert!(!combo.shift);
}

#[test]
fn test_parse_key_combo_ctrl_shift() {
    let combo = parse_key_combo("ctrl+shift+t").unwrap();
    assert_eq!(combo.key, "t");
    assert!(combo.ctrl);
    assert!(combo.shift);
}

#[test]
fn test_parse_key_combo_case_insensitive() {
    let combo = parse_key_combo("Ctrl+P").unwrap();
    assert_eq!(combo.key, "p");
    assert!(combo.ctrl);
}

#[test]
fn test_parse_key_combo_unknown_key() {
    assert!(parse_key_combo("xyzkey").is_none());
}

#[test]
fn test_parse_key_combo_unknown_modifier() {
    assert!(parse_key_combo("hyper+p").is_none());
}

#[test]
fn test_parse_key_combo_f_keys() {
    let combo = parse_key_combo("f1").unwrap();
    assert_eq!(combo.key, "f1");
}

#[test]
fn parse_key_combo_all_modifiers_and_edge_cases() {
    let combo = parse_key_combo("super+alt+shift+ctrl+home").unwrap();
    assert_eq!(combo.key, "home");
    assert!(combo.ctrl && combo.shift && combo.alt && combo.super_);
    assert!(parse_key_combo("").is_none());
    assert!(parse_key_combo("ctrl+").is_none());
    assert!(parse_key_combo("ctrl+=").is_none());
    assert!(parse_key_combo("g,g").is_none());
    assert!(is_known_key("pagedown"));
    assert!(!is_known_key("Tab"));
}

// keyval_to_name
#[test]
fn test_keyval_to_name_tab() {
    assert_eq!(keyval_to_name(0xff09), Some("tab".to_string()));
}

#[test]
fn test_keyval_to_name_letter() {
    assert_eq!(keyval_to_name(0x061), Some("a".to_string()));
}

#[test]
fn test_keyval_to_name_uppercase() {
    assert_eq!(keyval_to_name(0x041), Some("a".to_string()));
}

#[test]
fn test_keyval_to_name_f1() {
    assert_eq!(keyval_to_name(0xffbe), Some("f1".to_string()));
}

#[test]
fn test_keyval_to_name_unknown() {
    assert_eq!(keyval_to_name(0xfffff), None);
}

// KeybindingRegistry
#[test]
fn test_registry_defaults() {
    let reg = KeybindingRegistry::with_defaults();
    assert_eq!(reg.lookup(0xff09, false, false, false, false), Some("quicktoc"));
    assert_eq!(reg.lookup(0x070, true, false, false, false), Some("print"));
}

#[test]
fn default_zoom_keys_zoom() {
    let r = KeybindingRegistry::with_defaults();
    assert_eq!(r.lookup(0x03d, true, false, false, false), Some("zoom_in"));
    assert_eq!(r.lookup(0x02d, true, false, false, false), Some("zoom_out"));
    assert_eq!(r.lookup(0x030, true, false, false, false), Some("zoom_reset"));
    let mut from_template = KeybindingRegistry::new();
    from_template.register_from_config(&vec![("ctrl+equal".to_string(), "zoom_in".to_string())]);
    assert_eq!(from_template.lookup(0x03d, true, false, false, false), Some("zoom_in"));
}

#[test]
fn test_registry_lookup_miss() {
    let reg = KeybindingRegistry::with_defaults();
    assert_eq!(reg.lookup(0x061, false, false, false, false), None);
}

#[test]
fn test_registry_override() {
    let mut reg = KeybindingRegistry::with_defaults();
    reg.register_str("tab", "sidetoc_toggle");
    assert_eq!(reg.lookup(0xff09, false, false, false, false), Some("sidetoc_toggle"));
}

#[test]
fn test_registry_custom_binding() {
    let mut reg = KeybindingRegistry::new();
    reg.register_str("ctrl+y", "open ~/todo.md");
    assert_eq!(reg.lookup(0x079, true, false, false, false), Some("open ~/todo.md"));
}

#[test]
fn test_registry_from_config() {
    let mut reg = KeybindingRegistry::with_defaults();
    let config_bindings = vec![
        ("tab".to_string(), "sidetoc_toggle".to_string()),
        ("ctrl+b".to_string(), "quicktoc".to_string()),
    ];
    reg.register_from_config(&config_bindings);
    assert_eq!(reg.lookup(0xff09, false, false, false, false), Some("sidetoc_toggle"));
    assert_eq!(reg.lookup(0x062, true, false, false, false), Some("quicktoc"));
}

#[test]
fn registry_invalid_combination_is_refused_and_changes_nothing() {
    let mut reg = KeybindingRegistry::new();
    assert!(!reg.register_str("hyper+q", "quicktoc"));
    assert!(reg.register_str("shift+g", "scroll_bottom"));
    assert_eq!(reg.lookup(0x047, false, true, false, false), Some("scroll_bottom"));
    assert_eq!(reg.lookup(0x047, false, false, false, false), None);
}

// match_settings
#[test]
fn test_match_settings_prefix() {
    let matches = match_settings("front");
    assert_eq!(matches, vec!["frontmatter"]);
}

#[test]
fn test_match_settings_paragraph() {
    let mut matches = match_settings("paragraph");
    matches.sort();
    assert_eq!(matches, vec!["paragraph_numbers", "paragraph_numbers_start"]);
}

#[test]
fn test_match_settings_no_match() {
    let matches = match_settings("xyz");
    assert!(matches.is_empty());
}

#[test]
fn test_match_settings_empty_prefix() {
    let matches = match_settings("");
    assert_eq!(matches.len(), 4);
}

#[test]
fn is_markdown_file_by_extension() {
    assert!(is_markdown_file("a.md"));
    assert!(is_markdown_file("A.MARKDOWN"));
    assert!(is_markdown_file("x.qmd"));
    assert!(is_markdown_file("y.mkd"));
    assert!(!is_markdown_file("z.txt"));
    assert!(!is_markdown_file("md"));
}

#[test]
fn every_key_name_of_a_keyval_is_known_and_parses() {
    for kv in [0xff09u32, 0x41, 0x5a, 0x1a, 0x30, 0x39, 0xffbe, 0xffc9, 0x3d, 0x2d, 0x60, 0x5c] {
        let name = keyval_to_name(kv).expect("a key name");
        assert!(is_known_key(&name), "{}", name);
        let combo = parse_key_combo(&name).expect("a key combination");
        assert_eq!(combo.key, name);
        assert!(!combo.ctrl && !combo.shift && !combo.alt && !combo.super_);
    }
}
