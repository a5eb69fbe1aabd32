use mip::config::{
    config_path, default_config_template, default_style_css, style_css_path, styles_dir, Config,
};

fn parsed(edit: impl FnOnce(&mut Config)) -> Option<Config> {
    let mut c = Config::default();
    edit(&mut c);
    Some(c)
}

#[test]
fn test_load_from_valid_config_all_fields() {
    // theme = "dark", frontmatter = true
    let cfg = Config::load_from(parsed(|c| {
        c.theme = Some("dark".to_string());
        c.frontmatter = Some(true);
    }));
    assert_eq!(cfg.theme(), "dark");
    assert!(cfg.frontmatter());
}

#[test]
fn test_load_from_valid_config_light_theme() {
    let cfg = Config::load_from(parsed(|c| c.theme = Some("light".to_string())));
    assert_eq!(cfg.theme(), "light");
    assert!(!cfg.frontmatter());
}

#[test]
fn test_load_from_missing_file() {
    let cfg = Config::load_from(None);
    assert_eq!(cfg.theme(), "system");
    assert!(!cfg.frontmatter());
}

#[test]
fn test_load_from_invalid_theme_falls_back() {
    let cfg = Config::load_from(parsed(|c| {
        c.theme = Some("neon".to_string());
        c.frontmatter = Some(true);
    }));
    assert_eq!(cfg.theme(), "system");
    assert!(cfg.frontmatter());
}

#[test]
fn test_load_from_malformed_toml() {
    let cfg = Config::load_from(None);
    assert_eq!(cfg.theme(), "system");
    assert!(!cfg.frontmatter());
}

#[test]
fn test_load_from_empty_file() {
    let cfg = Config::load_from(Some(Config::default()));
    assert_eq!(cfg.theme(), "system");
    assert!(!cfg.frontmatter());
}

#[test]
fn test_load_from_system_theme() {
    let cfg = Config::load_from(parsed(|c| c.theme = Some("system".to_string())));
    assert_eq!(cfg.theme(), "system");
}

#[test]
fn test_load_from_runcmd() {
    let cfg = Config::load_from(parsed(|c| c.runcmd = Some("sidetoc_open".to_string())));
    assert_eq!(cfg.runcmd(), Some("sidetoc_open"));
}

#[test]
fn test_load_from_runcmd_missing() {
    let cfg = Config::load_from(parsed(|c| c.theme = Some("dark".to_string())));
    assert_eq!(cfg.runcmd(), None);
}

#[test]
fn test_load_from_sidetoc_width() {
    let cfg = Config::load_from(parsed(|c| c.sidetoc_width = Some(300)));
    assert_eq!(cfg.sidetoc_width(), 300);
}

#[test]
fn test_load_from_sidetoc_width_default() {
    let cfg = Config::load_from(Some(Config::default()));
    assert_eq!(cfg.sidetoc_width(), 250);
}

#[test]
fn test_load_from_sidetoc_position_right() {
    let cfg = Config::load_from(parsed(|c| c.sidetoc_position = Some("right".to_string())));
    assert_eq!(cfg.sidetoc_position(), "right");
}

#[test]
fn test_load_from_sidetoc_position_invalid() {
    let cfg = Config::load_from(parsed(|c| c.sidetoc_position = Some("top".to_string())));
    assert_eq!(cfg.sidetoc_position(), "left");
}

#[test]
fn test_load_from_sidetoc_position_default() {
    let cfg = Config::load_from(Some(Config::default()));
    assert_eq!(cfg.sidetoc_position(), "left");
}

#[test]
fn invalid_theme_leaves_the_position_unchecked() {
    let cfg = Config::load_from(parsed(|c| {
        c.theme = Some("neon".to_string());
        c.sidetoc_position = Some("top".to_string());
    }));
    assert_eq!(cfg.theme(), "system");
    assert_eq!(cfg.sidetoc_position(), "top");
}

#[test]
fn test_default_config_template_contains_all_settings() {
    let template = default_config_template();
    assert!(template.contains("theme"));
    assert!(template.contains("frontmatter"));
    assert!(template.contains("runcmd"));
    assert!(template.contains("sidetoc_width"));
    assert!(template.contains("sidetoc_position"));
    assert!(template.contains("[keybindings]"));
}

#[test]
fn test_default_config_template_is_valid_toml() {
    let template = default_config_template();
    let result: Result<toml::Value, _> = toml::from_str(template);
    assert!(result.is_ok(), "Template is not valid TOML: {:?}", result.err());
}

#[test]
fn default_style_css_is_a_comment() {
    let css = default_style_css();
    assert!(css.starts_with("/* Custom style for mip"));
    assert!(css.trim_end().ends_with("*/"));
}

#[test]
fn test_load_from_math_true() {
    let cfg = Config::load_from(parsed(|c| c.math = Some(true)));
    assert!(cfg.math());
}

#[test]
fn test_load_from_math_false() {
    let cfg = Config::load_from(parsed(|c| c.math = Some(false)));
    assert!(!cfg.math());
}

#[test]
fn test_load_from_math_missing_defaults_to_true() {
    let cfg = Config::load_from(parsed(|c| c.theme = Some("dark".to_string())));
    assert!(cfg.math());
}

#[test]
fn getters_give_the_defaults() {
    let cfg = Config::default();
    assert!(!cfg.paragraph_numbers());
    assert_eq!(cfg.paragraph_numbers_start(), 1);
    assert_eq!(cfg.history_size(), 50);
    assert_eq!(cfg.style(), None);
}

#[test]
fn paragraph_numbers_start_is_held_to_heading_levels() {
    let mut cfg = Config::default();
    cfg.paragraph_numbers_start = Some(0);
    assert_eq!(cfg.paragraph_numbers_start(), 1);
    cfg.paragraph_numbers_start = Some(9);
    assert_eq!(cfg.paragraph_numbers_start(), 6);
    cfg.paragraph_numbers_start = Some(3);
    assert_eq!(cfg.paragraph_numbers_start(), 3);
}

#[test]
fn paths_follow_the_config_home() {
    assert_eq!(config_path(Some("/c"), Some("/h")), "/c/miprs/config.toml");
    assert_eq!(config_path(None, Some("/h")), "/h/.config/miprs/config.toml");
    assert_eq!(styles_dir(None, None), "./.config/miprs/styles");
    assert_eq!(style_css_path(Some("/c/"), None, "academic"), "/c/miprs/styles/academic/style.css");
}

#[test]
fn valid_themes() {
    assert!(mip::config::is_valid_theme("system"));
    assert!(mip::config::is_valid_theme("light"));
    assert!(mip::config::is_valid_theme("dark"));
    assert!(!mip::config::is_valid_theme("Dark"));
    assert!(!mip::config::is_valid_theme(""));
}
