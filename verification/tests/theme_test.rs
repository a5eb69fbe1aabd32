use mip::{is_system_dark, COLOR_SCHEME_KEY, COLOR_SCHEME_SCHEMA};

#[test]
fn is_system_dark_returns_a_value() {
    let _dark: bool = is_system_dark(None, None, None);
}

#[test]
fn the_settings_value_decides_alone() {
    assert!(is_system_dark(Some("'prefer-dark'"), None, None));
    assert!(!is_system_dark(Some("'default'"), Some("'prefer-dark'"), Some("Adwaita-dark")));
}

#[test]
fn fallbacks_without_the_schema() {
    assert!(is_system_dark(None, Some("'prefer-dark'\n"), None));
    assert!(is_system_dark(None, Some("'default'"), Some("Adwaita:DARK")));
    assert!(!is_system_dark(None, Some("'default'"), Some("Adwaita")));
    assert!(!is_system_dark(None, None, None));
}

#[test]
fn schema_names() {
    assert_eq!(COLOR_SCHEME_SCHEMA, "org.gnome.desktop.interface");
    assert_eq!(COLOR_SCHEME_KEY, "color-scheme");
}
