//! The configuration: what a config file sets, the rules that a loaded
//! configuration is held to, the defaults of each setting, and where the
//! configuration and the custom styles live.
use vstd::prelude::*;

use crate::text::{chars_eq, chars_of, path_join, path_join_chars, string_of};

verus! {

/// A configuration as a config file gives it: each setting is `None` where
/// the file leaves it out.
#[derive(Debug, Clone)]
pub struct Config {
    pub theme: Option<String>,
    pub frontmatter: Option<bool>,
    pub runcmd: Option<String>,
    pub sidetoc_width: Option<u32>,
    pub sidetoc_position: Option<String>,
    /// The `[keybindings]` table: key combination and command, in the order
    /// the table was read.
    pub keybindings: Option<Vec<(String, String)>>,
    pub paragraph_numbers: Option<bool>,
    pub paragraph_numbers_start: Option<u8>,
    pub history_size: Option<u32>,
    pub math: Option<bool>,
    pub style: Option<String>,
}

/// A configuration that sets nothing.
pub open spec fn sets_nothing(c: Config) -> bool {
    &&& c.theme is None
    &&& c.frontmatter is None
    &&& c.runcmd is None
    &&& c.sidetoc_width is None
    &&& c.sidetoc_position is None
    &&& c.keybindings is None
    &&& c.paragraph_numbers is None
    &&& c.paragraph_numbers_start is None
    &&& c.history_size is None
    &&& c.math is None
    &&& c.style is None
}

impl Default for Config {
    fn default() -> (r: Self)
        ensures
            sets_nothing(r),
    {
        Config {
            theme: None,
            frontmatter: None,
            runcmd: None,
            sidetoc_width: None,
            sidetoc_position: None,
            keybindings: None,
            paragraph_numbers: None,
            paragraph_numbers_start: None,
            history_size: None,
            math: None,
            style: None,
        }
    }
}

/// The themes that a configuration may name.
pub open spec fn valid_theme(t: Seq<char>) -> bool {
    t == "system"@ || t == "light"@ || t == "dark"@
}

/// The sides that the table of contents panel may stand on.
pub open spec fn valid_position(p: Seq<char>) -> bool {
    p == "left"@ || p == "right"@
}

/// The view of an optional string.
pub open spec fn opt_view(o: Option<String>) -> Option<Seq<char>> {
    match o {
        Some(s) => Some(s@),
        None => None,
    }
}

/// The view of an optional string slice.
pub open spec fn opt_str_view(o: Option<&str>) -> Option<Seq<char>> {
    match o {
        Some(s) => Some(s@),
        None => None,
    }
}

/// `c` and `d` set the same, but for the theme and the panel's side.
pub open spec fn same_but_theme_and_position(c: Config, d: Config) -> bool {
    &&& c.frontmatter == d.frontmatter
    &&& c.runcmd == d.runcmd
    &&& c.sidetoc_width == d.sidetoc_width
    &&& c.keybindings == d.keybindings
    &&& c.paragraph_numbers == d.paragraph_numbers
    &&& c.paragraph_numbers_start == d.paragraph_numbers_start
    &&& c.history_size == d.history_size
    &&& c.math == d.math
    &&& c.style == d.style
}

fn is_one_of(s: &str, a: &str, b: &str, c: Option<&str>) -> (r: bool)
    ensures
        r == (s@ == a@ || s@ == b@ || (c is Some && s@ == c->0@)),
{
    let v = chars_of(s);
    if chars_eq(v.as_slice(), chars_of(a).as_slice()) || chars_eq(
        v.as_slice(),
        chars_of(b).as_slice(),
    ) {
        return true;
    }
    match c {
        Some(c) => chars_eq(v.as_slice(), chars_of(c).as_slice()),
        None => false,
    }
}

/// Is `t` a theme that a configuration may name?
pub fn is_valid_theme(t: &str) -> (r: bool)
    ensures
        r == valid_theme(t@),
{
    is_one_of(t, "system", "light", Some("dark"))
}

impl Config {
    /// The configuration that a config file gives, from what parsing it gave
    /// (`None` when the file is missing or is no valid configuration):
    /// nothing set without one; else an unknown theme is dropped, and
    /// (only when the theme was not dropped) an unknown side of the panel.
    pub fn load_from(parsed: Option<Config>) -> (r: Config)
        ensures
            match parsed {
                None => sets_nothing(r),
                Some(c) => {
                    &&& same_but_theme_and_position(r, c)
                    &&& if c.theme is Some && !valid_theme(c.theme->0@) {
                        r.theme is None && opt_view(r.sidetoc_position) == opt_view(
                            c.sidetoc_position,
                        )
                    } else if c.sidetoc_position is Some && !valid_position(
                        c.sidetoc_position->0@,
                    ) {
                        opt_view(r.theme) == opt_view(c.theme) && r.sidetoc_position is None
                    } else {
                        opt_view(r.theme) == opt_view(c.theme) && opt_view(r.sidetoc_position)
                            == opt_view(c.sidetoc_position)
                    }
                },
            },
            r.theme is Some ==> valid_theme(r.theme->0@),
            (parsed is None || parsed->0.theme is None || valid_theme(parsed->0.theme->0@)) ==> (
            r.sidetoc_position is None || valid_position(r.sidetoc_position->0@)),
    {
        match parsed {
            None => Config::default(),
            Some(c) => {
                let theme_ok = match &c.theme {
                    Some(t) => is_valid_theme(t.as_str()),
                    None => true,
                };
                if !theme_ok {
                    return Config { theme: None, ..c };
                }
                let position_ok = match &c.sidetoc_position {
                    Some(p) => is_one_of(p.as_str(), "left", "right", None),
                    None => true,
                };
                if !position_ok {
                    return Config { sidetoc_position: None, ..c };
                }
                c
            },
        }
    }

    /// The theme: `"system"` unless set.
    pub fn theme(&self) -> (r: &str)
        ensures
            r@ == match self.theme {
                Some(t) => t@,
                None => "system"@,
            },
    {
        match &self.theme {
            Some(t) => t.as_str(),
            None => "system",
        }
    }

    /// Whether the front matter is shown: not unless set.
    pub fn frontmatter(&self) -> (r: bool)
        ensures
            r == match self.frontmatter {
                Some(b) => b,
                None => false,
            },
    {
        match self.frontmatter {
            Some(b) => b,
            None => false,
        }
    }

    /// The commands to run at start, if set.
    pub fn runcmd(&self) -> (r: Option<&str>)
        ensures
            opt_str_view(r) == opt_view(self.runcmd),
    {
        match &self.runcmd {
            Some(s) => Some(s.as_str()),
            None => None,
        }
    }

    /// The width of the table of contents panel: 250 unless set.
    pub fn sidetoc_width(&self) -> (r: u32)
        ensures
            r == match self.sidetoc_width {
                Some(w) => w,
                None => 250,
            },
    {
        match self.sidetoc_width {
            Some(w) => w,
            None => 250,
        }
    }

    /// The side of the table of contents panel: `"left"` unless set.
    pub fn sidetoc_position(&self) -> (r: &str)
        ensures
            r@ == match self.sidetoc_position {
                Some(p) => p@,
                None => "left"@,
            },
    {
        match &self.sidetoc_position {
            Some(p) => p.as_str(),
            None => "left",
        }
    }

    /// Whether headings are numbered: not unless set.
    pub fn paragraph_numbers(&self) -> (r: bool)
        ensures
            r == match self.paragraph_numbers {
                Some(b) => b,
                None => false,
            },
    {
        match self.paragraph_numbers {
            Some(b) => b,
            None => false,
        }
    }

    /// The heading level that numbering starts at: the setting held to
    /// 1..=6, 1 unless set.
    pub fn paragraph_numbers_start(&self) -> (r: u8)
        ensures
            r == clamp_level(
                match self.paragraph_numbers_start {
                    Some(n) => n,
                    None => 1,
                },
            ),
            1 <= r <= 6,
    {
        let n = match self.paragraph_numbers_start {
            Some(n) => n,
            None => 1,
        };
        if n < 1 {
            1
        } else if n > 6 {
            6
        } else {
            n
        }
    }

    /// The most entries of the command history: 50 unless set.
    pub fn history_size(&self) -> (r: usize)
        ensures
            r == match self.history_size {
                Some(n) => n,
                None => 50,
            },
    {
        match self.history_size {
            Some(n) => n as usize,
            None => 50,
        }
    }

    /// Whether math is rendered: it is unless set otherwise.
    pub fn math(&self) -> (r: bool)
        ensures
            r == match self.math {
                Some(b) => b,
                None => true,
            },
    {
        match self.math {
            Some(b) => b,
            None => true,
        }
    }

    /// The custom style's name, if set.
    pub fn style(&self) -> (r: Option<&str>)
        ensures
            opt_str_view(r) == opt_view(self.style),
    {
        match &self.style {
            Some(s) => Some(s.as_str()),
            None => None,
        }
    }
}

/// `n` held to the heading levels 1..=6.
pub open spec fn clamp_level(n: u8) -> u8 {
    if n < 1 {
        1
    } else if n > 6 {
        6
    } else {
        n
    }
}

/// The configuration directory: `$XDG_CONFIG_HOME`, else
/// `$HOME/.config`, else `./.config`.
pub open spec fn config_dir_of(config_home: Option<Seq<char>>, home: Option<Seq<char>>) -> Seq<
    char,
> {
    match config_home {
        Some(c) => c,
        None => path_join(
            match home {
                Some(h) => h,
                None => "."@,
            },
            ".config"@,
        ),
    }
}

fn config_dir(config_home: Option<&str>, home: Option<&str>) -> (r: Vec<char>)
    ensures
        r@ == config_dir_of(opt_str_view(config_home), opt_str_view(home)),
{
    match config_home {
        Some(c) => chars_of(c),
        None => {
            let h = match home {
                Some(h) => chars_of(h),
                None => chars_of("."),
            };
            path_join_chars(h.as_slice(), chars_of(".config").as_slice())
        },
    }
}

/// The directory of the custom styles, `<config dir>/miprs/styles`.
pub open spec fn styles_dir_of(config_home: Option<Seq<char>>, home: Option<Seq<char>>) -> Seq<
    char,
> {
    path_join(path_join(config_dir_of(config_home, home), "miprs"@), "styles"@)
}

/// The directory of the custom styles, from the values of `XDG_CONFIG_HOME`
/// and `HOME` (`None` where unset).
pub fn styles_dir(config_home: Option<&str>, home: Option<&str>) -> (r: String)
    ensures
        r@ == styles_dir_of(opt_str_view(config_home), opt_str_view(home)),
{
    let d = config_dir(config_home, home);
    let a = path_join_chars(d.as_slice(), chars_of("miprs").as_slice());
    let b = path_join_chars(a.as_slice(), chars_of("styles").as_slice());
    string_of(b.as_slice())
}

/// The stylesheet of the style `name`, `<styles dir>/<name>/style.css`.
pub fn style_css_path(config_home: Option<&str>, home: Option<&str>, name: &str) -> (r: String)
    ensures
        r@ == path_join(
            path_join(styles_dir_of(opt_str_view(config_home), opt_str_view(home)), name@),
            "style.css"@,
        ),
{
    let d = styles_dir(config_home, home);
    let a = path_join_chars(chars_of(d.as_str()).as_slice(), chars_of(name).as_slice());
    let b = path_join_chars(a.as_slice(), chars_of("style.css").as_slice());
    string_of(b.as_slice())
}

/// The config file, `<config dir>/miprs/config.toml`.
pub fn config_path(config_home: Option<&str>, home: Option<&str>) -> (r: String)
    ensures
        r@ == path_join(
            path_join(config_dir_of(opt_str_view(config_home), opt_str_view(home)), "miprs"@),
            "config.toml"@,
        ),
{
    let d = config_dir(config_home, home);
    let a = path_join_chars(d.as_slice(), chars_of("miprs").as_slice());
    let b = path_join_chars(a.as_slice(), chars_of("config.toml").as_slice());
    string_of(b.as_slice())
}

/// The stylesheet that a new custom style starts from: comments that list
/// the theme's variables, with examples.
pub const DEFAULT_STYLE_CSS: &'static str = r#"/* Custom style for mip
 * This file is loaded after the default styles, so you can override
 * any CSS variable or rule. The default theme variables are:
 *
 * :root (light mode):
 *   --fg: #333           (text color)
 *   --heading: #111      (heading color)
 *   --bg: #fff           (background)
 *   --link: #0969da      (link color)
 *   --h1-border: #e0e0e0
 *   --table-border: #efefef
 *   --table-odd-bg: #f3f3f3
 *   --blockquote-border: #ccc
 *   --blockquote-bg: #eee
 *   --code-bg: #f6f8fa
 *   --strong-border: #aaa
 *   --frontmatter-border: #ddd
 *   --frontmatter-th-bg: #f6f8fa
 *
 * .dark (dark mode):
 *   --fg: #d4d4d4
 *   --heading: #e0e0e0
 *   --bg: #1a1a2e
 *   --link: #58a6ff
 *   --h1-border: #333
 *   --table-border: #333
 *   --table-odd-bg: #222
 *   --blockquote-border: #444
 *   --blockquote-bg: #252525
 *   --code-bg: #2d2d3f
 *   --strong-border: #666
 *   --frontmatter-border: #444
 *   --frontmatter-th-bg: #2d2d3f
 *
 * Example: Override background and text for light mode:
 *   :root { --bg: #fdf6e3; --fg: #586e75; }
 *
 * Example: Override dark mode:
 *   .dark { --bg: #002b36; --fg: #839496; }
 *
 * Example: Change heading font:
 *   h1, h2, h3, h4, h5, h6 { font-family: Georgia, serif; }
 *
 * Example: Wider content area:
 *   .section { max-width: 900px; margin: 0 auto; }
 */
"#;

/// The config file that a new configuration starts from: every setting at
/// its default, with comments, and the default key bindings.
pub const DEFAULT_CONFIG_TEMPLATE: &'static str = r#"# mip configuration
# Generated by: mip --initconf

# Color theme: "system", "light", or "dark"
# "system" follows your desktop's dark/light preference
theme = "system"

# Show YAML frontmatter as a table above the content
frontmatter = false

# Command(s) to run at startup (semicolon-separated)
# Examples:
#   runcmd = "sidetoc_open"
#   runcmd = "sidetoc_open; set theme dark"
# runcmd = ""

# Side table of contents panel width in pixels
sidetoc_width = 250

# Side table of contents position: "left" or "right"
sidetoc_position = "left"

# Show hierarchical section numbers on headings (1., 1.1, 1.1.1)
paragraph_numbers = false

# Heading level to start numbering from (1 = H1, 2 = H2, etc.)
# Useful when H1 is a document title and you want numbering from H2
paragraph_numbers_start = 1

# Enable TeX math rendering via KaTeX ($..$ inline, $$...$$ display)
math = true

# Custom style name — loads CSS from ~/.config/miprs/styles/<name>/style.css
# Create a new style with: mip --initstyle <name>
# style = "academic"

# Maximum number of command bar history entries to keep
history_size = 50

# Keybindings: key_combo = "command"
# Key combos: ctrl+key, shift+key, alt+key, super+key, or plain key
# Key sequences: "key1,key2" (e.g. "g,g" = press g then g within 500ms)
# Commands can be composed with semicolons: "cmd1; cmd2"
#
# Available commands:
#   q / close              - quit mip
#   open <path> / o <path> - open a markdown file
#   print                  - open print dialog (Ctrl+P)
#   quicktoc               - toggle fullscreen TOC overlay
#   sidetoc_open           - show side TOC panel
#   sidetoc_close          - hide side TOC panel
#   sidetoc_toggle         - toggle side TOC panel
#   sidetoc_expand_width   - widen side TOC panel
#   sidetoc_shrink_width   - narrow side TOC panel
#   sidetoc_focus          - focus the side TOC panel
#   document_focus         - focus the document view
#   zoom_in                - zoom in 10% (Ctrl+=)
#   zoom_out               - zoom out 10% (Ctrl+-)
#   zoom_reset             - reset zoom to 100% (Ctrl+0)
#   scroll_down            - scroll down one step (j)
#   scroll_up              - scroll up one step (k)
#   scroll_page_down       - scroll down one page (Ctrl+F)
#   scroll_page_up         - scroll up one page (Ctrl+B)
#   scroll_half_down       - scroll down half page (Ctrl+D)
#   scroll_half_up         - scroll up half page (Ctrl+U)
#   scroll_top             - scroll to top (Home, gg)
#   scroll_bottom          - scroll to bottom (End, G)
#   scroll_next_heading    - jump to next heading (n)
#   scroll_prev_heading    - jump to previous heading (N)
#   export_html <path>     - export current document as standalone HTML file
[keybindings]
tab = "quicktoc"
"ctrl+p" = "print"
"ctrl+equal" = "zoom_in"
"ctrl+minus" = "zoom_out"
"ctrl+0" = "zoom_reset"
j = "scroll_down"
k = "scroll_up"
down = "scroll_down"
up = "scroll_up"
"ctrl+f" = "scroll_page_down"
"ctrl+b" = "scroll_page_up"
pagedown = "scroll_page_down"
pageup = "scroll_page_up"
"ctrl+d" = "scroll_half_down"
"ctrl+u" = "scroll_half_up"
home = "scroll_top"
end = "scroll_bottom"
"shift+g" = "scroll_bottom"
"g,g" = "scroll_top"
n = "scroll_next_heading"
"shift+n" = "scroll_prev_heading"
# "ctrl+b" = "sidetoc_toggle"
# "ctrl+y" = "open ~/todo.md"
"#;

/// The stylesheet that a new custom style starts from.
pub fn default_style_css() -> (r: &'static str)
    ensures
        r == DEFAULT_STYLE_CSS,
{
    DEFAULT_STYLE_CSS
}

/// The config file that a new configuration starts from.
pub fn default_config_template() -> (r: &'static str)
    ensures
        r == DEFAULT_CONFIG_TEMPLATE,
{
    DEFAULT_CONFIG_TEMPLATE
}

} // verus!
