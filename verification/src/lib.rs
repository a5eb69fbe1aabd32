//! Markdown Instant Preview: the logic of a markdown previewer, verified.
//!
//! The modules hold the command language of the command bar, the command
//! history, the configuration rules, the markdown rendering steps (anchors,
//! section numbers, media embeds, the page template), the decisions of the
//! file watcher, of the local server and of the window's command handlers.
use vstd::prelude::*;

pub mod command;
pub mod config;
pub mod history;
pub mod markdown;
pub mod server;
pub mod text;
pub mod view;
pub mod watch;

verus! {

/// The settings schema that carries the desktop's colour-scheme preference.
pub const COLOR_SCHEME_SCHEMA: &'static str = "org.gnome.desktop.interface";

/// The key of that schema that holds the preference.
pub const COLOR_SCHEME_KEY: &'static str = "color-scheme";

/// Whether the desktop prefers a dark colour scheme, from what can be read
/// of it: the settings' colour-scheme value where the schema exists (it
/// decides alone); else the output of `gsettings get` naming
/// `prefer-dark`, or else a `GTK_THEME` whose lowercase form holds `dark`.
pub open spec fn prefers_dark(
    scheme: Option<Seq<char>>,
    gsettings_output: Option<Seq<char>>,
    gtk_theme: Option<Seq<char>>,
) -> bool {
    match scheme {
        Some(s) => crate::text::contains_seq(s, "prefer-dark"@),
        None => {
            ||| (gsettings_output is Some && crate::text::contains_seq(
                gsettings_output->0,
                "prefer-dark"@,
            ))
            ||| (gtk_theme is Some && crate::text::contains_seq(
                crate::text::lowercase(gtk_theme->0),
                "dark"@,
            ))
        },
    }
}

fn holds(s: &str, p: &str) -> (r: bool)
    ensures
        r == crate::text::contains_seq(s@, p@),
{
    let sc = crate::text::chars_of(s);
    let pc = crate::text::chars_of(p);
    let r = crate::text::find_chars(sc.as_slice(), pc.as_slice(), 0);
    proof {
        crate::text::lemma_find_from(s@, p@, 0);
    }
    match r {
        Some(i) => {
            assert(crate::text::occurs_at(s@, i as int, p@));
            true
        },
        None => {
            assert forall|i: int| !crate::text::occurs_at(s@, i, p@) by {
                if i < 0 {
                } else {
                }
            }
            false
        },
    }
}

/// Is the desktop set to a dark colour scheme? `scheme` is the settings'
/// colour-scheme value (`None` where the schema is not installed),
/// `gsettings_output` what `gsettings get` printed (`None` where it could
/// not run), `gtk_theme` the value of `GTK_THEME` (`None` where unset).
pub fn is_system_dark(
    scheme: Option<&str>,
    gsettings_output: Option<&str>,
    gtk_theme: Option<&str>,
) -> (r: bool)
    ensures
        r == prefers_dark(
            crate::config::opt_str_view(scheme),
            crate::config::opt_str_view(gsettings_output),
            crate::config::opt_str_view(gtk_theme),
        ),
{
    if let Some(s) = scheme {
        return holds(s, "prefer-dark");
    }
    if let Some(out) = gsettings_output {
        if holds(out, "prefer-dark") {
            return true;
        }
    }
    if let Some(t) = gtk_theme {
        let lower = crate::text::to_lowercase(t);
        if holds(lower.as_str(), "dark") {
            return true;
        }
    }
    false
}

} // verus!
