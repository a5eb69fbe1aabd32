//! The local server's logic: the content type of a bundled asset, and the
//! choice of a free port.
use vstd::prelude::*;

use crate::text::{chars_of, ends_with, ends_with_chars};

verus! {

/// The content type of a bundled asset, by the end of its path.
pub open spec fn mime_of(path: Seq<char>) -> Seq<char> {
    if ends_with(path, ".js"@) {
        "application/javascript"@
    } else if ends_with(path, ".css"@) {
        "text/css"@
    } else if ends_with(path, ".woff2"@) {
        "font/woff2"@
    } else if ends_with(path, ".woff"@) {
        "font/woff"@
    } else if ends_with(path, ".ttf"@) {
        "font/ttf"@
    } else {
        "application/octet-stream"@
    }
}

/// The content type of a bundled asset.
pub fn mime_from_path(path: &str) -> (r: &'static str)
    ensures
        r@ == mime_of(path@),
{
    let p = chars_of(path);
    let ps = p.as_slice();
    if ends_with_chars(ps, chars_of(".js").as_slice()) {
        "application/javascript"
    } else if ends_with_chars(ps, chars_of(".css").as_slice()) {
        "text/css"
    } else if ends_with_chars(ps, chars_of(".woff2").as_slice()) {
        "font/woff2"
    } else if ends_with_chars(ps, chars_of(".woff").as_slice()) {
        "font/woff"
    } else if ends_with_chars(ps, chars_of(".ttf").as_slice()) {
        "font/ttf"
    } else {
        "application/octet-stream"
    }
}

/// The first port that the server tries.
pub const FIRST_PORT: u16 = 8000;

/// The port after the last one that the server tries.
pub const END_PORT: u16 = 9000;

/// The first port of 8000..9000 that `available` accepts, asking in order
/// and stopping at the first yes; `None` when it accepts none.
pub fn get_available_port<F: Fn(u16) -> bool>(available: F) -> (r: Option<u16>)
    requires
        forall|p: u16| available.requires((p,)),
    ensures
        match r {
            Some(p) => FIRST_PORT <= p < END_PORT && available.ensures((p,), true) && forall|q: u16|
                FIRST_PORT <= q < p ==> available.ensures((q,), false),
            None => forall|q: u16| FIRST_PORT <= q < END_PORT ==> available.ensures((q,), false),
        },
{
    let mut port: u16 = FIRST_PORT;
    while port < END_PORT
        invariant
            FIRST_PORT <= port <= END_PORT,
            forall|p: u16| available.requires((p,)),
            forall|q: u16| FIRST_PORT <= q < port ==> available.ensures((q,), false),
        decreases END_PORT - port,
    {
        if available(port) {
            return Some(port);
        }
        port = port + 1;
    }
    None
}

/// The cache policy of a bundled asset: it never changes while the program
/// runs.
pub const ASSET_CACHE_CONTROL: &'static str = "public, max-age=31536000";

/// The local server: it serves the page, its seed file, the bundled KaTeX
/// and Mermaid assets and the files beside the document.
pub struct RestBro;

impl RestBro {
    /// The headers of a bundled asset's reply: its content type, then its
    /// cache policy.
    pub fn asset_headers(path: &str) -> (r: Vec<(&'static str, &'static str)>)
        ensures
            r@.len() == 2,
            r@[0].0@ == "content-type"@,
            r@[0].1@ == mime_of(path@),
            r@[1].0@ == "cache-control"@,
            r@[1].1@ == ASSET_CACHE_CONTROL@,
    {
        let mut r: Vec<(&'static str, &'static str)> = Vec::new();
        r.push(("content-type", mime_from_path(path)));
        r.push(("cache-control", ASSET_CACHE_CONTROL));
        r
    }

    /// A file that the server serves from its temporary directory:
    /// `temp_dir`, a slash, `name`.
    pub fn temp_file_path(temp_dir: &str, name: &str) -> (r: String)
        ensures
            r@ == temp_dir@ + "/"@ + name@,
    {
        let mut v = chars_of(temp_dir);
        crate::text::push_all(&mut v, chars_of("/").as_slice());
        crate::text::push_all(&mut v, chars_of(name).as_slice());
        crate::text::string_of(v.as_slice())
    }
}

} // verus!
