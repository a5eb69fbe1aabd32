use mip::server::{get_available_port, mime_from_path, RestBro, ASSET_CACHE_CONTROL};

#[test]
fn test_get_available_port_returns_some() {
    // Every port answers as free here: the probe itself is the program's I/O.
    let found = get_available_port(|_port| true);
    assert!(found.is_some());
}

#[test]
fn get_available_port_takes_the_first_yes() {
    assert_eq!(get_available_port(|p| p >= 8042), Some(8042));
    assert_eq!(get_available_port(|_| true), Some(8000));
    assert_eq!(get_available_port(|p| p == 9000), None);
}

#[test]
fn mime_types_of_assets() {
    assert_eq!(mime_from_path("katex.min.js"), "application/javascript");
    assert_eq!(mime_from_path("katex.min.css"), "text/css");
    assert_eq!(mime_from_path("fonts/KaTeX_Main-Regular.woff2"), "font/woff2");
    assert_eq!(mime_from_path("a.woff"), "font/woff");
    assert_eq!(mime_from_path("a.ttf"), "font/ttf");
    assert_eq!(mime_from_path("a.png"), "application/octet-stream");
}

#[test]
fn asset_headers_and_temp_files() {
    let h = RestBro::asset_headers("mermaid.min.js");
    assert_eq!(h, vec![("content-type", "application/javascript"), ("cache-control", ASSET_CACHE_CONTROL)]);
    assert_eq!(RestBro::temp_file_path("/tmp/mip-1", ".temp.html"), "/tmp/mip-1/.temp.html");
}
