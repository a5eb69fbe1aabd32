use mip::watch::{
    canonical_parts, is_change_kind, resync_plan, should_rerender, wanted_dirs, AccessKind,
    AccessMode, CreateKind, DataChange, Debounce, EventKind, FsEvent, MetadataKind, ModifyKind,
    RemoveKind, RenameMode, WatchMessage, DEBOUNCE_NS, TICK_NS,
};

const WATCHED: &str = "/tmp/mip-watch-test/doc.md";

fn event(kind: EventKind, path: &str) -> FsEvent {
    FsEvent::new(kind).add_path(path)
}

#[test]
fn access_open_does_not_rerender() {
    let e = event(EventKind::Access(AccessKind::Open(AccessMode::Any)), WATCHED);
    assert!(!should_rerender(&e, WATCHED));
}

#[test]
fn every_access_kind_is_rejected() {
    for kind in [
        AccessKind::Any,
        AccessKind::Read,
        AccessKind::Open(AccessMode::Any),
        AccessKind::Open(AccessMode::Read),
        AccessKind::Close(AccessMode::Read),
        AccessKind::Close(AccessMode::Write),
        AccessKind::Other,
    ] {
        assert!(
            !is_change_kind(&EventKind::Access(kind)),
            "Access({kind:?}) must not trigger a rerender"
        );
    }
}

#[test]
fn modify_data_rerenders() {
    let e = event(EventKind::Modify(ModifyKind::Data(DataChange::Any)), WATCHED);
    assert!(should_rerender(&e, WATCHED));
}

#[test]
fn modify_name_rerenders() {
    let e = event(EventKind::Modify(ModifyKind::Name(RenameMode::To)), WATCHED);
    assert!(should_rerender(&e, WATCHED));
}

#[test]
fn create_rerenders() {
    let e = event(EventKind::Create(CreateKind::File), WATCHED);
    assert!(should_rerender(&e, WATCHED));
}

#[test]
fn remove_rerenders() {
    let e = event(EventKind::Remove(RemoveKind::File), WATCHED);
    assert!(should_rerender(&e, WATCHED));
}

#[test]
fn modify_metadata_does_not_rerender() {
    for kind in [
        MetadataKind::Any,
        MetadataKind::AccessTime,
        MetadataKind::WriteTime,
        MetadataKind::Permissions,
        MetadataKind::Ownership,
    ] {
        assert!(
            !is_change_kind(&EventKind::Modify(ModifyKind::Metadata(kind))),
            "Modify(Metadata({kind:?})) must not trigger a rerender"
        );
    }
}

#[test]
fn ambiguous_event_kinds_do_not_rerender() {
    assert!(!is_change_kind(&EventKind::Any));
    assert!(!is_change_kind(&EventKind::Other));
}

#[test]
fn sibling_with_matching_prefix_does_not_rerender() {
    let e = event(
        EventKind::Modify(ModifyKind::Data(DataChange::Any)),
        "/tmp/mip-watch-test/doc.md.bak",
    );
    assert!(!should_rerender(&e, WATCHED));
}

#[test]
fn same_filename_in_subdirectory_does_not_rerender() {
    let e = event(
        EventKind::Modify(ModifyKind::Data(DataChange::Any)),
        "/tmp/mip-watch-test/notes/doc.md",
    );
    assert!(!should_rerender(&e, WATCHED));
}

#[test]
fn unrelated_path_does_not_rerender() {
    let e = event(
        EventKind::Modify(ModifyKind::Data(DataChange::Any)),
        "/tmp/mip-watch-test/other.md",
    );
    assert!(!should_rerender(&e, WATCHED));
}

#[test]
fn multi_path_event_matches_on_any_path() {
    let e = FsEvent::new(EventKind::Modify(ModifyKind::Name(RenameMode::Both)))
        .add_path("/tmp/mip-watch-test/tmpfile")
        .add_path(WATCHED);
    assert!(should_rerender(&e, WATCHED));
}

#[test]
fn same_path_written_differently_still_rerenders() {
    let e = event(EventKind::Modify(ModifyKind::Any), "/tmp//mip-watch-test/./doc.md");
    assert!(should_rerender(&e, WATCHED));
    assert!(!should_rerender(&FsEvent::new(EventKind::Create(CreateKind::Any)), WATCHED));
}

#[test]
fn wanted_dirs_are_the_parents_once() {
    assert_eq!(wanted_dirs("/a/doc.md", None), vec!["/a"]);
    assert_eq!(wanted_dirs("/a/doc.md", Some("/a/style.css")), vec!["/a"]);
    assert_eq!(wanted_dirs("/a/doc.md", Some("/b/style.css")), vec!["/a", "/b"]);
    assert_eq!(wanted_dirs("/", Some("/b/s.css")), vec!["/b"]);
}

#[test]
fn resync_plan_stops_and_starts_the_differences() {
    let watched = vec!["/a".to_string(), "/b".to_string()];
    let wanted = vec!["/b".to_string(), "/c".to_string()];
    let (unwatch, watch) = resync_plan(&watched, &wanted);
    assert_eq!(unwatch, vec!["/a"]);
    assert_eq!(watch, vec!["/c"]);
    let (u, w) = resync_plan(&wanted, &wanted);
    assert!(u.is_empty() && w.is_empty());
}

#[test]
fn canonical_parts_split_parent_and_name() {
    let (d, n) = canonical_parts("./doc.md").unwrap();
    assert_eq!((d.as_str(), n.as_str()), (".", "doc.md"));
    assert!(canonical_parts("doc.md").is_none());
    let (d, n) = canonical_parts("/tmp/x/not-created-yet.md").unwrap();
    assert_eq!((d.as_str(), n.as_str()), ("/tmp/x", "not-created-yet.md"));
}

// ---------------------------------------------------------------- debounce

#[test]
fn a_burst_of_writes_coalesces_into_one_render() {
    let mut d = Debounce::new();
    let mut renders = 0;
    let mut now = 1_000u64;
    for _ in 0..10 {
        d.on_change(WatchMessage::Document, now);
        renders += d.flush(now + 1).len();
        now += 10_000_000; // 10ms apart
    }
    renders += d.flush(now + DEBOUNCE_NS).len();
    assert_eq!(renders, 1);
}

#[test]
fn a_rerender_does_not_cascade() {
    let mut d = Debounce::new();
    d.on_change(WatchMessage::Document, 0);
    assert_eq!(d.flush(DEBOUNCE_NS), vec![WatchMessage::Document]);
    assert!(d.flush(DEBOUNCE_NS * 20).is_empty());
    assert_eq!(d.wait(DEBOUNCE_NS * 20), TICK_NS);
}

#[test]
fn writes_outside_the_debounce_window_render_separately() {
    let mut d = Debounce::new();
    d.on_change(WatchMessage::Document, 0);
    assert_eq!(d.flush(DEBOUNCE_NS + 1).len(), 1);
    d.on_change(WatchMessage::Document, 3 * DEBOUNCE_NS);
    assert_eq!(d.flush(4 * DEBOUNCE_NS).len(), 1);
}

#[test]
fn document_and_stylesheet_debounce_independently() {
    let mut d = Debounce::new();
    d.on_change(WatchMessage::Style, 0);
    d.on_change(WatchMessage::Document, DEBOUNCE_NS / 2);
    assert_eq!(d.wait(DEBOUNCE_NS / 2), DEBOUNCE_NS / 2);
    assert_eq!(d.flush(DEBOUNCE_NS), vec![WatchMessage::Style]);
    assert_eq!(d.flush(DEBOUNCE_NS + DEBOUNCE_NS / 2), vec![WatchMessage::Document]);
}

#[test]
fn both_targets_due_come_document_first() {
    let mut d = Debounce::new();
    d.on_change(WatchMessage::Style, 5);
    d.on_change(WatchMessage::Document, 7);
    assert_eq!(d.wait(3), DEBOUNCE_NS - 0);
    assert_eq!(d.flush(7 + DEBOUNCE_NS), vec![WatchMessage::Document, WatchMessage::Style]);
    assert_eq!(d.wait(7 + DEBOUNCE_NS), TICK_NS);
}

// ---------------------------------------------------------------- the loop's decisions, event by event

fn run_events(events: &[(FsEvent, u64)], doc: &str, style: Option<&str>, end: u64) -> Vec<WatchMessage> {
    let mut d = Debounce::new();
    let mut out = Vec::new();
    for (e, at) in events {
        if let Some(target) = mip::watch::event_target(e, doc, style) {
            d.on_change(target, *at);
        }
        out.extend(d.flush(*at));
    }
    out.extend(d.flush(end));
    out
}

#[test]
fn reading_the_watched_file_never_triggers_a_rerender() {
    let reads: Vec<(FsEvent, u64)> = (0..20)
        .map(|i| (event(EventKind::Access(AccessKind::Open(AccessMode::Read)), WATCHED), i * DEBOUNCE_NS))
        .collect();
    assert!(run_events(&reads, WATCHED, None, 100 * DEBOUNCE_NS).is_empty());
}

#[test]
fn writing_the_watched_file_triggers_exactly_one_rerender() {
    let write = vec![
        (event(EventKind::Modify(ModifyKind::Data(DataChange::Content)), WATCHED), 0),
        (event(EventKind::Modify(ModifyKind::Data(DataChange::Content)), WATCHED), 1_000),
        (event(EventKind::Access(AccessKind::Close(AccessMode::Write)), WATCHED), 2_000),
    ];
    assert_eq!(run_events(&write, WATCHED, None, 10 * DEBOUNCE_NS), vec![WatchMessage::Document]);
}

#[test]
fn a_sibling_file_does_not_trigger_a_rerender() {
    let writes = vec![
        (event(EventKind::Modify(ModifyKind::Any), "/tmp/mip-watch-test/doc.md.bak"), 0),
        (event(EventKind::Create(CreateKind::File), "/tmp/mip-watch-test/other.md"), 5),
    ];
    assert!(run_events(&writes, WATCHED, None, 10 * DEBOUNCE_NS).is_empty());
}

#[test]
fn a_stylesheet_change_is_reported_separately() {
    let style = "/tmp/mip-watch-test/style.css";
    let writes = vec![(event(EventKind::Modify(ModifyKind::Any), style), 0)];
    assert_eq!(run_events(&writes, WATCHED, Some(style), 10 * DEBOUNCE_NS), vec![WatchMessage::Style]);
}

#[test]
fn opening_another_document_moves_the_watch() {
    let other = "/tmp/mip-watch-other/b.md";
    let old_write = vec![(event(EventKind::Modify(ModifyKind::Any), WATCHED), 0)];
    assert!(run_events(&old_write, other, None, 10 * DEBOUNCE_NS).is_empty());
    let new_write = vec![(event(EventKind::Modify(ModifyKind::Any), other), 0)];
    assert_eq!(run_events(&new_write, other, None, 10 * DEBOUNCE_NS), vec![WatchMessage::Document]);
    let before = wanted_dirs(WATCHED, None);
    let after = wanted_dirs(other, None);
    let (unwatch, watch) = resync_plan(&before, &after);
    assert_eq!(unwatch, vec!["/tmp/mip-watch-test"]);
    assert_eq!(watch, vec!["/tmp/mip-watch-other"]);
}

#[test]
fn setting_a_style_starts_watching_it() {
    let style = "/tmp/mip-watch-test/style.css";
    let write = vec![(event(EventKind::Modify(ModifyKind::Any), style), 0)];
    assert!(run_events(&write, WATCHED, None, 10 * DEBOUNCE_NS).is_empty());
    assert_eq!(run_events(&write, WATCHED, Some(style), 10 * DEBOUNCE_NS), vec![WatchMessage::Style]);
}

#[test]
fn a_burst_of_wakes_renders_the_document_once() {
    let ms = 1_000_000u64;
    let mut d = Debounce::new();
    assert!(d.wake(Some(WatchMessage::Document), 0).is_empty());
    assert!(d.wake(Some(WatchMessage::Document), 50 * ms).is_empty());
    assert!(d.wake(None, 120 * ms).is_empty());
    assert_eq!(d.wake(None, 150 * ms), vec![WatchMessage::Document]);
    assert!(d.wake(None, 400 * ms).is_empty());
    assert_eq!(d.wake(Some(WatchMessage::Style), 500 * ms), Vec::<WatchMessage>::new());
    assert_eq!(d.wake(None, 600 * ms), vec![WatchMessage::Style]);
}

#[test]
fn wakes_without_a_change_render_nothing() {
    let ms = 1_000_000u64;
    let mut d = Debounce::new();
    for t in [0u64, 150, 300, 1000] {
        assert!(d.wake(None, t * ms).is_empty());
    }
}

#[test]
fn style_changes_do_not_move_the_document_render() {
    let ms = 1_000_000u64;
    let mut with_style = Debounce::new();
    let mut without = Debounce::new();
    let wakes = [
        (Some(WatchMessage::Document), 0u64),
        (Some(WatchMessage::Style), 60),
        (Some(WatchMessage::Style), 90),
        (None, 100),
        (None, 200),
    ];
    for (target, t) in wakes {
        let a = with_style.wake(target.clone(), t * ms);
        let only_doc = if target == Some(WatchMessage::Document) { target } else { None };
        let b = without.wake(only_doc, t * ms);
        assert_eq!(
            a.contains(&WatchMessage::Document),
            b.contains(&WatchMessage::Document),
            "at {} ms",
            t
        );
    }
}
