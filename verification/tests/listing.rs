use gausify_server::listing::{
    dates_formattable_check, directory_listing, listing_entry, sort_by_name, DirEntry, EntryKind,
    ModTime, RawEntry, RawMeta,
};

fn file(name: &str, len: u64, secs: Option<u64>) -> RawEntry {
    RawEntry { name: name.to_string(), meta: Some(RawMeta { is_dir: false, modified: secs.map(ModTime::SinceEpoch), len }) }
}

fn dir(name: &str, secs: u64) -> RawEntry {
    RawEntry { name: name.to_string(), meta: Some(RawMeta { is_dir: true, modified: Some(ModTime::SinceEpoch(secs)), len: 4096 }) }
}

fn names(v: &[DirEntry]) -> Vec<&str> {
    v.iter().map(|e| e.name.as_str()).collect()
}

#[test]
fn listing_hides_dotfiles_and_sorts_by_name() {
    let raw = vec![
        file("thumb.webp", 10, Some(0)),
        dir(".gausify", 0),
        file("scene.json", 812, Some(784111777)),
        dir("frames", 1475419451),
        file(".hidden", 1, None),
    ];
    let out = directory_listing(raw);
    assert_eq!(names(&out), vec!["frames", "scene.json", "thumb.webp"]);
    assert_eq!(out[0].kind, EntryKind::Directory);
    assert_eq!(out[0].size, 0);
    assert_eq!(out[0].mtime, "Sun, 02 Oct 2016 14:44:11 GMT");
    assert_eq!(out[1].kind, EntryKind::File);
    assert_eq!(out[1].size, 812);
    assert_eq!(out[1].mtime, "Sun, 06 Nov 1994 08:49:37 GMT");
    assert_eq!(out[2].mtime, "Thu, 01 Jan 1970 00:00:00 GMT");
}

#[test]
fn unknown_times_are_empty_and_unreadable_children_are_skipped() {
    let raw = vec![file("b", 3, None), RawEntry { name: "a".to_string(), meta: None }];
    let out = directory_listing(raw);
    assert_eq!(names(&out), vec!["b"]);
    assert_eq!(out[0].mtime, "");
}

#[test]
fn names_sort_bytewise() {
    let raw = vec![file("b", 0, None), file("B", 0, None), file("é", 0, None), file("a10", 0, None), file("a2", 0, None), file("a", 0, None)];
    let out = directory_listing(raw);
    assert_eq!(names(&out), vec!["B", "a", "a10", "a2", "b", "é"]);
}

#[test]
fn sorting_is_stable_for_equal_names() {
    let entries = vec![
        listing_entry("x".to_string(), RawMeta { is_dir: false, modified: None, len: 1 }, String::new()),
        listing_entry("w".to_string(), RawMeta { is_dir: false, modified: None, len: 2 }, String::new()),
        listing_entry("x".to_string(), RawMeta { is_dir: false, modified: None, len: 3 }, String::new()),
    ];
    let out = sort_by_name(entries);
    assert_eq!(out.iter().map(|e| e.size).collect::<Vec<_>>(), vec![2, 1, 3]);
}

#[test]
fn entry_kinds_spell_as_nginx_does() {
    assert_eq!(EntryKind::Directory.as_str(), "directory");
    assert_eq!(EntryKind::File.as_str(), "file");
}

#[test]
fn listing_entry_keeps_given_date_text() {
    let e = listing_entry("d".to_string(), RawMeta { is_dir: true, modified: Some(ModTime::SinceEpoch(5)), len: 99 }, "when".to_string());
    assert_eq!((e.name.as_str(), e.kind, e.mtime.as_str(), e.size), ("d", EntryKind::Directory, "when", 0));
}

#[test]
fn dates_before_the_epoch_or_after_year_9999_are_flagged_for_listed_children_only() {
    let before = RawEntry { name: "f".to_string(), meta: Some(RawMeta { is_dir: false, modified: Some(ModTime::BeforeEpoch), len: 0 }) };
    assert!(!dates_formattable_check(&vec![before]));
    assert!(!dates_formattable_check(&vec![file("f", 0, Some(253402300800))]));
    assert!(dates_formattable_check(&vec![file("f", 0, Some(253402300799))]));
    let hidden = RawEntry { name: ".f".to_string(), meta: Some(RawMeta { is_dir: false, modified: Some(ModTime::BeforeEpoch), len: 0 }) };
    assert!(dates_formattable_check(&vec![hidden]));
}

#[test]
fn every_readable_non_dot_child_is_listed() {
    let raw = vec![
        file("z.json", 3, Some(0)),
        RawEntry { name: "unreadable".to_string(), meta: None },
        dir("a", 60),
        file(".secret", 1, None),
        file("m.sog", 9, None),
    ];
    let out = directory_listing(raw);
    for n in ["z.json", "a", "m.sog"] {
        assert!(out.iter().any(|e| e.name == n), "{n} missing");
    }
    assert_eq!(out.len(), 3);
}
