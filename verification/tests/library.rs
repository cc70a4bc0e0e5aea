use commonplace::fsdriver::{dir_attr, file_attr, getattr, lookup, read, readdir, FileKind};
use commonplace::handles::{Entry, InodeMap, Type, ROOT_INODE};
use commonplace::hexcode::{bytes_to_hex, hash_from_str, hex_to_bytes};
use commonplace::resolve::{
    get_all_notes, get_by_full_name, get_by_uuid, get_tag_by_full_name, get_tag_name,
    get_tags_for_note, parse_taglist, NotesIndex,
};
use commonplace::store::ContentStore;
use commonplace::tree::get_tag_tree;
use commonplace::types::{CommonplaceError, Note, NoteId, NoteOrTag, TagId, TagRow, TagTree};

fn tag_row(id: u128, name: &str, parent: Option<u128>) -> TagRow {
    TagRow {
        id: TagId { uuid: id },
        name: String::from(name),
        parent: parent.map(|p| TagId { uuid: p }),
    }
}

fn note(id: u128, name: &str, hash: Vec<u8>) -> Note {
    Note {
        id: NoteId { uuid: id },
        hash,
        name: String::from(name),
        mimetype: String::from("application/octet-stream"),
    }
}

fn find_root<'a>(forest: &'a [TagTree], name: &str) -> Option<&'a TagTree> {
    forest.iter().find(|t| t.name == name)
}

#[test]
fn hex_encodes_lowercase() {
    let bytes = vec![0x00u8, 0xab, 0x5f];
    let hex = bytes_to_hex(&bytes);
    assert_eq!(hex, b"00ab5f".to_vec());
}

#[test]
fn hex_decode_round_trip() {
    let bytes = vec![0xdeu8, 0xad, 0xbe, 0xef];
    let hex = bytes_to_hex(&bytes);
    let back = hex_to_bytes(&hex).unwrap();
    assert_eq!(back, bytes);
}

#[test]
fn hex_decode_rejects_odd_and_junk() {
    assert!(hex_to_bytes(b"abc").is_none());
    assert!(hex_to_bytes(b"zz").is_none());
    assert_eq!(hex_to_bytes(b"AB"), Some(vec![0xabu8]));
}

#[test]
fn hash_from_str_accepts_exact_digest() {
    let digest = "a".repeat(64);
    let parsed = hash_from_str(&digest).unwrap();
    assert_eq!(parsed.len(), 32);
    assert!(parsed.iter().all(|b| *b == 0xaa));
}

#[test]
fn digest_text_boundary_agrees_both_ways() {
    // Encoding a digest and parsing the text back restores it exactly.
    let digest: Vec<u8> = (0u8..32).collect();
    let hex = bytes_to_hex(&digest);
    let text = String::from_utf8(hex).unwrap();
    assert_eq!(hash_from_str(&text).unwrap(), digest);
}

#[test]
fn hash_from_str_rejects_malformed() {
    assert_eq!(hash_from_str("abc"), Err(CommonplaceError::Malformed));
    let not_hex = "g".repeat(64);
    assert_eq!(hash_from_str(&not_hex), Err(CommonplaceError::Malformed));
    let too_long = "a".repeat(66);
    assert_eq!(hash_from_str(&too_long), Err(CommonplaceError::Malformed));
}

#[test]
fn taglist_splits_on_double_colon() {
    let parts = parse_taglist("work::project-a");
    assert_eq!(parts, vec![String::from("work"), String::from("project-a")]);
}

#[test]
fn taglist_single_segment() {
    assert_eq!(parse_taglist("work"), vec![String::from("work")]);
}

#[test]
fn taglist_edge_shapes() {
    assert_eq!(
        parse_taglist("a:::b"),
        vec![String::from("a"), String::from(":b")]
    );
    assert_eq!(parse_taglist("::x"), vec![String::from(""), String::from("x")]);
    assert_eq!(parse_taglist(""), vec![String::from("")]);
}

#[test]
fn store_put_get_round_trip() {
    let mut store = ContentStore::new();
    let digest = store.put(b"hello".to_vec());
    assert_eq!(digest.len(), 32);
    // The digest is the blake3 digest of the content.
    assert_eq!(digest.as_slice(), blake3::hash(b"hello").as_bytes());
    let back = store.get(&digest).unwrap();
    assert_eq!(back.as_slice(), b"hello");
    assert_eq!(store.size(&digest).unwrap(), 5);
}

#[test]
fn store_put_is_idempotent() {
    let mut store = ContentStore::new();
    let d1 = store.put(b"same bytes".to_vec());
    assert_eq!(store.entry_count(), 1);
    let d2 = store.put(b"same bytes".to_vec());
    assert_eq!(d1, d2);
    assert_eq!(store.entry_count(), 1);
}

#[test]
fn store_deduplicates_identical_notes() {
    // Two notes with identical byte content: one stored blob only.
    let mut store = ContentStore::new();
    let before = store.entry_count();
    let d1 = store.put(b"shared content".to_vec());
    let first = store.entry_count();
    let d2 = store.put(b"shared content".to_vec());
    let after = store.entry_count();
    assert_eq!(before, 0);
    assert_eq!(first, 1);
    assert_eq!(after, 1);
    assert_eq!(d1, d2);
}

#[test]
fn store_get_unknown_is_not_found() {
    let store = ContentStore::new();
    let missing = vec![0u8; 32];
    assert!(matches!(store.get(&missing), Err(CommonplaceError::NotFound)));
    assert!(matches!(store.size(&missing), Err(CommonplaceError::NotFound)));
}

#[test]
fn tree_builder_places_every_tag_under_its_parent() {
    let rows = vec![
        tag_row(1, "work", None),
        tag_row(2, "project-a", Some(1)),
        tag_row(3, "personal", None),
    ];
    let assoc = vec![(TagId { uuid: 2 }, NoteId { uuid: 10 })];
    let forest = get_tag_tree(rows, &assoc);
    assert_eq!(forest.len(), 2);
    let work = find_root(&forest, "work").unwrap();
    assert_eq!(work.children.len(), 1);
    assert_eq!(work.children[0].name, "project-a");
    assert_eq!(work.children[0].notes, vec![NoteId { uuid: 10 }]);
    assert!(work.notes.is_empty());
    let personal = find_root(&forest, "personal").unwrap();
    assert!(personal.children.is_empty());
}

#[test]
fn tree_builder_keeps_sibling_order_unspecified_but_complete() {
    let rows = vec![
        tag_row(1, "a", None),
        tag_row(2, "b", None),
        tag_row(3, "c", Some(2)),
    ];
    let forest = get_tag_tree(rows, &Vec::new());
    assert_eq!(forest.len(), 2);
    assert!(find_root(&forest, "a").is_some());
    let b = find_root(&forest, "b").unwrap();
    assert_eq!(b.children.len(), 1);
    assert_eq!(b.children[0].name, "c");
}

#[test]
fn tags_of_note_round_trips_with_associations() {
    let rows = vec![
        tag_row(1, "work", None),
        tag_row(2, "project-a", Some(1)),
        tag_row(3, "personal", None),
    ];
    let assoc = vec![
        (TagId { uuid: 1 }, NoteId { uuid: 10 }),
        (TagId { uuid: 2 }, NoteId { uuid: 10 }),
        (TagId { uuid: 3 }, NoteId { uuid: 11 }),
    ];
    let forest = get_tag_tree(rows, &assoc);
    let mut tags = get_tags_for_note(&forest, &NoteId { uuid: 10 });
    tags.sort_by_key(|t| t.uuid);
    assert_eq!(tags, vec![TagId { uuid: 1 }, TagId { uuid: 2 }]);
    assert_eq!(
        get_tags_for_note(&forest, &NoteId { uuid: 11 }),
        vec![TagId { uuid: 3 }]
    );
    assert!(get_tags_for_note(&forest, &NoteId { uuid: 12 }).is_empty());
}

#[test]
fn notes_index_last_record_wins() {
    let idx = get_all_notes(vec![
        note(10, "first", vec![1u8; 32]),
        note(10, "second", vec![2u8; 32]),
    ]);
    let n = idx.get(10).unwrap();
    assert_eq!(n.name, "second");
    assert!(idx.get(11).is_none());
}

#[test]
fn get_by_uuid_finds_notes_and_tags() {
    let rows = vec![tag_row(1, "work", None)];
    let forest = get_tag_tree(rows, &Vec::new());
    let idx = get_all_notes(vec![note(10, "draft.md", vec![0u8; 32])]);
    match get_by_uuid(&forest, &idx, 10) {
        Some(NoteOrTag::Note(n)) => assert_eq!(n.name, "draft.md"),
        _ => panic!("expected the note"),
    }
    match get_by_uuid(&forest, &idx, 1) {
        Some(NoteOrTag::Tag(t)) => assert_eq!(t.name, "work"),
        _ => panic!("expected the tag"),
    }
    assert!(get_by_uuid(&forest, &idx, 99).is_none());
}

#[test]
fn tag_paths_resolve_both_ways() {
    let rows = vec![tag_row(1, "work", None), tag_row(2, "project-a", Some(1))];
    let forest = get_tag_tree(rows, &Vec::new());
    let path = get_tag_name(&forest, &TagId { uuid: 2 }).unwrap();
    assert_eq!(path, vec![String::from("work"), String::from("project-a")]);
    let id = get_tag_by_full_name(&forest, &parse_taglist("work::project-a"));
    assert_eq!(id, Some(TagId { uuid: 2 }));
    assert_eq!(get_tag_by_full_name(&forest, &parse_taglist("work::missing")), None);
    assert_eq!(get_tag_name(&forest, &TagId { uuid: 9 }), None);
}

#[test]
fn full_name_resolution_prefers_notes_over_tags() {
    // Under "work" there are both a child tag named "x" and a note named
    // "x": the note wins at the final segment.
    let rows = vec![tag_row(1, "work", None), tag_row(2, "x", Some(1))];
    let assoc = vec![(TagId { uuid: 1 }, NoteId { uuid: 10 })];
    let forest = get_tag_tree(rows, &assoc);
    let idx = get_all_notes(vec![note(10, "x", vec![0u8; 32])]);
    match get_by_full_name(&forest, &idx, &parse_taglist("work::x")) {
        Some(NoteOrTag::Note(n)) => assert_eq!(n.id, NoteId { uuid: 10 }),
        _ => panic!("expected the note to win"),
    }
    // A single segment can only name a tag.
    match get_by_full_name(&forest, &idx, &parse_taglist("work")) {
        Some(NoteOrTag::Tag(t)) => assert_eq!(t.id, TagId { uuid: 1 }),
        _ => panic!("expected the tag"),
    }
    assert!(get_by_full_name(&forest, &idx, &parse_taglist("nowhere")).is_none());
}

#[test]
fn handles_are_stable_within_a_session() {
    let mut map = InodeMap::new();
    let e1 = Entry { type_: Type::TAG, uuid: 1 };
    let e2 = Entry { type_: Type::NOTE, uuid: 1 };
    let h1 = map.get_inode(e1);
    let h2 = map.get_inode(e2);
    // The counter starts just above the reserved root handle and hands
    // out consecutive integers.
    assert_eq!(h1, ROOT_INODE + 1);
    assert_eq!(h2, ROOT_INODE + 2);
    // Same identity again: the same handle comes back.
    assert_eq!(map.get_inode(e1), h1);
    assert_eq!(map.get_inode(e2), h2);
    // Different identities never share a handle.
    assert_ne!(h1, h2);
    assert!(h1 > ROOT_INODE);
    assert!(h2 > ROOT_INODE);
    assert_eq!(map.get_entry(h1), Some(e1));
    assert_eq!(map.get_entry(h2), Some(e2));
    assert_eq!(map.get_entry(9999), None);
}

#[test]
fn attribute_records_carry_fixed_metadata() {
    let f = file_attr(7, 5);
    assert_eq!(f.ino, 7);
    assert_eq!(f.size, 5);
    assert_eq!(f.blocks, 1);
    assert_eq!(f.kind, FileKind::RegularFile);
    assert_eq!(f.perm, 0o644);
    assert_eq!(f.nlink, 1);
    let d = dir_attr(1);
    assert_eq!(d.size, 0);
    assert_eq!(d.kind, FileKind::Directory);
    assert_eq!(d.perm, 0o755);
    assert_eq!(d.nlink, 2);
}

struct Fixture {
    forest: Vec<TagTree>,
    idx: NotesIndex,
    untagged: Vec<NoteId>,
    store: ContentStore,
    map: InodeMap,
}

/// Tag path work::project-a; note "draft.md" with content "hello" tagged
/// under project-a; one untagged note "loose.txt".
fn fixture() -> Fixture {
    let mut store = ContentStore::new();
    let draft_digest = store.put(b"hello".to_vec());
    let loose_digest = store.put(b"loose".to_vec());
    let rows = vec![tag_row(1, "work", None), tag_row(2, "project-a", Some(1))];
    let assoc = vec![(TagId { uuid: 2 }, NoteId { uuid: 10 })];
    let forest = get_tag_tree(rows, &assoc);
    let idx = get_all_notes(vec![
        note(10, "draft.md", draft_digest),
        note(11, "loose.txt", loose_digest),
    ]);
    let untagged = vec![NoteId { uuid: 11 }];
    Fixture { forest, idx, untagged, store, map: InodeMap::new() }
}

#[test]
fn scenario_tagged_note_is_reachable_and_readable() {
    let mut fx = fixture();
    // The root listing includes the directory "work".
    let root = readdir(&fx.forest, &fx.idx, &fx.untagged, &mut fx.map, ROOT_INODE, 0).unwrap();
    let work = root
        .iter()
        .find(|e| e.name == "work")
        .expect("work under the root");
    assert_eq!(work.kind, FileKind::Directory);
    // Under "work" there is the directory "project-a".
    let (work_ino, work_attr) = lookup(
        &fx.forest, &fx.idx, &fx.untagged, &fx.store, &mut fx.map, ROOT_INODE,
        &String::from("work"),
    )
    .unwrap();
    assert_eq!(work_attr.kind, FileKind::Directory);
    let under_work = readdir(&fx.forest, &fx.idx, &fx.untagged, &mut fx.map, work_ino, 0).unwrap();
    assert!(under_work.iter().any(|e| e.name == "project-a" && e.kind == FileKind::Directory));
    // Under "project-a" there is the file "draft.md", sized 5.
    let (proj_ino, _) = lookup(
        &fx.forest, &fx.idx, &fx.untagged, &fx.store, &mut fx.map, work_ino,
        &String::from("project-a"),
    )
    .unwrap();
    let under_proj = readdir(&fx.forest, &fx.idx, &fx.untagged, &mut fx.map, proj_ino, 0).unwrap();
    assert!(under_proj.iter().any(|e| e.name == "draft.md" && e.kind == FileKind::RegularFile));
    let (draft_ino, draft_attr) = lookup(
        &fx.forest, &fx.idx, &fx.untagged, &fx.store, &mut fx.map, proj_ino,
        &String::from("draft.md"),
    )
    .unwrap();
    assert_eq!(draft_attr.kind, FileKind::RegularFile);
    assert_eq!(draft_attr.size, 5);
    // Reading it returns the content; past the end is empty, not an error.
    let data = read(&fx.idx, &fx.store, &fx.map, draft_ino, 0, 5).unwrap();
    assert_eq!(data, b"hello".to_vec());
    let tail = read(&fx.idx, &fx.store, &fx.map, draft_ino, 5, 10).unwrap();
    assert!(tail.is_empty());
    let past = read(&fx.idx, &fx.store, &fx.map, draft_ino, 100, 10).unwrap();
    assert!(past.is_empty());
    // A partial read clips to the end of the content.
    let mid = read(&fx.idx, &fx.store, &fx.map, draft_ino, 1, 3).unwrap();
    assert_eq!(mid, b"ell".to_vec());
}

#[test]
fn scenario_untagged_note_listed_at_root_only() {
    let mut fx = fixture();
    let root = readdir(&fx.forest, &fx.idx, &fx.untagged, &mut fx.map, ROOT_INODE, 0).unwrap();
    // The untagged note stands directly beside the top-level tags.
    assert!(root.iter().any(|e| e.name == "work" && e.kind == FileKind::Directory));
    assert!(root.iter().any(|e| e.name == "loose.txt" && e.kind == FileKind::RegularFile));
    // It does not appear under any tag's listing.
    let (work_ino, _) = lookup(
        &fx.forest, &fx.idx, &fx.untagged, &fx.store, &mut fx.map, ROOT_INODE,
        &String::from("work"),
    )
    .unwrap();
    let under_work = readdir(&fx.forest, &fx.idx, &fx.untagged, &mut fx.map, work_ino, 0).unwrap();
    assert!(under_work.iter().all(|e| e.name != "loose.txt"));
    let (proj_ino, _) = lookup(
        &fx.forest, &fx.idx, &fx.untagged, &fx.store, &mut fx.map, work_ino,
        &String::from("project-a"),
    )
    .unwrap();
    let under_proj = readdir(&fx.forest, &fx.idx, &fx.untagged, &mut fx.map, proj_ino, 0).unwrap();
    assert!(under_proj.iter().all(|e| e.name != "loose.txt"));
}

#[test]
fn readdir_cursor_resumes_and_ends_cleanly() {
    let mut fx = fixture();
    let all = readdir(&fx.forest, &fx.idx, &fx.untagged, &mut fx.map, ROOT_INODE, 0).unwrap();
    assert_eq!(all.len(), 2);
    let rest = readdir(&fx.forest, &fx.idx, &fx.untagged, &mut fx.map, ROOT_INODE, 1).unwrap();
    assert_eq!(rest.len(), 1);
    assert_eq!(rest[0].name, all[1].name);
    assert_eq!(rest[0].ino, all[1].ino);
    let none = readdir(&fx.forest, &fx.idx, &fx.untagged, &mut fx.map, ROOT_INODE, 5).unwrap();
    assert!(none.is_empty());
}

#[test]
fn lookup_and_readdir_report_missing_names() {
    let mut fx = fixture();
    let missing = lookup(
        &fx.forest, &fx.idx, &fx.untagged, &fx.store, &mut fx.map, ROOT_INODE,
        &String::from("no-such-name"),
    );
    assert_eq!(missing, Err(CommonplaceError::NotFound));
    let bad_handle = readdir(&fx.forest, &fx.idx, &fx.untagged, &mut fx.map, 777, 0);
    assert!(matches!(bad_handle, Err(CommonplaceError::NotFound)));
}

#[test]
fn getattr_covers_root_tags_notes_and_unknowns() {
    let mut fx = fixture();
    let root_attr = getattr(&fx.idx, &fx.store, &fx.map, ROOT_INODE).unwrap();
    assert_eq!(root_attr.kind, FileKind::Directory);
    let (work_ino, _) = lookup(
        &fx.forest, &fx.idx, &fx.untagged, &fx.store, &mut fx.map, ROOT_INODE,
        &String::from("work"),
    )
    .unwrap();
    let work_attr = getattr(&fx.idx, &fx.store, &fx.map, work_ino).unwrap();
    assert_eq!(work_attr.kind, FileKind::Directory);
    let (loose_ino, _) = lookup(
        &fx.forest, &fx.idx, &fx.untagged, &fx.store, &mut fx.map, ROOT_INODE,
        &String::from("loose.txt"),
    )
    .unwrap();
    let loose_attr = getattr(&fx.idx, &fx.store, &fx.map, loose_ino).unwrap();
    assert_eq!(loose_attr.kind, FileKind::RegularFile);
    assert_eq!(loose_attr.size, 5);
    assert!(matches!(
        getattr(&fx.idx, &fx.store, &fx.map, 424242),
        Err(CommonplaceError::NotFound)
    ));
}

#[test]
fn missing_content_is_not_found_not_size_zero() {
    // A note whose digest was never stored: attribute and name lookup
    // surface NotFound rather than a zero-sized file.
    let store = ContentStore::new();
    let rows = vec![tag_row(1, "work", None)];
    let forest = get_tag_tree(rows, &Vec::new());
    let idx = get_all_notes(vec![note(10, "ghost.md", vec![9u8; 32])]);
    let untagged = vec![NoteId { uuid: 10 }];
    let mut map = InodeMap::new();
    let looked = lookup(
        &forest, &idx, &untagged, &store, &mut map, ROOT_INODE, &String::from("ghost.md"),
    );
    assert_eq!(looked, Err(CommonplaceError::NotFound));
    let ghost_ino = map.get_inode(Entry { type_: Type::NOTE, uuid: 10 });
    assert!(matches!(
        getattr(&idx, &store, &map, ghost_ino),
        Err(CommonplaceError::NotFound)
    ));
    assert!(matches!(
        read(&idx, &store, &map, ghost_ino, 0, 4),
        Err(CommonplaceError::NotFound)
    ));
}

#[test]
fn read_through_unknown_handle_is_not_found() {
    let fx = fixture();
    assert!(matches!(
        read(&fx.idx, &fx.store, &fx.map, 12345, 0, 4),
        Err(CommonplaceError::NotFound)
    ));
}
