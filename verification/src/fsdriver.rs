//! The filesystem protocol driver: lookup, attributes, read and directory
//! listing over a snapshot of the index, answered through the
//! identity-to-handle map and the content store.  Each operation is a pure
//! function of the snapshot and the requested identity, so the snapshot is
//! re-derived by the caller before every call.

use vstd::prelude::*;
use crate::handles::{Entry, InodeMap, Type, ROOT_INODE};
use crate::resolve::{spec_find_note, spec_find_tag, spec_node_of, NotesIndex};
use crate::store::ContentStore;
use crate::tree::{forest_notes_ok, notes_for};
use crate::types::{CommonplaceError, Note, NoteId, NoteOrTag, TagId, TagTree};

verus! {

/// The block size reported for regular files.
pub const BLOCK_SIZE: u64 = 512;

/// Whether a handle stands for a directory or a regular file.
#[derive(Clone, Copy, Debug, PartialEq, Eq, Structural)]
pub enum FileKind {
    Directory,
    RegularFile,
}

/// The attribute record of one filesystem object, in plain fields.
#[derive(Clone, Copy, Debug, PartialEq, Eq, Structural)]
pub struct FileAttr {
    pub ino: u64,
    pub size: u64,
    pub blocks: u64,
    pub kind: FileKind,
    pub perm: u16,
    pub nlink: u32,
    pub blksize: u32,
}

/// One entry of a directory listing.
#[derive(Debug)]
pub struct DirEntry {
    pub ino: u64,
    pub kind: FileKind,
    pub name: String,
}

/// The attribute record of a regular file of this size.
pub open spec fn spec_file_attr(ino: u64, size: u64) -> FileAttr {
    FileAttr {
        ino,
        size,
        blocks: (size / 512 + 1) as u64,
        kind: FileKind::RegularFile,
        perm: 0o644,
        nlink: 1,
        blksize: 512,
    }
}

/// The attribute record of a directory.
pub open spec fn spec_dir_attr(ino: u64) -> FileAttr {
    FileAttr {
        ino,
        size: 0,
        blocks: 0,
        kind: FileKind::Directory,
        perm: 0o755,
        nlink: 2,
        blksize: 512,
    }
}

/// Builds the attribute record of a regular file: one link, read mode
/// bits, sized to its content, blocks rounded up from the block size.
pub fn file_attr(ino: u64, size: u64) -> (attr: FileAttr)
    ensures
        attr == spec_file_attr(ino, size),
{
    FileAttr {
        ino,
        size,
        blocks: size / BLOCK_SIZE + 1,
        kind: FileKind::RegularFile,
        perm: 0o644,
        nlink: 1,
        blksize: 512,
    }
}

/// Builds the attribute record of a directory: fixed metadata, size zero.
pub fn dir_attr(ino: u64) -> (attr: FileAttr)
    ensures
        attr == spec_dir_attr(ino),
{
    FileAttr {
        ino,
        size: 0,
        blocks: 0,
        kind: FileKind::Directory,
        perm: 0o755,
        nlink: 2,
        blksize: 512,
    }
}

/// Whether a note identity leads to stored content: the notes table holds
/// it and the store holds its digest.
pub open spec fn note_resolves(
    notes: Map<u128, Note>,
    store: Map<Seq<u8>, Seq<u8>>,
    uuid: u128,
) -> bool {
    notes.contains_key(uuid) && store.contains_key(notes[uuid].hash@)
}

/// The length of the content stored under a note's digest.
pub open spec fn spec_note_size(
    notes: Map<u128, Note>,
    store: Map<Seq<u8>, Seq<u8>>,
    uuid: u128,
) -> int
    recommends
        note_resolves(notes, store, uuid),
{
    store[notes[uuid].hash@].len() as int
}

/// The directory a handle stands for: its child tags and its directly
/// attached notes.  The root handle stands for the top-level tags and the
/// untagged notes; any other handle must be bound to a tag identity that
/// the forest holds and the notes table does not claim.
pub open spec fn dir_of(
    forest: Seq<TagTree>,
    untagged: Seq<NoteId>,
    notes: Map<u128, Note>,
    entries: Map<u64, Entry>,
    handle: u64,
) -> Option<(Seq<TagTree>, Seq<NoteId>)> {
    if handle == ROOT_INODE {
        Some((forest, untagged))
    } else if entries.contains_key(handle) {
        if notes.contains_key(entries[handle].uuid) {
            None
        } else {
            match spec_node_of(forest, entries[handle].uuid) {
                Some(t) => Some((t.children@, t.notes@)),
                None => None,
            }
        }
    } else {
        None
    }
}


/// Law: a note that no association record pairs with any tag stands in
/// the notes of no tag's directory: only the root handle can list it.
pub proof fn lemma_untagged_only_at_root(
    forest: Seq<TagTree>,
    untagged: Seq<NoteId>,
    assoc: Seq<(TagId, NoteId)>,
    notes: Map<u128, Note>,
    entries: Map<u64, Entry>,
    handle: u64,
    u: NoteId,
)
    requires
        forest_notes_ok(forest, assoc),
        forall|k: int| 0 <= k < assoc.len() ==> (#[trigger] assoc[k]).1 != u,
        handle != ROOT_INODE,
    ensures
        match dir_of(forest, untagged, notes, entries, handle) {
            Some(dir) => !dir.1.contains(u),
            None => true,
        },
{
    if entries.contains_key(handle) && !notes.contains_key(entries[handle].uuid) {
        match spec_node_of(forest, entries[handle].uuid) {
            Some(t) => {
                crate::resolve::lemma_node_of_is_node(forest, entries[handle].uuid);
                crate::resolve::lemma_notes_ok_member(forest, assoc, t);
                if notes_for(assoc, t.id).contains(u) {
                    crate::resolve::lemma_notes_for_contains(assoc, t.id, u);
                    let k = choose|k: int| 0 <= k < assoc.len() && assoc[k] == (t.id, u);
                    assert((#[trigger] assoc[k]).1 == u);
                }
            },
            None => {},
        }
    }
}

/// The size a note's content reports; `NotFound` when the identity or its
/// digest does not lead to stored content.
fn note_size(notes: &NotesIndex, store: &ContentStore, uuid: u128) -> (r: Result<
    u64,
    CommonplaceError,
>)
    requires
        notes.wf(),
        store.wf(),
    ensures
        r is Ok <==> note_resolves(notes@, store@, uuid),
        r matches Ok(size) ==> size == spec_note_size(notes@, store@, uuid),
        r matches Err(e) ==> e == CommonplaceError::NotFound,
{
    match notes.get(uuid) {
        Some(note) => match store.size(&note.hash) {
            Ok(n) => Ok(n as u64),
            Err(e) => Err(e),
        },
        None => Err(CommonplaceError::NotFound),
    }
}

/// Reports the attributes of a handle: the root and every tag handle are
/// directories with fixed metadata; a note handle is a regular file sized
/// to its stored content; a note handle whose identity or digest does not
/// lead to stored content, like an unknown handle, is `NotFound`.
pub fn getattr(
    notes: &NotesIndex,
    store: &ContentStore,
    inode_map: &InodeMap,
    ino: u64,
) -> (r: Result<FileAttr, CommonplaceError>)
    requires
        notes.wf(),
        store.wf(),
        inode_map.wf(),
    ensures
        (ino == ROOT_INODE || (inode_map.entries().contains_key(ino) && inode_map.entries()[ino].type_
            == Type::TAG)) ==> r == Ok::<FileAttr, CommonplaceError>(spec_dir_attr(ino)),
        (ino != ROOT_INODE && inode_map.entries().contains_key(ino) && inode_map.entries()[ino].type_
            == Type::NOTE && note_resolves(notes@, store@, inode_map.entries()[ino].uuid)) ==> r
            == Ok::<FileAttr, CommonplaceError>(
            spec_file_attr(
                ino,
                spec_note_size(notes@, store@, inode_map.entries()[ino].uuid) as u64,
            ),
        ),
        (ino != ROOT_INODE && inode_map.entries().contains_key(ino) && inode_map.entries()[ino].type_
            == Type::NOTE && !note_resolves(notes@, store@, inode_map.entries()[ino].uuid)) ==> r
            == Err::<FileAttr, CommonplaceError>(CommonplaceError::NotFound),
        (ino != ROOT_INODE && !inode_map.entries().contains_key(ino)) ==> r == Err::<
            FileAttr,
            CommonplaceError,
        >(CommonplaceError::NotFound),
{
    let entry = inode_map.get_entry(ino);
    let valid_dir = ino == ROOT_INODE || (match entry {
        Some(e) => matches!(e.type_, Type::TAG),
        None => false,
    });
    if valid_dir {
        Ok(dir_attr(ino))
    } else {
        match entry {
            Some(e) => match note_size(notes, store, e.uuid) {
                Ok(size) => Ok(file_attr(ino, size)),
                Err(err) => Err(err),
            },
            None => Err(CommonplaceError::NotFound),
        }
    }
}

/// The bytes a read returns: the stored content from `offset`, at most
/// `len` of them; empty from or past the end of the content.
pub open spec fn read_range(content: Seq<u8>, offset: u64, len: u32) -> Seq<u8> {
    if offset >= content.len() {
        Seq::empty()
    } else if offset + len <= content.len() {
        content.subrange(offset as int, offset + len)
    } else {
        content.subrange(offset as int, content.len() as int)
    }
}

/// Copies a range out of a byte vector.
fn copy_range(bytes: &Vec<u8>, start: usize, end: usize) -> (out: Vec<u8>)
    requires
        start <= end <= bytes@.len(),
    ensures
        out@ == bytes@.subrange(start as int, end as int),
{
    let mut out: Vec<u8> = Vec::new();
    let mut i: usize = start;
    while i < end
        invariant
            start <= i <= end <= bytes@.len(),
            out@ == bytes@.subrange(start as int, i as int),
        decreases end - i,
    {
        out.push(bytes[i]);
        i = i + 1;
        proof {
            assert(out@ =~= bytes@.subrange(start as int, i as int));
        }
    }
    out
}

/// Reads part of a note's content: the range `[offset, offset + size)` of
/// the stored bytes, clipped to their end.  A read at or past the end of
/// the content returns an empty result, never an error; a handle that
/// does not lead to stored content is `NotFound`.
pub fn read(
    notes: &NotesIndex,
    store: &ContentStore,
    inode_map: &InodeMap,
    ino: u64,
    offset: u64,
    size: u32,
) -> (r: Result<Vec<u8>, CommonplaceError>)
    requires
        notes.wf(),
        store.wf(),
        inode_map.wf(),
    ensures
        ({
            let resolves = inode_map.entries().contains_key(ino) && notes@.contains_key(
                inode_map.entries()[ino].uuid,
            ) && store@.contains_key(notes@[inode_map.entries()[ino].uuid].hash@);
            let content = store@[notes@[inode_map.entries()[ino].uuid].hash@];
            &&& resolves ==> (r matches Ok(data) && data@ == read_range(content, offset, size))
            &&& (resolves && offset >= content.len()) ==> (r matches Ok(data) && data@
                == Seq::<u8>::empty())
            &&& !resolves ==> r == Err::<Vec<u8>, CommonplaceError>(CommonplaceError::NotFound)
        }),
{
    let entry = match inode_map.get_entry(ino) {
        Some(e) => e,
        None => {
            return Err(CommonplaceError::NotFound);
        },
    };
    let note = match notes.get(entry.uuid) {
        Some(n) => n,
        None => {
            return Err(CommonplaceError::NotFound);
        },
    };
    let contents = match store.get(&note.hash) {
        Ok(b) => b,
        Err(_) => {
            return Err(CommonplaceError::NotFound);
        },
    };
    let len = contents.len();
    if offset >= len as u64 {
        return Ok(Vec::new());
    }
    let start = offset as usize;
    let avail = len - start;
    let take = if (size as usize) < avail {
        size as usize
    } else {
        avail
    };
    let out = copy_range(contents, start, start + take);
    Ok(out)
}

/// The file kind a handle kind projects to.
pub open spec fn kind_of(t: Type) -> FileKind {
    match t {
        Type::TAG => FileKind::Directory,
        Type::NOTE => FileKind::RegularFile,
    }
}

/// Looks a name up under a directory handle: the directly attached notes
/// are searched first, then the child tags; the winner gets a handle and
/// its attribute record.  A matching note whose digest is not a key of
/// the content store is `NotFound`, with no handle bound.
pub fn lookup(
    tagtree: &Vec<TagTree>,
    notes: &NotesIndex,
    untagged: &Vec<NoteId>,
    store: &ContentStore,
    inode_map: &mut InodeMap,
    parent: u64,
    name: &String,
) -> (r: Result<(u64, FileAttr), CommonplaceError>)
    requires
        notes.wf(),
        store.wf(),
        old(inode_map).wf(),
        old(inode_map).spec_next() < u64::MAX,
    ensures
        final(inode_map).wf(),
        old(inode_map).entries().submap_of(final(inode_map).entries()),
        ({
            let d = dir_of(tagtree@, untagged@, notes@, old(inode_map).entries(), parent);
            match r {
                Ok(pr) => d matches Some(dir) && {
                    match spec_find_note(dir.1, notes@, name@) {
                        Some(note) => {
                            &&& store@.contains_key(note.hash@)
                            &&& final(inode_map).entries().contains_key(pr.0)
                            &&& final(inode_map).entries()[pr.0] == (Entry {
                                type_: Type::NOTE,
                                uuid: note.id.uuid,
                            })
                            &&& pr.1 == spec_file_attr(pr.0, store@[note.hash@].len() as u64)
                        },
                        None => match spec_find_tag(dir.0, name@) {
                            Some(t) => {
                                &&& final(inode_map).entries().contains_key(pr.0)
                                &&& final(inode_map).entries()[pr.0] == (Entry {
                                    type_: Type::TAG,
                                    uuid: t.id.uuid,
                                })
                                &&& pr.1 == spec_dir_attr(pr.0)
                            },
                            None => false,
                        },
                    }
                },
                Err(e) => {
                    &&& e == CommonplaceError::NotFound
                    &&& final(inode_map).entries() == old(inode_map).entries()
                    &&& (d is None || (d matches Some(dir) && {
                        match spec_find_note(dir.1, notes@, name@) {
                            Some(note) => !store@.contains_key(note.hash@),
                            None => spec_find_tag(dir.0, name@) is None,
                        }
                    }))
                },
            }
        }),
{
    let ghost entries0 = old(inode_map).entries();
    let (children, note_ids): (&Vec<TagTree>, &Vec<NoteId>) = if parent == ROOT_INODE {
        (tagtree, untagged)
    } else {
        let entry = match inode_map.get_entry(parent) {
            Some(e) => e,
            None => {
                return Err(CommonplaceError::NotFound);
            },
        };
        match crate::resolve::get_by_uuid(tagtree, notes, entry.uuid) {
            Some(NoteOrTag::Tag(t)) => {
                proof {
                    assert(!notes@.contains_key(entry.uuid)) by {
                        crate::resolve::lemma_node_of_contains(tagtree@, entry.uuid);
                    }
                    assert(dir_of(tagtree@, untagged@, notes@, entries0, parent) == Some(
                        (t.children@, t.notes@),
                    ));
                }
                (&t.children, &t.notes)
            },
            Some(NoteOrTag::Note(_)) => {
                proof {
                    assert(notes@.contains_key(entry.uuid)) by {
                        crate::resolve::lemma_node_of_contains(tagtree@, entry.uuid);
                    }
                }
                return Err(CommonplaceError::NotFound);
            },
            None => {
                proof {
                    crate::resolve::lemma_node_of_contains(tagtree@, entry.uuid);
                }
                return Err(CommonplaceError::NotFound);
            },
        }
    };
    let ghost dir = dir_of(tagtree@, untagged@, notes@, entries0, parent);
    proof {
        assert(dir == Some((children@, note_ids@)));
    }
    match crate::resolve::find_note_by_name(note_ids, notes, name) {
        Some(note) => {
            let size = match store.size(&note.hash) {
                Ok(n) => n,
                Err(err) => {
                    return Err(err);
                },
            };
            let ino = inode_map.get_inode(Entry::note(note.id));
            Ok((ino, file_attr(ino, size as u64)))
        },
        None => match crate::resolve::find_tag_by_name(children, name) {
            Some(t) => {
                let ino = inode_map.get_inode(Entry::tag(t.id));
                Ok((ino, dir_attr(ino)))
            },
            None => Err(CommonplaceError::NotFound),
        },
    }
}

/// The full listing of a directory: the child tags as directories, then
/// the attached notes as regular files, by kind, identity and name.
pub open spec fn dir_listing(
    children: Seq<TagTree>,
    nids: Seq<NoteId>,
    notes: Map<u128, Note>,
) -> Seq<(Type, u128, Seq<char>)> {
    children.map_values(|t: TagTree| (Type::TAG, t.id.uuid, t.name@)) + nids.map_values(
        |n: NoteId| (Type::NOTE, n.uuid, notes[n.uuid].name@),
    )
}

/// Whether the notes table holds every one of these identities.
pub open spec fn notes_known(nids: Seq<NoteId>, notes: Map<u128, Note>) -> bool {
    forall|k: int| 0 <= k < nids.len() ==> notes.contains_key((#[trigger] nids[k]).uuid)
}

/// Whether a listing entry reports this item, with its handle bound.
pub open spec fn entry_reports(d: DirEntry, item: (Type, u128, Seq<char>), m: Map<u64, Entry>) -> bool {
    &&& d.kind == kind_of(item.0)
    &&& d.name@ == item.2
    &&& m.contains_key(d.ino)
    &&& m[d.ino] == (Entry { type_: item.0, uuid: item.1 })
}

/// Lists a directory from a cursor: child tags as directories, then
/// attached notes as files (the root also lists the untagged notes), each
/// entry under its own handle; the cursor indexes into that full list and
/// one past its end simply yields nothing further.
pub fn readdir(
    tagtree: &Vec<TagTree>,
    notes: &NotesIndex,
    untagged: &Vec<NoteId>,
    inode_map: &mut InodeMap,
    ino: u64,
    offset: usize,
) -> (r: Result<Vec<DirEntry>, CommonplaceError>)
    requires
        notes.wf(),
        old(inode_map).wf(),
        match dir_of(tagtree@, untagged@, notes@, old(inode_map).entries(), ino) {
            Some(dir) => notes_known(dir.1, notes@) && old(inode_map).spec_next() + dir.0.len()
                + dir.1.len() < u64::MAX,
            None => true,
        },
    ensures
        final(inode_map).wf(),
        old(inode_map).entries().submap_of(final(inode_map).entries()),
        ({
            let d = dir_of(tagtree@, untagged@, notes@, old(inode_map).entries(), ino);
            match r {
                Ok(out) => d matches Some(dir) && {
                    let full = dir_listing(dir.0, dir.1, notes@);
                    &&& out@.len() == (if offset <= full.len() {
                        full.len() - offset
                    } else {
                        0
                    })
                    &&& forall|i: int|
                        0 <= i < out@.len() ==> entry_reports(
                            #[trigger] out@[i],
                            full[offset + i],
                            final(inode_map).entries(),
                        )
                },
                Err(e) => e == CommonplaceError::NotFound && d is None,
            }
        }),
{
    let ghost entries0 = old(inode_map).entries();
    let (children, note_ids): (&Vec<TagTree>, &Vec<NoteId>) = if ino == ROOT_INODE {
        (tagtree, untagged)
    } else {
        let entry = match inode_map.get_entry(ino) {
            Some(e) => e,
            None => {
                return Err(CommonplaceError::NotFound);
            },
        };
        match crate::resolve::get_by_uuid(tagtree, notes, entry.uuid) {
            Some(NoteOrTag::Tag(t)) => {
                proof {
                    assert(!notes@.contains_key(entry.uuid)) by {
                        crate::resolve::lemma_node_of_contains(tagtree@, entry.uuid);
                    }
                    assert(dir_of(tagtree@, untagged@, notes@, entries0, ino) == Some(
                        (t.children@, t.notes@),
                    ));
                }
                (&t.children, &t.notes)
            },
            Some(NoteOrTag::Note(_)) => {
                proof {
                    assert(notes@.contains_key(entry.uuid)) by {
                        crate::resolve::lemma_node_of_contains(tagtree@, entry.uuid);
                    }
                }
                return Err(CommonplaceError::NotFound);
            },
            None => {
                proof {
                    crate::resolve::lemma_node_of_contains(tagtree@, entry.uuid);
                }
                return Err(CommonplaceError::NotFound);
            },
        }
    };
    let ghost dir = dir_of(tagtree@, untagged@, notes@, entries0, ino);
    proof {
        assert(dir == Some((children@, note_ids@)));
    }
    let ghost full_listing = dir_listing(children@, note_ids@, notes@);
    let ghost next0 = inode_map.spec_next();
    let nc = children.len();
    let nn = note_ids.len();
    let mut full: Vec<DirEntry> = Vec::new();
    let mut i: usize = 0;
    while i < nc
        invariant
            i <= nc,
            nc == children@.len(),
            nn == note_ids@.len(),
            notes.wf(),
            inode_map.wf(),
            inode_map.spec_next() <= next0 + i,
            next0 + nc + nn < u64::MAX,
            old(inode_map).entries().submap_of(inode_map.entries()),
            full_listing == dir_listing(children@, note_ids@, notes@),
            full@.len() == i,
            forall|j: int|
                0 <= j < i ==> entry_reports(
                    #[trigger] full@[j],
                    full_listing[j],
                    inode_map.entries(),
                ),
        decreases nc - i,
    {
        let t = &children[i];
        let ghost pre_entries = inode_map.entries();
        let ghost pre_full = full@;
        let ino_t = inode_map.get_inode(Entry::tag(t.id));
        full.push(DirEntry { ino: ino_t, kind: FileKind::Directory, name: t.name.clone() });
        i = i + 1;
        proof {
            assert(old(inode_map).entries().submap_of(inode_map.entries())) by {
                assert forall|h: u64| #[trigger] old(inode_map).entries().dom().contains(
                    h,
                ) implies inode_map.entries().dom().contains(h) && inode_map.entries()[h] == old(
                    inode_map,
                ).entries()[h] by {
                    assert(pre_entries.dom().contains(h));
                    assert(pre_entries[h] == old(inode_map).entries()[h]);
                }
            }
            assert(full_listing[i - 1] == (Type::TAG, children@[i - 1].id.uuid, children@[i
                - 1].name@));
            assert forall|j: int| 0 <= j < i implies entry_reports(
                #[trigger] full@[j],
                full_listing[j],
                inode_map.entries(),
            ) by {
                if j < i - 1 {
                    assert(full@[j] == pre_full[j]);
                    assert(entry_reports(pre_full[j], full_listing[j], pre_entries));
                }
            }
        }
    }
    let mut k: usize = 0;
    while k < nn
        invariant
            i == nc,
            k <= nn,
            nc == children@.len(),
            nn == note_ids@.len(),
            notes.wf(),
            notes_known(note_ids@, notes@),
            inode_map.wf(),
            inode_map.spec_next() <= next0 + nc + k,
            next0 + nc + nn < u64::MAX,
            old(inode_map).entries().submap_of(inode_map.entries()),
            full_listing == dir_listing(children@, note_ids@, notes@),
            full@.len() == nc + k,
            forall|j: int|
                0 <= j < nc + k ==> entry_reports(
                    #[trigger] full@[j],
                    full_listing[j],
                    inode_map.entries(),
                ),
        decreases nn - k,
    {
        let nid = note_ids[k];
        let note_name = match notes.get(nid.uuid) {
            Some(n) => n.name.clone(),
            None => {
                proof {
                    assert(notes@.contains_key(note_ids@[k as int].uuid));
                    assert(false);
                }
                return Err(CommonplaceError::NotFound);
            },
        };
        let ghost pre_entries = inode_map.entries();
        let ghost pre_full = full@;
        let ino_n = inode_map.get_inode(Entry::note(nid));
        full.push(DirEntry { ino: ino_n, kind: FileKind::RegularFile, name: note_name });
        k = k + 1;
        proof {
            assert(old(inode_map).entries().submap_of(inode_map.entries())) by {
                assert forall|h: u64| #[trigger] old(inode_map).entries().dom().contains(
                    h,
                ) implies inode_map.entries().dom().contains(h) && inode_map.entries()[h] == old(
                    inode_map,
                ).entries()[h] by {
                    assert(pre_entries.dom().contains(h));
                    assert(pre_entries[h] == old(inode_map).entries()[h]);
                }
            }
            assert(full_listing[nc + k - 1] == (Type::NOTE, note_ids@[k - 1].uuid, notes@[note_ids@[k
                - 1].uuid].name@));
            assert forall|j: int| 0 <= j < nc + k implies entry_reports(
                #[trigger] full@[j],
                full_listing[j],
                inode_map.entries(),
            ) by {
                if j < nc + k - 1 {
                    assert(full@[j] == pre_full[j]);
                    assert(entry_reports(pre_full[j], full_listing[j], pre_entries));
                }
            }
        }
    }
    let ghost built = full@;
    let cut = if offset < full.len() {
        offset
    } else {
        full.len()
    };
    let mut dropped: usize = 0;
    while dropped < cut
        invariant
            dropped <= cut,
            cut <= built.len(),
            full@ == built.subrange(dropped as int, built.len() as int),
        decreases cut - dropped,
    {
        full.remove(0);
        dropped = dropped + 1;
        proof {
            assert(full@ =~= built.subrange(dropped as int, built.len() as int));
        }
    }
    proof {
        assert(built.subrange(0, built.len() as int) =~= built);
        assert(full_listing.len() == nc + nn);
        assert forall|j: int| 0 <= j < full@.len() implies entry_reports(
            #[trigger] full@[j],
            full_listing[cut + j],
            inode_map.entries(),
        ) by {
            assert(full@[j] == built[cut + j]);
        }
    }
    Ok(full)
}

} // verus!
