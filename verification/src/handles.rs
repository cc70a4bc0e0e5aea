//! The identity-to-handle map: a process-lifetime bidirectional binding
//! between small integer filesystem handles and (kind, identity) pairs,
//! allocated lazily from a monotonic counter.  Handle 1 is reserved for the
//! synthetic root directory and never bound here.

use vstd::prelude::*;
use crate::types::{NoteId, TagId};

verus! {

/// The reserved handle of the forest root.
pub const ROOT_INODE: u64 = 1;

/// The kind of thing a handle stands for.
#[derive(Clone, Copy, Debug, PartialEq, Eq, Hash, Structural)]
pub enum Type {
    TAG,
    NOTE,
}

/// What a handle stands for: a tag or a note, by its identity.
#[derive(Clone, Copy, Debug, PartialEq, Eq, Hash, Structural)]
pub struct Entry {
    pub type_: Type,
    pub uuid: u128,
}

impl Entry {
    /// The entry standing for a tag.
    pub fn tag(id: TagId) -> (e: Entry)
        ensures
            e == (Entry { type_: Type::TAG, uuid: id.uuid }),
    {
        Entry { type_: Type::TAG, uuid: id.uuid }
    }

    /// The entry standing for a note.
    pub fn note(id: NoteId) -> (e: Entry)
        ensures
            e == (Entry { type_: Type::NOTE, uuid: id.uuid }),
    {
        Entry { type_: Type::NOTE, uuid: id.uuid }
    }
}

/// The plain pair encoding an entry on the outside map's right side.
pub type HandleCode = (u8, u128);

/// The plain encoding of an entry the bidirectional map holds.
pub open spec fn entry_code(e: Entry) -> HandleCode {
    (
        match e.type_ {
            Type::TAG => 0u8,
            Type::NOTE => 1u8,
        },
        e.uuid,
    )
}

/// The entry a plain code stands for.
pub open spec fn entry_of_code(c: HandleCode) -> Entry {
    Entry {
        type_: if c.0 == 0 {
            Type::TAG
        } else {
            Type::NOTE
        },
        uuid: c.1,
    }
}

#[verifier::external_type_specification]
#[verifier::external_body]
#[verifier::reject_recursive_types(L)]
#[verifier::reject_recursive_types(R)]
#[verifier::reject_recursive_types(LS)]
#[verifier::reject_recursive_types(RS)]
pub struct ExBiHashMap<L, R, LS, RS>(bimap::BiHashMap<L, R, LS, RS>);

/// What the bidirectional map holds, as a map from left to right values.
pub uninterp spec fn handle_pairs(m: bimap::BiMap<u64, HandleCode>) -> Map<u64, HandleCode>;

/// Relies on bimap::BiHashMap::new: the new bimap holds nothing.
#[verifier::external_body]
fn bimap_new() -> (r: bimap::BiMap<u64, HandleCode>)
    ensures
        forall|h: u64| !handle_pairs(r).contains_key(h),
{
    bimap::BiMap::new()
}

/// Relies on bimap::BiHashMap::get_by_right: returns the left value the
/// given right value is paired with, if any.
#[verifier::external_body]
fn bimap_get_by_right(m: &bimap::BiMap<u64, HandleCode>, right: &HandleCode) -> (r: Option<u64>)
    ensures
        r matches Some(l) ==> handle_pairs(*m).contains_key(l) && handle_pairs(*m)[l] == *right,
        r is None ==> forall|l: u64|
            #[trigger] handle_pairs(*m).contains_key(l) ==> handle_pairs(*m)[l] != *right,
{
    m.get_by_right(right).copied()
}

/// Relies on bimap::BiHashMap::get_by_left: returns the right value the
/// given left value is paired with, if any.
#[verifier::external_body]
fn bimap_get_by_left(m: &bimap::BiMap<u64, HandleCode>, left: &u64) -> (r: Option<HandleCode>)
    ensures
        r matches Some(c) ==> handle_pairs(*m).contains_key(*left) && handle_pairs(*m)[*left] == c,
        r is None ==> !handle_pairs(*m).contains_key(*left),
{
    m.get_by_left(left).copied()
}

/// Relies on bimap::BiHashMap::insert_no_overwrite: inserts the pair when
/// neither side is present yet and reports whether it did; the map is
/// unchanged otherwise.
#[verifier::external_body]
fn bimap_insert(m: &mut bimap::BiMap<u64, HandleCode>, left: u64, right: HandleCode) -> (ok: bool)
    ensures
        ok == (!handle_pairs(*old(m)).contains_key(left) && forall|l: u64|
            #[trigger] handle_pairs(*old(m)).contains_key(l) ==> handle_pairs(*old(m))[l] != right),
        ok ==> handle_pairs(*final(m)) == handle_pairs(*old(m)).insert(left, right),
        !ok ==> handle_pairs(*final(m)) == handle_pairs(*old(m)),
{
    m.insert_no_overwrite(left, right).is_ok()
}

/// Whether some handle of the map is bound to this entry.
pub open spec fn has_entry(m: Map<u64, Entry>, e: Entry) -> bool {
    exists|h: u64| #[trigger] m.contains_key(h) && m[h] == e
}

/// The handle bound to this entry.
pub open spec fn entry_handle(m: Map<u64, Entry>, e: Entry) -> u64 {
    choose|h: u64| #[trigger] m.contains_key(h) && m[h] == e
}

/// Whether no two handles are bound to one entry.
pub open spec fn entries_injective(m: Map<u64, Entry>) -> bool {
    forall|h1: u64, h2: u64|
        #[trigger] m.contains_key(h1) && #[trigger] m.contains_key(h2) && m[h1] == m[h2] ==> h1
            == h2
}

/// The process-lifetime map between handles and identities.  Bindings are
/// created the first time an identity is referenced and never removed;
/// handle numbers are never persisted.
pub struct InodeMap {
    map: bimap::BiMap<u64, HandleCode>,
    next: u64,
}

impl InodeMap {
    /// The bindings held, as a map from handles to entries.
    pub closed spec fn entries(&self) -> Map<u64, Entry> {
        Map::new(
            |h: u64| handle_pairs(self.map).contains_key(h),
            |h: u64| entry_of_code(handle_pairs(self.map)[h]),
        )
    }

    /// The next value of the handle counter.
    pub closed spec fn spec_next(&self) -> u64 {
        self.next
    }

    /// Well-formedness: the counter stands above the reserved root handle,
    /// every bound handle lies strictly between the root handle and the
    /// counter, codes are valid, and no two handles share an entry.
    pub closed spec fn wf(&self) -> bool {
        let pairs = handle_pairs(self.map);
        &&& self.next >= ROOT_INODE + 1
        &&& forall|h: u64| #[trigger] pairs.contains_key(h) ==> ROOT_INODE < h < self.next
        &&& forall|h: u64| #[trigger] pairs.contains_key(h) ==> pairs[h].0 == 0 || pairs[h].0 == 1
        &&& forall|h1: u64, h2: u64|
            #[trigger] pairs.contains_key(h1) && #[trigger] pairs.contains_key(h2) && pairs[h1]
                == pairs[h2] ==> h1 == h2
    }

    /// A well-formed map binds no entry to two handles, and no handle at
    /// or below the root handle.
    pub proof fn lemma_wf_entries(&self)
        requires
            self.wf(),
        ensures
            entries_injective(self.entries()),
            forall|h: u64| #[trigger] self.entries().contains_key(h) ==> ROOT_INODE < h
                < self.spec_next(),
    {
        let pairs = handle_pairs(self.map);
        assert forall|h1: u64, h2: u64|
            #[trigger] self.entries().contains_key(h1) && #[trigger] self.entries().contains_key(
                h2,
            ) && self.entries()[h1] == self.entries()[h2] implies h1 == h2 by {
            assert(pairs[h1].0 == 0 || pairs[h1].0 == 1);
            assert(pairs[h2].0 == 0 || pairs[h2].0 == 1);
            assert(entry_code(entry_of_code(pairs[h1])) == pairs[h1]);
            assert(entry_code(entry_of_code(pairs[h2])) == pairs[h2]);
        }
    }

    /// Creates an empty map; the first handle given out is the root
    /// handle's successor.
    pub fn new() -> (m: InodeMap)
        ensures
            m.wf(),
            m.entries() == Map::<u64, Entry>::empty(),
            m.spec_next() == ROOT_INODE + 1,
    {
        let m = InodeMap { map: bimap_new(), next: ROOT_INODE + 1 };
        proof {
            assert(m.entries() =~= Map::<u64, Entry>::empty());
        }
        m
    }

    /// The handle of this entry: the one already bound to it, or the next
    /// integer of the counter, bound from now on.
    pub fn get_inode(&mut self, entry: Entry) -> (inode: u64)
        requires
            old(self).wf(),
            old(self).spec_next() < u64::MAX,
        ensures
            final(self).wf(),
            has_entry(old(self).entries(), entry) ==> {
                &&& final(self).entries() == old(self).entries()
                &&& final(self).spec_next() == old(self).spec_next()
                &&& old(self).entries().contains_key(inode)
            },
            !has_entry(old(self).entries(), entry) ==> {
                &&& final(self).entries() == old(self).entries().insert(
                    old(self).spec_next(),
                    entry,
                )
                &&& final(self).spec_next() == old(self).spec_next() + 1
                &&& inode == old(self).spec_next()
            },
            final(self).entries().contains_key(inode) && final(self).entries()[inode] == entry,
            old(self).entries().submap_of(final(self).entries()),
    {
        let code: HandleCode = (
            match entry.type_ {
                Type::TAG => 0u8,
                Type::NOTE => 1u8,
            },
            entry.uuid,
        );
        proof {
            assert(code == entry_code(entry));
            assert(entry_of_code(code) == entry);
        }
        match bimap_get_by_right(&self.map, &code) {
            Some(h) => {
                proof {
                    assert(self.entries().contains_key(h) && self.entries()[h] == entry);
                    assert(has_entry(self.entries(), entry));
                    assert(self.entries().submap_of(self.entries()));
                }
                h
            },
            None => {
                let ghost pre = *self;
                proof {
                    if has_entry(pre.entries(), entry) {
                        let h = choose|h: u64|
                            #[trigger] pre.entries().contains_key(h) && pre.entries()[h] == entry;
                        let pairs = handle_pairs(pre.map);
                        assert(pairs[h].0 == 0 || pairs[h].0 == 1);
                        assert(entry_code(entry_of_code(pairs[h])) == pairs[h]);
                        assert(pairs[h] == code);
                    }
                }
                let fresh = self.next;
                self.next = self.next + 1;
                let ok = bimap_insert(&mut self.map, fresh, code);
                proof {
                    assert(ok);
                    assert(self.entries() =~= pre.entries().insert(pre.next, entry));
                    assert(pre.entries().submap_of(self.entries()));
                }
                fresh
            },
        }
    }

    /// The next value of the handle counter, for callers that must check
    /// headroom before asking for new handles.
    pub fn next_handle(&self) -> (n: u64)
        ensures
            n == self.spec_next(),
    {
        self.next
    }

    /// The entry a handle is bound to, if any.
    pub fn get_entry(&self, inode: u64) -> (r: Option<Entry>)
        requires
            self.wf(),
        ensures
            r is Some <==> self.entries().contains_key(inode),
            r matches Some(e) ==> e == self.entries()[inode],
    {
        match bimap_get_by_left(&self.map, &inode) {
            Some(c) => Some(
                Entry {
                    type_: if c.0 == 0 {
                        Type::TAG
                    } else {
                        Type::NOTE
                    },
                    uuid: c.1,
                },
            ),
            None => None,
        }
    }
}

/// Law: a handle given out for an identity is stable for the session:
/// whenever the map binds a handle to that identity, asking again yields
/// the same handle.
pub proof fn lemma_handle_stable(m: Map<u64, Entry>, e: Entry, h: u64)
    requires
        entries_injective(m),
        m.contains_key(h),
        m[h] == e,
    ensures
        has_entry(m, e),
        entry_handle(m, e) == h,
{
    assert(m.contains_key(h) && m[h] == e);
    let h2 = entry_handle(m, e);
    assert(m.contains_key(h2) && m[h2] == e);
}

/// Law: two different identities never share a handle: the handles bound
/// to them differ.
pub proof fn lemma_handles_distinct(m: Map<u64, Entry>, e1: Entry, e2: Entry, h1: u64, h2: u64)
    requires
        m.contains_key(h1),
        m[h1] == e1,
        m.contains_key(h2),
        m[h2] == e2,
        e1 != e2,
    ensures
        h1 != h2,
{
}

} // verus!
