//! Name and identity resolution: the notes index keyed by note identity,
//! lookup of a tag or note by identity or by full path, the tags attached
//! to a note, and the human-readable path of a tag.

use vstd::prelude::*;
use crate::tree::{
    forest_contains_id, forest_notes_ok, id_in_rows, lemma_rows_member_contained, notes_for,
    rows_of_forest,
};
use crate::types::{Note, NoteId, NoteOrTag, TagId, TagRow, TagTree};

verus! {

/// The notes folded into a map by identity, later records winning.
pub open spec fn notes_map(rows: Seq<Note>) -> Map<u128, Note>
    decreases rows.len(),
{
    if rows.len() == 0 {
        Map::empty()
    } else {
        notes_map(rows.drop_last()).insert(rows.last().id.uuid, rows.last())
    }
}

/// The note records of the collection, addressable by note identity.  Its
/// view is the map from identities to records.
pub struct NotesIndex {
    notes: Vec<Note>,
}

impl View for NotesIndex {
    type V = Map<u128, Note>;

    closed spec fn view(&self) -> Map<u128, Note> {
        Map::new(
            |u: u128|
                exists|i: int| 0 <= i < self.notes@.len() && (#[trigger] self.notes@[i]).id.uuid
                    == u,
            |u: u128|
                {
                    let i = choose|i: int|
                        0 <= i < self.notes@.len() && (#[trigger] self.notes@[i]).id.uuid == u;
                    self.notes@[i]
                },
        )
    }
}

impl NotesIndex {
    /// Well-formedness: one record per identity, and each record keyed by
    /// its own identity.
    pub closed spec fn wf(&self) -> bool {
        forall|i: int, j: int|
            0 <= i < j < self.notes@.len() ==> (#[trigger] self.notes@[i]).id.uuid != (
            #[trigger] self.notes@[j]).id.uuid
    }

    /// Creates an empty index.
    pub fn new() -> (idx: NotesIndex)
        ensures
            idx.wf(),
            idx@ == Map::<u128, Note>::empty(),
    {
        let idx = NotesIndex { notes: Vec::new() };
        proof {
            assert(idx@ =~= Map::<u128, Note>::empty());
        }
        idx
    }

    /// Under `wf`, the witness index for any held identity is unique, so
    /// the view reads back each record itself.
    proof fn lemma_view_keys(&self)
        requires
            self.wf(),
        ensures
            forall|i: int|
                0 <= i < self.notes@.len() ==> self@.contains_key(
                    (#[trigger] self.notes@[i]).id.uuid,
                ) && self@[self.notes@[i].id.uuid] == self.notes@[i],
    {
        assert forall|i: int| 0 <= i < self.notes@.len() implies self@.contains_key(
            (#[trigger] self.notes@[i]).id.uuid,
        ) && self@[self.notes@[i].id.uuid] == self.notes@[i] by {
            let u = self.notes@[i].id.uuid;
            assert(exists|k: int|
                0 <= k < self.notes@.len() && (#[trigger] self.notes@[k]).id.uuid == u);
            let k = choose|k: int|
                0 <= k < self.notes@.len() && (#[trigger] self.notes@[k]).id.uuid == u;
            if k != i {
                if k < i {
                    assert(self.notes@[k].id.uuid != self.notes@[i].id.uuid);
                } else {
                    assert(self.notes@[i].id.uuid != self.notes@[k].id.uuid);
                }
            }
        }
    }

    /// The position of the record with this identity, if the index has one.
    fn find(&self, uuid: u128) -> (r: Option<usize>)
        ensures
            r matches Some(i) ==> i < self.notes@.len() && self.notes@[i as int].id.uuid == uuid,
            r is None ==> forall|i: int|
                0 <= i < self.notes@.len() ==> (#[trigger] self.notes@[i]).id.uuid != uuid,
    {
        let mut i: usize = 0;
        while i < self.notes.len()
            invariant
                i <= self.notes@.len(),
                forall|j: int| 0 <= j < i ==> (#[trigger] self.notes@[j]).id.uuid != uuid,
            decreases self.notes@.len() - i,
        {
            if self.notes[i].id.uuid == uuid {
                return Some(i);
            }
            i = i + 1;
        }
        None
    }

    /// Binds the record to its identity, replacing any record previously
    /// held under it.
    pub fn insert(&mut self, note: Note)
        requires
            old(self).wf(),
        ensures
            final(self).wf(),
            final(self)@ == old(self)@.insert(note.id.uuid, note),
    {
        proof {
            self.lemma_view_keys();
        }
        let ghost pre = *self;
        match self.find(note.id.uuid) {
            Some(i) => {
                self.notes.set(i, note);
                proof {
                    pre.lemma_view_keys();
                    assert(self.wf()) by {
                        assert(forall|k: int|
                            0 <= k < self.notes@.len() && k != i ==> (#[trigger] self.notes@[k])
                                == pre.notes@[k]);
                    }
                    self.lemma_view_keys();
                    let target = pre@.insert(note.id.uuid, note);
                    assert forall|u: u128| #[trigger] self@.contains_key(u) implies
                        target.contains_key(u) && self@[u] == target[u] by {
                        let k = choose|k: int|
                            0 <= k < self.notes@.len() && (#[trigger] self.notes@[k]).id.uuid == u;
                        if k == i {
                            assert(u == note.id.uuid);
                            assert(self@[u] == note);
                        } else {
                            assert(pre.notes@[k].id.uuid == u);
                            assert(u != note.id.uuid);
                            assert(self@[u] == self.notes@[k]);
                            assert(pre@[u] == pre.notes@[k]);
                        }
                    }
                    assert forall|u: u128| #[trigger] target.contains_key(u) implies
                        self@.contains_key(u) by {
                        if u == note.id.uuid {
                            assert(self.notes@[i as int].id.uuid == u);
                        } else {
                            let k = choose|k: int|
                                0 <= k < pre.notes@.len() && (#[trigger] pre.notes@[k]).id.uuid
                                    == u;
                            assert(self.notes@[k].id.uuid == u);
                        }
                    }
                    assert(self@ =~= target);
                }
            },
            None => {
                self.notes.push(note);
                proof {
                    pre.lemma_view_keys();
                    let n = pre.notes@.len() as int;
                    assert(self.wf()) by {
                        assert(forall|k: int|
                            0 <= k < n ==> (#[trigger] self.notes@[k]) == pre.notes@[k]);
                        assert(self.notes@[n].id.uuid == note.id.uuid);
                    }
                    self.lemma_view_keys();
                    let target = pre@.insert(note.id.uuid, note);
                    assert forall|u: u128| #[trigger] self@.contains_key(u) implies
                        target.contains_key(u) && self@[u] == target[u] by {
                        let k = choose|k: int|
                            0 <= k < self.notes@.len() && (#[trigger] self.notes@[k]).id.uuid == u;
                        if k == n {
                            assert(u == note.id.uuid);
                            assert(self@[u] == note);
                        } else {
                            assert(pre.notes@[k].id.uuid == u);
                            assert(u != note.id.uuid);
                            assert(self@[u] == self.notes@[k]);
                            assert(pre@[u] == pre.notes@[k]);
                        }
                    }
                    assert forall|u: u128| #[trigger] target.contains_key(u) implies
                        self@.contains_key(u) by {
                        if u == note.id.uuid {
                            assert(self.notes@[n].id.uuid == u);
                        } else {
                            let k = choose|k: int|
                                0 <= k < pre.notes@.len() && (#[trigger] pre.notes@[k]).id.uuid
                                    == u;
                            assert(self.notes@[k].id.uuid == u);
                        }
                    }
                    assert(self@ =~= target);
                }
            },
        }
    }

    /// The record held under an identity, if any.
    pub fn get(&self, uuid: u128) -> (r: Option<&Note>)
        requires
            self.wf(),
        ensures
            r is Some <==> self@.contains_key(uuid),
            r matches Some(n) ==> *n == self@[uuid],
    {
        proof {
            self.lemma_view_keys();
        }
        match self.find(uuid) {
            Some(i) => Some(&self.notes[i]),
            None => None,
        }
    }
}

/// Folds flat note records into the index, later records winning on a
/// repeated identity.
pub fn get_all_notes(rows: Vec<Note>) -> (idx: NotesIndex)
    ensures
        idx.wf(),
        idx@ == notes_map(rows@),
{
    let ghost all = rows@;
    let total = rows.len();
    proof {
        assert(all.len() == total);
    }
    let mut rows = rows;
    let mut idx = NotesIndex::new();
    let mut i: usize = 0;
    proof {
        assert(all.subrange(0, 0) =~= Seq::<Note>::empty());
    }
    while rows.len() > 0
        invariant
            idx.wf(),
            all.len() <= usize::MAX,
            i + rows@.len() == all.len(),
            rows@ == all.subrange(i as int, all.len() as int),
            idx@ == notes_map(all.subrange(0, i as int)),
        decreases rows@.len(),
    {
        let note = rows.remove(0);
        idx.insert(note);
        i = i + 1;
        proof {
            assert(rows@ =~= all.subrange(i as int, all.len() as int));
            let cur = all.subrange(0, i as int);
            assert(cur.drop_last() =~= all.subrange(0, i - 1));
            assert(cur.last() == all[i - 1]);
        }
    }
    proof {
        assert(all.subrange(0, all.len() as int) =~= all);
    }
    idx
}

/// The first node, depth first, carrying this tag identity.
pub open spec fn spec_node_of(forest: Seq<TagTree>, uuid: u128) -> Option<TagTree>
    decreases forest,
{
    if forest.len() == 0 {
        None
    } else if forest[0].id.uuid == uuid {
        Some(forest[0])
    } else {
        match spec_node_of(forest[0].children@, uuid) {
            Some(t) => Some(t),
            None => spec_node_of(forest.drop_first(), uuid),
        }
    }
}

/// A node is found for an identity exactly when the forest carries it,
/// and the node found carries it.
pub proof fn lemma_node_of_contains(f: Seq<TagTree>, uuid: u128)
    ensures
        (spec_node_of(f, uuid) is Some) <==> forest_contains_id(f, TagId { uuid }),
        spec_node_of(f, uuid) matches Some(t) ==> t.id.uuid == uuid,
    decreases f,
{
    if f.len() > 0 {
        lemma_node_of_contains(f[0].children@, uuid);
        lemma_node_of_contains(f.drop_first(), uuid);
    }
}

/// The node found for an identity stands in the forest.
pub proof fn lemma_node_of_is_node(f: Seq<TagTree>, uuid: u128)
    ensures
        spec_node_of(f, uuid) matches Some(t) ==> forest_contains_node(f, t),
    decreases f,
{
    if f.len() > 0 {
        lemma_node_of_is_node(f[0].children@, uuid);
        lemma_node_of_is_node(f.drop_first(), uuid);
    }
}

/// Every node standing in the forest carries exactly the notes the
/// records associate with its tag.
pub proof fn lemma_notes_ok_member(f: Seq<TagTree>, assoc: Seq<(TagId, NoteId)>, t: TagTree)
    requires
        forest_notes_ok(f, assoc),
        forest_contains_node(f, t),
    ensures
        t.notes@ == notes_for(assoc, t.id),
    decreases f,
{
    if f.len() > 0 {
        if f[0] == t {
        } else if forest_contains_node(f[0].children@, t) {
            lemma_notes_ok_member(f[0].children@, assoc, t);
        } else {
            lemma_notes_ok_member(f.drop_first(), assoc, t);
        }
    }
}

/// Whether this very node, at any depth, stands in the forest.
pub open spec fn forest_contains_node(forest: Seq<TagTree>, t: TagTree) -> bool
    decreases forest,
{
    if forest.len() == 0 {
        false
    } else {
        forest[0] == t || forest_contains_node(forest[0].children@, t) || forest_contains_node(
            forest.drop_first(),
            t,
        )
    }
}

/// The identities of every node, at any depth, whose notes hold this note,
/// in depth-first order.
pub open spec fn tags_of(forest: Seq<TagTree>, note: NoteId) -> Seq<TagId>
    decreases forest,
{
    if forest.len() == 0 {
        Seq::empty()
    } else {
        (if forest[0].notes@.contains(note) {
            seq![forest[0].id]
        } else {
            Seq::empty()
        }) + tags_of(forest[0].children@, note) + tags_of(forest.drop_first(), note)
    }
}

/// The root-to-node name path of the first node found carrying this tag
/// identity, depth first.
pub open spec fn spec_tag_path(forest: Seq<TagTree>, tag: TagId) -> Option<Seq<String>>
    decreases forest,
{
    if forest.len() == 0 {
        None
    } else if forest[0].id == tag {
        Some(seq![forest[0].name])
    } else {
        match spec_tag_path(forest[0].children@, tag) {
            Some(rest) => Some(seq![forest[0].name] + rest),
            None => spec_tag_path(forest.drop_first(), tag),
        }
    }
}

/// The identity of the tag a full name path denotes: each segment selects
/// the first tag of that name at the current level, and descent follows
/// only that first match.
pub open spec fn spec_tag_by_path(forest: Seq<TagTree>, path: Seq<String>) -> Option<TagId>
    decreases path.len(), forest.len(),
{
    if path.len() == 0 || forest.len() == 0 {
        None
    } else if forest[0].name@ == path[0]@ {
        if path.len() == 1 {
            Some(forest[0].id)
        } else {
            spec_tag_by_path(forest[0].children@, path.drop_first())
        }
    } else {
        spec_tag_by_path(forest.drop_first(), path)
    }
}

/// A node standing in the forest puts its identity in the forest.
proof fn lemma_node_gives_id(f: Seq<TagTree>, t: TagTree)
    requires
        forest_contains_node(f, t),
    ensures
        forest_contains_id(f, t.id),
    decreases f,
{
    if f.len() > 0 {
        if f[0] == t {
        } else if forest_contains_node(f[0].children@, t) {
            lemma_node_gives_id(f[0].children@, t);
        } else {
            lemma_node_gives_id(f.drop_first(), t);
        }
    }
}

/// Rebinds a node known to stand in a suffix of the forest to the whole
/// forest.
proof fn lemma_node_in_suffix(f: Seq<TagTree>, i: int, t: TagTree)
    requires
        0 <= i <= f.len(),
        forest_contains_node(f.subrange(i, f.len() as int), t),
    ensures
        forest_contains_node(f, t),
    decreases i,
{
    if i == 0 {
        assert(f.subrange(0, f.len() as int) =~= f);
    } else {
        let prev = f.subrange(i - 1, f.len() as int);
        assert(prev.drop_first() =~= f.subrange(i, f.len() as int));
        assert(forest_contains_node(prev, t));
        lemma_node_in_suffix(f, i - 1, t);
    }
}

/// The first node, depth first, carrying this tag identity.
fn find_tag_node<'a>(forest: &'a Vec<TagTree>, uuid: u128) -> (r: Option<&'a TagTree>)
    ensures
        r matches Some(t) ==> t.id.uuid == uuid && forest_contains_node(forest@, *t)
            && spec_node_of(forest@, uuid) == Some(*t),
        r is None ==> !forest_contains_id(forest@, TagId { uuid }) && spec_node_of(forest@, uuid)
            is None,
    decreases forest@,
{
    let ghost whole = forest@;
    let ghost target = TagId { uuid };
    let n = forest.len();
    let mut i: usize = 0;
    proof {
        assert(whole.subrange(0, n as int) =~= whole);
    }
    while i < n
        invariant
            i <= n,
            n == whole.len(),
            whole == forest@,
            target == (TagId { uuid }),
            forest_contains_id(whole, target) == forest_contains_id(
                whole.subrange(i as int, n as int),
                target,
            ),
            spec_node_of(whole, uuid) == spec_node_of(whole.subrange(i as int, n as int), uuid),
        decreases n - i,
    {
        let ghost suf = whole.subrange(i as int, n as int);
        proof {
            assert(suf[0] == whole[i as int]);
            assert(suf.drop_first() =~= whole.subrange(i + 1, n as int));
        }
        let node = &forest[i];
        if node.id.uuid == uuid {
            proof {
                assert(forest_contains_node(suf, whole[i as int]));
                lemma_node_in_suffix(whole, i as int, whole[i as int]);
            }
            return Some(node);
        }
        match find_tag_node(&node.children, uuid) {
            Some(t) => {
                proof {
                    assert(forest_contains_node(suf, *t));
                    lemma_node_in_suffix(whole, i as int, *t);
                }
                return Some(t);
            },
            None => {},
        }
        i = i + 1;
        proof {
            assert(!forest_contains_id(suf[0].children@, target));
            assert(forest_contains_id(suf, target) == forest_contains_id(
                whole.subrange(i as int, n as int),
                target,
            ));
            assert(spec_node_of(suf, uuid) == spec_node_of(
                whole.subrange(i as int, n as int),
                uuid,
            ));
        }
    }
    proof {
        assert(whole.subrange(n as int, n as int) =~= Seq::<TagTree>::empty());
    }
    None
}

/// Resolves an identity to the note or the tag node carrying it; a note
/// wins where both tables would hold the same identity.
pub fn get_by_uuid<'a>(tag_tree: &'a Vec<TagTree>, notes: &'a NotesIndex, uuid: u128) -> (r: Option<
    NoteOrTag<'a>,
>)
    requires
        notes.wf(),
    ensures
        notes@.contains_key(uuid) ==> (r matches Some(NoteOrTag::Note(n)) && *n == notes@[uuid]),
        !notes@.contains_key(uuid) && forest_contains_id(tag_tree@, TagId { uuid }) ==> (r matches Some(
            NoteOrTag::Tag(t),
        ) && t.id.uuid == uuid && forest_contains_node(tag_tree@, *t) && spec_node_of(
            tag_tree@,
            uuid,
        ) == Some(*t)),
        !notes@.contains_key(uuid) && !forest_contains_id(tag_tree@, TagId { uuid }) ==> r is None,
{
    match notes.get(uuid) {
        Some(note) => Some(NoteOrTag::Note(note)),
        None => match find_tag_node(tag_tree, uuid) {
            Some(t) => {
                proof {
                    lemma_node_gives_id(tag_tree@, *t);
                }
                Some(NoteOrTag::Tag(t))
            },
            None => None,
        },
    }
}

/// Whether the list holds this note identity.
fn contains_note(v: &Vec<NoteId>, n: &NoteId) -> (r: bool)
    ensures
        r == v@.contains(*n),
{
    let mut i: usize = 0;
    while i < v.len()
        invariant
            i <= v@.len(),
            forall|j: int| 0 <= j < i ==> v@[j] != *n,
        decreases v@.len() - i,
    {
        if v[i].uuid == n.uuid {
            return true;
        }
        i = i + 1;
    }
    false
}

/// Collects every tag, at any depth, whose notes hold this note: a note
/// may stand under many tags.
pub fn get_tags_for_note(tag_tree: &Vec<TagTree>, note: &NoteId) -> (out: Vec<TagId>)
    ensures
        out@ == tags_of(tag_tree@, *note),
    decreases tag_tree@,
{
    let ghost whole = tag_tree@;
    let n = tag_tree.len();
    let mut out: Vec<TagId> = Vec::new();
    let mut i: usize = 0;
    proof {
        assert(whole.subrange(0, n as int) =~= whole);
    }
    while i < n
        invariant
            i <= n,
            n == whole.len(),
            whole == tag_tree@,
            out@ + tags_of(whole.subrange(i as int, n as int), *note) == tags_of(whole, *note),
        decreases n - i,
    {
        let ghost suf = whole.subrange(i as int, n as int);
        let ghost pre_out = out@;
        proof {
            assert(suf[0] == whole[i as int]);
            assert(suf.drop_first() =~= whole.subrange(i + 1, n as int));
        }
        let node = &tag_tree[i];
        if contains_note(&node.notes, note) {
            out.push(node.id);
        }
        let mut child = get_tags_for_note(&node.children, note);
        out.append(&mut child);
        i = i + 1;
        proof {
            assert(out@ + tags_of(whole.subrange(i as int, n as int), *note) =~= tags_of(
                whole,
                *note,
            ));
        }
    }
    proof {
        assert(whole.subrange(n as int, n as int) =~= Seq::<TagTree>::empty());
        assert(out@ =~= tags_of(whole, *note));
    }
    out
}

/// The root-to-node name path of a tag, or `None` when no node carries its
/// identity.
pub fn get_tag_name(tag_tree: &Vec<TagTree>, tag: &TagId) -> (r: Option<Vec<String>>)
    ensures
        r matches Some(path) ==> spec_tag_path(tag_tree@, *tag) == Some(path@),
        r is None ==> spec_tag_path(tag_tree@, *tag) is None,
    decreases tag_tree@,
{
    let ghost whole = tag_tree@;
    let n = tag_tree.len();
    let mut i: usize = 0;
    proof {
        assert(whole.subrange(0, n as int) =~= whole);
    }
    while i < n
        invariant
            i <= n,
            n == whole.len(),
            whole == tag_tree@,
            spec_tag_path(whole, *tag) == spec_tag_path(whole.subrange(i as int, n as int), *tag),
        decreases n - i,
    {
        let ghost suf = whole.subrange(i as int, n as int);
        proof {
            assert(suf[0] == whole[i as int]);
            assert(suf.drop_first() =~= whole.subrange(i + 1, n as int));
        }
        let node = &tag_tree[i];
        if node.id.uuid == tag.uuid {
            let mut path: Vec<String> = Vec::new();
            path.push(node.name.clone());
            proof {
                assert(path@ =~= seq![node.name]);
            }
            return Some(path);
        }
        match get_tag_name(&node.children, tag) {
            Some(mut rest) => {
                let ghost rest_pre = rest@;
                rest.insert(0, node.name.clone());
                proof {
                    assert(rest@ =~= seq![node.name] + rest_pre);
                }
                return Some(rest);
            },
            None => {},
        }
        i = i + 1;
        proof {
            assert(spec_tag_path(suf[0].children@, *tag) is None);
            assert(spec_tag_path(suf, *tag) == spec_tag_path(
                whole.subrange(i as int, n as int),
                *tag,
            ));
        }
    }
    proof {
        assert(whole.subrange(n as int, n as int) =~= Seq::<TagTree>::empty());
    }
    None
}

/// Law: a tag has a root-to-node name path exactly when some node of the
/// forest carries its identity.
pub proof fn lemma_tag_path_exists(forest: Seq<TagTree>, tag: TagId)
    ensures
        (spec_tag_path(forest, tag) is Some) <==> forest_contains_id(forest, tag),
    decreases forest,
{
    if forest.len() > 0 {
        lemma_tag_path_exists(forest[0].children@, tag);
        lemma_tag_path_exists(forest.drop_first(), tag);
    }
}

/// Resolves a full name path to the identity of the tag it denotes.
pub fn get_tag_by_full_name(tag_tree: &Vec<TagTree>, name: &Vec<String>) -> (r: Option<TagId>)
    ensures
        r == spec_tag_by_path(tag_tree@, name@),
{
    if name.len() == 0 {
        return None;
    }
    let r = tag_by_path_from(tag_tree, name, 0);
    proof {
        assert(name@.subrange(0, name@.len() as int) =~= name@);
    }
    r
}

fn tag_by_path_from(forest: &Vec<TagTree>, name: &Vec<String>, pos: usize) -> (r: Option<TagId>)
    requires
        pos < name@.len(),
    ensures
        r == spec_tag_by_path(forest@, name@.subrange(pos as int, name@.len() as int)),
    decreases name@.len() - pos,
{
    let ghost whole = forest@;
    let ghost sp = name@.subrange(pos as int, name@.len() as int);
    let n = forest.len();
    let mut i: usize = 0;
    proof {
        assert(whole.subrange(0, n as int) =~= whole);
    }
    while i < n
        invariant
            i <= n,
            n == whole.len(),
            whole == forest@,
            pos < name@.len(),
            sp == name@.subrange(pos as int, name@.len() as int),
            spec_tag_by_path(whole, sp) == spec_tag_by_path(
                whole.subrange(i as int, n as int),
                sp,
            ),
        decreases n - i,
    {
        let ghost suf = whole.subrange(i as int, n as int);
        proof {
            assert(suf[0] == whole[i as int]);
            assert(suf.drop_first() =~= whole.subrange(i + 1, n as int));
        }
        let node = &forest[i];
        if node.name.eq(&name[pos]) {
            if pos == name.len() - 1 {
                return Some(node.id);
            }
            let r = tag_by_path_from(&node.children, name, pos + 1);
            proof {
                assert(sp.drop_first() =~= name@.subrange(pos + 1, name@.len() as int));
            }
            return r;
        }
        i = i + 1;
        proof {
            assert(spec_tag_by_path(suf, sp) == spec_tag_by_path(
                whole.subrange(i as int, n as int),
                sp,
            ));
        }
    }
    proof {
        assert(whole.subrange(n as int, n as int) =~= Seq::<TagTree>::empty());
    }
    None
}

/// The outcome of resolving a full name path: a note, a tag, or nothing.
pub enum Resolved {
    NoteHit(Note),
    TagHit(TagTree),
    Miss,
}

/// The first tag at this level carrying this name.
pub open spec fn spec_find_tag(level: Seq<TagTree>, nm: Seq<char>) -> Option<TagTree>
    decreases level.len(),
{
    if level.len() == 0 {
        None
    } else if level[0].name@ == nm {
        Some(level[0])
    } else {
        spec_find_tag(level.drop_first(), nm)
    }
}

/// The first of these notes that the index holds under this name.
pub open spec fn spec_find_note(ids: Seq<NoteId>, notes: Map<u128, Note>, nm: Seq<char>) -> Option<
    Note,
>
    decreases ids.len(),
{
    if ids.len() == 0 {
        None
    } else if notes.contains_key(ids[0].uuid) && notes[ids[0].uuid].name@ == nm {
        Some(notes[ids[0].uuid])
    } else {
        spec_find_note(ids.drop_first(), notes, nm)
    }
}

/// The resolution policy for a full name path: every segment but the last
/// selects the first tag of that name at the current level; at the last
/// segment a note directly under the resolved parent wins over a tag of
/// the same name.
pub open spec fn spec_resolve(
    level: Seq<TagTree>,
    parent_notes: Option<Seq<NoteId>>,
    notes: Map<u128, Note>,
    path: Seq<Seq<char>>,
) -> Resolved
    decreases path.len(),
{
    if path.len() == 0 {
        Resolved::Miss
    } else if path.len() == 1 {
        let note_hit = match parent_notes {
            Some(ids) => spec_find_note(ids, notes, path[0]),
            None => None,
        };
        match note_hit {
            Some(n) => Resolved::NoteHit(n),
            None => match spec_find_tag(level, path[0]) {
                Some(t) => Resolved::TagHit(t),
                None => Resolved::Miss,
            },
        }
    } else {
        match spec_find_tag(level, path[0]) {
            Some(t) => spec_resolve(t.children@, Some(t.notes@), notes, path.drop_first()),
            None => Resolved::Miss,
        }
    }
}

/// The views of a sequence of names.
pub open spec fn path_views(path: Seq<String>) -> Seq<Seq<char>> {
    path.map_values(|s: String| s@)
}

/// The first tag at this level carrying this name.
pub fn find_tag_by_name<'a>(level: &'a Vec<TagTree>, nm: &String) -> (r: Option<&'a TagTree>)
    ensures
        r matches Some(t) ==> spec_find_tag(level@, nm@) == Some(*t),
        r is None ==> spec_find_tag(level@, nm@) is None,
{
    let ghost whole = level@;
    let n = level.len();
    let mut i: usize = 0;
    proof {
        assert(whole.subrange(0, n as int) =~= whole);
    }
    while i < n
        invariant
            i <= n,
            n == whole.len(),
            whole == level@,
            spec_find_tag(whole, nm@) == spec_find_tag(whole.subrange(i as int, n as int), nm@),
        decreases n - i,
    {
        let ghost suf = whole.subrange(i as int, n as int);
        proof {
            assert(suf[0] == whole[i as int]);
            assert(suf.drop_first() =~= whole.subrange(i + 1, n as int));
        }
        let node = &level[i];
        if node.name.eq(nm) {
            return Some(node);
        }
        i = i + 1;
    }
    proof {
        assert(whole.subrange(n as int, n as int) =~= Seq::<TagTree>::empty());
    }
    None
}

/// The first of these notes that the index holds under this name.
pub fn find_note_by_name<'a>(ids: &Vec<NoteId>, notes: &'a NotesIndex, nm: &String) -> (r: Option<
    &'a Note,
>)
    requires
        notes.wf(),
    ensures
        r matches Some(n) ==> spec_find_note(ids@, notes@, nm@) == Some(*n),
        r is None ==> spec_find_note(ids@, notes@, nm@) is None,
{
    let ghost whole = ids@;
    let n = ids.len();
    let mut i: usize = 0;
    proof {
        assert(whole.subrange(0, n as int) =~= whole);
    }
    while i < n
        invariant
            i <= n,
            n == whole.len(),
            whole == ids@,
            notes.wf(),
            spec_find_note(whole, notes@, nm@) == spec_find_note(
                whole.subrange(i as int, n as int),
                notes@,
                nm@,
            ),
        decreases n - i,
    {
        let ghost suf = whole.subrange(i as int, n as int);
        proof {
            assert(suf[0] == whole[i as int]);
            assert(suf.drop_first() =~= whole.subrange(i + 1, n as int));
        }
        match notes.get(ids[i].uuid) {
            Some(note) => {
                if note.name.eq(nm) {
                    return Some(note);
                }
            },
            None => {},
        }
        i = i + 1;
    }
    proof {
        assert(whole.subrange(n as int, n as int) =~= Seq::<NoteId>::empty());
    }
    None
}

/// Resolves a full name path to a note or a tag, notes winning over tags
/// of the same name at the last segment.
pub fn get_by_full_name<'a>(
    tag_tree: &'a Vec<TagTree>,
    notes: &'a NotesIndex,
    name: &Vec<String>,
) -> (r: Option<NoteOrTag<'a>>)
    requires
        notes.wf(),
    ensures
        r matches Some(NoteOrTag::Note(n)) ==> spec_resolve(tag_tree@, None, notes@, path_views(name@))
            == Resolved::NoteHit(*n),
        r matches Some(NoteOrTag::Tag(t)) ==> spec_resolve(tag_tree@, None, notes@, path_views(name@))
            == Resolved::TagHit(*t),
        r is None ==> spec_resolve(tag_tree@, None, notes@, path_views(name@)) is Miss,
{
    if name.len() == 0 {
        return None;
    }
    let r = resolve_from(tag_tree, None, notes, name, 0);
    proof {
        assert(path_views(name@).subrange(0, name@.len() as int) =~= path_views(name@));
    }
    r
}

fn resolve_from<'a>(
    level: &'a Vec<TagTree>,
    parent: Option<&'a TagTree>,
    notes: &'a NotesIndex,
    name: &Vec<String>,
    pos: usize,
) -> (r: Option<NoteOrTag<'a>>)
    requires
        notes.wf(),
        pos < name@.len(),
    ensures
        ({
            let sp = path_views(name@).subrange(pos as int, name@.len() as int);
            let pn = match parent {
                Some(t) => Some(t.notes@),
                None => None,
            };
            &&& (r matches Some(NoteOrTag::Note(n)) ==> spec_resolve(level@, pn, notes@, sp)
                == Resolved::NoteHit(*n))
            &&& (r matches Some(NoteOrTag::Tag(t)) ==> spec_resolve(level@, pn, notes@, sp)
                == Resolved::TagHit(*t))
            &&& (r is None ==> spec_resolve(level@, pn, notes@, sp) is Miss)
        }),
    decreases name@.len() - pos,
{
    let ghost sp = path_views(name@).subrange(pos as int, name@.len() as int);
    proof {
        assert(sp[0] == name@[pos as int]@);
    }
    if pos == name.len() - 1 {
        match parent {
            Some(pt) => match find_note_by_name(&pt.notes, notes, &name[pos]) {
                Some(n) => Some(NoteOrTag::Note(n)),
                None => match find_tag_by_name(level, &name[pos]) {
                    Some(t) => Some(NoteOrTag::Tag(t)),
                    None => None,
                },
            },
            None => match find_tag_by_name(level, &name[pos]) {
                Some(t) => Some(NoteOrTag::Tag(t)),
                None => None,
            },
        }
    } else {
        match find_tag_by_name(level, &name[pos]) {
            Some(t) => {
                let r = resolve_from(&t.children, Some(t), notes, name, pos + 1);
                proof {
                    assert(sp.drop_first() =~= path_views(name@).subrange(
                        pos + 1,
                        name@.len() as int,
                    ));
                }
                r
            },
            None => None,
        }
    }
}

/// Whether a tag path separator stands at this position.
pub open spec fn sep_at(cs: Seq<char>, j: int) -> bool {
    0 <= j && j + 2 <= cs.len() && cs[j] == ':' && cs[j + 1] == ':'
}

/// The segments of a tag path written with `::` separators, split on the
/// leftmost separators first.
pub open spec fn split_tags(cs: Seq<char>) -> Seq<Seq<char>>
    decreases cs.len(),
{
    if cs.len() < 2 {
        seq![cs]
    } else if cs[0] == ':' && cs[1] == ':' {
        seq![Seq::empty()] + split_tags(cs.subrange(2, cs.len() as int))
    } else {
        let rest = split_tags(cs.subrange(1, cs.len() as int));
        seq![seq![cs[0]] + rest[0]] + rest.drop_first()
    }
}

/// Splitting yields at least one segment.
proof fn lemma_split_nonempty(cs: Seq<char>)
    ensures
        split_tags(cs).len() >= 1,
    decreases cs.len(),
{
    if cs.len() >= 2 && !(cs[0] == ':' && cs[1] == ':') {
        lemma_split_nonempty(cs.subrange(1, cs.len() as int));
    }
}

/// A text without separators is one whole segment.
proof fn lemma_split_no_sep(cs: Seq<char>)
    requires
        forall|j: int| !sep_at(cs, j),
    ensures
        split_tags(cs) == seq![cs],
    decreases cs.len(),
{
    if cs.len() < 2 {
    } else {
        assert(!sep_at(cs, 0));
        let cs1 = cs.subrange(1, cs.len() as int);
        assert forall|j: int| !sep_at(cs1, j) by {
            if sep_at(cs1, j) {
                assert(cs[j + 1] == cs1[j]);
                assert(cs[j + 2] == cs1[j + 1]);
                assert(sep_at(cs, j + 1));
            }
        }
        lemma_split_no_sep(cs1);
        assert(seq![cs[0]] + cs1 =~= cs);
        assert(split_tags(cs) =~= seq![cs]);
    }
}

/// Splitting at the leftmost separator: the text before it is the first
/// segment, and the rest is split on its own.
proof fn lemma_split_at_sep(cs: Seq<char>, k: int)
    requires
        sep_at(cs, k),
        forall|j: int| j < k ==> !sep_at(cs, j),
    ensures
        split_tags(cs) == seq![cs.subrange(0, k)] + split_tags(cs.subrange(k + 2, cs.len() as int)),
    decreases k,
{
    if k == 0 {
        assert(cs.subrange(0, 0) =~= Seq::<char>::empty());
        assert(split_tags(cs) =~= seq![cs.subrange(0, 0)] + split_tags(
            cs.subrange(2, cs.len() as int),
        ));
    } else {
        assert(!sep_at(cs, 0));
        let cs1 = cs.subrange(1, cs.len() as int);
        assert(sep_at(cs1, k - 1)) by {
            assert(cs1[k - 1] == cs[k]);
            assert(cs1[k] == cs[k + 1]);
        }
        assert forall|j: int| j < k - 1 implies !sep_at(cs1, j) by {
            if sep_at(cs1, j) {
                assert(cs[j + 1] == cs1[j]);
                assert(cs[j + 2] == cs1[j + 1]);
                assert(sep_at(cs, j + 1));
            }
        }
        lemma_split_at_sep(cs1, k - 1);
        lemma_split_nonempty(cs1.subrange(k + 1, cs1.len() as int));
        assert(cs1.subrange(0, k - 1) =~= cs.subrange(1, k));
        assert(cs1.subrange(k + 1, cs1.len() as int) =~= cs.subrange(k + 2, cs.len() as int));
        let rest = split_tags(cs1);
        assert(rest[0] == cs.subrange(1, k));
        assert(seq![cs[0]] + rest[0] =~= cs.subrange(0, k));
        assert(rest.drop_first() =~= split_tags(cs.subrange(k + 2, cs.len() as int)));
        assert(split_tags(cs) =~= seq![cs.subrange(0, k)] + split_tags(
            cs.subrange(k + 2, cs.len() as int),
        ));
    }
}

/// Splits a tag path written with `::` separators into its segments.
pub fn parse_taglist(s: &str) -> (out: Vec<String>)
    ensures
        path_views(out@) == split_tags(s@),
{
    let n = s.unicode_len();
    let mut out: Vec<String> = Vec::new();
    let mut start: usize = 0;
    let mut i: usize = 0;
    proof {
        assert(s@.subrange(0, n as int) =~= s@);
        assert(path_views(out@) =~= Seq::<Seq<char>>::empty());
    }
    while n - i > 1
        invariant
            start <= i,
            i <= n,
            n == s@.len(),
            split_tags(s@) == path_views(out@) + split_tags(s@.subrange(start as int, n as int)),
            forall|j: int| start <= j < i ==> !sep_at(s@, j),
        decreases n - i,
    {
        if s.get_char(i) == ':' && s.get_char(i + 1) == ':' {
            let seg = s.substring_char(start, i).to_owned();
            let ghost pre_out = out@;
            out.push(seg);
            proof {
                let suf = s@.subrange(start as int, n as int);
                let k = i - start;
                assert(sep_at(suf, k)) by {
                    assert(suf[k] == s@[i as int]);
                    assert(suf[k + 1] == s@[i + 1]);
                }
                assert forall|j: int| j < k implies !sep_at(suf, j) by {
                    if 0 <= j && sep_at(suf, j) {
                        assert(s@[start + j] == suf[j]);
                        assert(s@[start + j + 1] == suf[j + 1]);
                        assert(sep_at(s@, start + j));
                    }
                }
                lemma_split_at_sep(suf, k);
                assert(suf.subrange(0, k) =~= s@.subrange(start as int, i as int));
                assert(suf.subrange(k + 2, suf.len() as int) =~= s@.subrange(i + 2, n as int));
                assert(path_views(out@) =~= path_views(pre_out) + seq![
                    s@.subrange(start as int, i as int),
                ]);
                assert(path_views(out@) + split_tags(s@.subrange(i + 2, n as int)) =~= split_tags(
                    s@,
                ));
            }
            start = i + 2;
            i = i + 2;
        } else {
            proof {
                assert(!sep_at(s@, i as int));
            }
            i = i + 1;
        }
    }
    let seg = s.substring_char(start, n).to_owned();
    let ghost pre_out = out@;
    out.push(seg);
    proof {
        let suf = s@.subrange(start as int, n as int);
        assert forall|j: int| !sep_at(suf, j) by {
            if 0 <= j && sep_at(suf, j) {
                assert(s@[start + j] == suf[j]);
                assert(s@[start + j + 1] == suf[j + 1]);
                assert(sep_at(s@, start + j));
                assert(start + j < i);
            }
        }
        lemma_split_no_sep(suf);
        assert(path_views(out@) =~= path_views(pre_out) + seq![suf]);
        assert(path_views(out@) =~= split_tags(s@));
    }
    out
}

/// A note stands among a tag's notes exactly when the records associate
/// the two.
pub proof fn lemma_notes_for_contains(assoc: Seq<(TagId, NoteId)>, tag: TagId, n: NoteId)
    ensures
        notes_for(assoc, tag).contains(n) <==> assoc.contains((tag, n)),
    decreases assoc.len(),
{
    if assoc.len() == 0 {
        assert(!assoc.contains((tag, n)));
    } else {
        let init = assoc.drop_last();
        let last = assoc.last();
        lemma_notes_for_contains(init, tag, n);
        assert(init.contains((tag, n)) ==> assoc.contains((tag, n))) by {
            if init.contains((tag, n)) {
                let idx = choose|idx: int| 0 <= idx < init.len() && init[idx] == (tag, n);
                assert(assoc[idx] == (tag, n));
            }
        }
        if last.0 == tag {
            let nf = notes_for(init, tag);
            assert(notes_for(assoc, tag) == nf.push(last.1));
            if notes_for(assoc, tag).contains(n) {
                let idx = choose|idx: int|
                    0 <= idx < nf.push(last.1).len() && nf.push(last.1)[idx] == n;
                if idx < nf.len() {
                    assert(nf[idx] == n);
                    assert(nf.contains(n));
                } else {
                    assert(last.1 == n);
                    assert(assoc[assoc.len() - 1] == (tag, n));
                }
            }
            if assoc.contains((tag, n)) {
                let idx = choose|idx: int| 0 <= idx < assoc.len() && assoc[idx] == (tag, n);
                if idx < assoc.len() - 1 {
                    assert(init[idx] == (tag, n));
                    assert(init.contains((tag, n)));
                    let w = choose|w: int| 0 <= w < nf.len() && nf[w] == n;
                    assert(nf.push(last.1)[w] == n);
                } else {
                    assert(nf.push(last.1)[nf.len() as int] == n);
                }
            }
        } else {
            assert(notes_for(assoc, tag) == notes_for(init, tag));
            if assoc.contains((tag, n)) {
                let idx = choose|idx: int| 0 <= idx < assoc.len() && assoc[idx] == (tag, n);
                assert(idx < assoc.len() - 1);
                assert(init[idx] == (tag, n));
                assert(init.contains((tag, n)));
            }
        }
    }
}

/// Every tag reported for a note carries that note per the records.
proof fn lemma_tags_of_sound(
    f: Seq<TagTree>,
    assoc: Seq<(TagId, NoteId)>,
    note: NoteId,
    t: TagId,
)
    requires
        forest_notes_ok(f, assoc),
        tags_of(f, note).contains(t),
    ensures
        notes_for(assoc, t).contains(note),
    decreases f,
{
    if f.len() > 0 {
        let head = if f[0].notes@.contains(note) {
            seq![f[0].id]
        } else {
            Seq::<TagId>::empty()
        };
        let mid = tags_of(f[0].children@, note);
        let tail = tags_of(f.drop_first(), note);
        let whole = head + mid + tail;
        let k = choose|k: int| 0 <= k < whole.len() && whole[k] == t;
        if k < head.len() {
            assert(t == f[0].id);
            assert(f[0].notes@.contains(note));
            assert(f[0].notes@ == notes_for(assoc, f[0].id));
        } else if k < head.len() + mid.len() {
            assert(mid[k - head.len()] == t);
            assert(mid.contains(t));
            lemma_tags_of_sound(f[0].children@, assoc, note, t);
        } else {
            assert(tail[k - head.len() - mid.len()] == t);
            assert(tail.contains(t));
            lemma_tags_of_sound(f.drop_first(), assoc, note, t);
        }
    }
}

/// Every tag in the forest that the records give this note is reported.
proof fn lemma_tags_of_complete(
    f: Seq<TagTree>,
    assoc: Seq<(TagId, NoteId)>,
    note: NoteId,
    t: TagId,
)
    requires
        forest_notes_ok(f, assoc),
        forest_contains_id(f, t),
        notes_for(assoc, t).contains(note),
    ensures
        tags_of(f, note).contains(t),
    decreases f,
{
    let head = if f[0].notes@.contains(note) {
        seq![f[0].id]
    } else {
        Seq::<TagId>::empty()
    };
    let mid = tags_of(f[0].children@, note);
    let tail = tags_of(f.drop_first(), note);
    let whole = head + mid + tail;
    assert(tags_of(f, note) == whole);
    if f[0].id == t {
        assert(f[0].notes@ == notes_for(assoc, f[0].id));
        assert(f[0].notes@.contains(note));
        assert(whole[0] == t);
    } else if forest_contains_id(f[0].children@, t) {
        lemma_tags_of_complete(f[0].children@, assoc, note, t);
        let w = choose|w: int| 0 <= w < mid.len() && mid[w] == t;
        assert(whole[head.len() + w] == t);
    } else {
        lemma_tags_of_complete(f.drop_first(), assoc, note, t);
        let w = choose|w: int| 0 <= w < tail.len() && tail[w] == t;
        assert(whole[head.len() + mid.len() + w] == t);
    }
}


/// Distinct identities carry over to any rearrangement: a sequence with
/// the same records as multiset has pairwise distinct identities too.
proof fn lemma_distinct_ids_carry(rows: Seq<TagRow>, other: Seq<TagRow>)
    requires
        forall|i: int, j: int|
            0 <= i < j < rows.len() ==> (#[trigger] rows[i]).id != (#[trigger] rows[j]).id,
        other.to_multiset() == rows.to_multiset(),
    ensures
        forall|i: int, j: int|
            0 <= i < j < other.len() ==> (#[trigger] other[i]).id != (#[trigger] other[j]).id,
{
    broadcast use {vstd::seq_lib::group_to_multiset_ensures, vstd::multiset::group_multiset_axioms};

    assert forall|i: int, j: int|
        0 <= i < j < other.len() implies (#[trigger] other[i]).id != (#[trigger] other[j]).id by {
        if other[i].id == other[j].id {
            if other[i] == other[j] {
                // One record value twice in `other`: it counts at least
                // twice, so it counts at least twice among `rows`, where
                // two positions would share an identity.
                let v = other[i];
                assert(other.remove(i)[j - 1] == v);
                assert(other.remove(i).contains(v));
                assert(other.remove(i).to_multiset() == other.to_multiset().remove(v));
                assert(other.remove(i).to_multiset().count(v) > 0);
                assert(other.to_multiset().count(v) >= 2);
                assert(rows.to_multiset().count(v) >= 2);
                assert(rows.contains(v));
                let k = choose|k: int| 0 <= k < rows.len() && rows[k] == v;
                assert(rows.remove(k).to_multiset() == rows.to_multiset().remove(v));
                assert(rows.remove(k).to_multiset().count(v) > 0);
                assert(rows.remove(k).contains(v));
                let k2 = choose|k2: int|
                    0 <= k2 < rows.remove(k).len() && rows.remove(k)[k2] == v;
                if k2 < k {
                    assert(rows[k2] == v);
                } else {
                    assert(rows[k2 + 1] == v);
                }
            } else {
                // Two different record values with one identity: both
                // stand somewhere among `rows`.
                assert(other.contains(other[i]));
                assert(other.contains(other[j]));
                assert(rows.to_multiset().count(other[i]) > 0);
                assert(rows.to_multiset().count(other[j]) > 0);
                assert(rows.contains(other[i]));
                assert(rows.contains(other[j]));
                let k1 = choose|k1: int| 0 <= k1 < rows.len() && rows[k1] == other[i];
                let k2 = choose|k2: int| 0 <= k2 < rows.len() && rows[k2] == other[j];
                assert(rows[k1].id == rows[k2].id);
            }
        }
    }
}

/// Under pairwise distinct identities in the records a forest denotes,
/// the tags reported for a note are pairwise distinct, and each comes
/// from one of those records.
proof fn lemma_tags_of_distinct(f: Seq<TagTree>, p: Option<TagId>, n: NoteId)
    requires
        forall|i: int, j: int|
            0 <= i < j < rows_of_forest(f, p).len() ==> (#[trigger] rows_of_forest(f, p)[i]).id
                != (#[trigger] rows_of_forest(f, p)[j]).id,
    ensures
        forall|a: int, b: int|
            0 <= a < b < tags_of(f, n).len() ==> #[trigger] tags_of(f, n)[a]
                != #[trigger] tags_of(f, n)[b],
        forall|a: int|
            #![trigger tags_of(f, n)[a]]
            0 <= a < tags_of(f, n).len() ==> exists|k: int|
                0 <= k < rows_of_forest(f, p).len() && (#[trigger] rows_of_forest(f, p)[k]).id
                    == tags_of(f, n)[a],
    decreases f,
{
    if f.len() > 0 {
        let rof = rows_of_forest(f, p);
        let head_t = if f[0].notes@.contains(n) {
            seq![f[0].id]
        } else {
            Seq::<TagId>::empty()
        };
        let mid_t = tags_of(f[0].children@, n);
        let tail_t = tags_of(f.drop_first(), n);
        let whole_t = head_t + mid_t + tail_t;
        let mid_r = rows_of_forest(f[0].children@, Some(f[0].id));
        let tail_r = rows_of_forest(f.drop_first(), p);
        assert(tags_of(f, n) == whole_t);
        assert(rof[0].id == f[0].id);
        assert forall|i: int| 0 <= i < mid_r.len() implies #[trigger] rof[1 + i] == mid_r[i] by {}
        assert forall|i: int| 0 <= i < tail_r.len() implies #[trigger] rof[1 + mid_r.len() + i]
            == tail_r[i] by {}
        assert forall|i: int, j: int|
            0 <= i < j < mid_r.len() implies (#[trigger] mid_r[i]).id != (#[trigger] mid_r[j]).id by {
            assert(rof[1 + i] == mid_r[i]);
            assert(rof[1 + j] == mid_r[j]);
        }
        assert forall|i: int, j: int|
            0 <= i < j < tail_r.len() implies (#[trigger] tail_r[i]).id != (
            #[trigger] tail_r[j]).id by {
            assert(rof[1 + mid_r.len() + i] == tail_r[i]);
            assert(rof[1 + mid_r.len() + j] == tail_r[j]);
        }
        lemma_tags_of_distinct(f[0].children@, Some(f[0].id), n);
        lemma_tags_of_distinct(f.drop_first(), p, n);
        // Each reported tag comes from a record, at the matching offset.
        assert forall|a: int| #![trigger whole_t[a]] 0 <= a < whole_t.len() implies exists|k: int|
            0 <= k < rof.len() && (#[trigger] rof[k]).id == whole_t[a] by {
            if a < head_t.len() {
                assert(rof[0].id == whole_t[a]);
            } else if a < head_t.len() + mid_t.len() {
                let a2 = a - head_t.len();
                assert(mid_t[a2] == whole_t[a]);
                let k2 = choose|k2: int|
                    0 <= k2 < mid_r.len() && (#[trigger] mid_r[k2]).id == mid_t[a2];
                assert(rof[1 + k2].id == whole_t[a]);
            } else {
                let a2 = a - head_t.len() - mid_t.len();
                assert(tail_t[a2] == whole_t[a]);
                let k2 = choose|k2: int|
                    0 <= k2 < tail_r.len() && (#[trigger] tail_r[k2]).id == tail_t[a2];
                assert(rof[1 + mid_r.len() + k2].id == whole_t[a]);
            }
        }
        // Any repeat would put one identity on two distinct records.
        assert forall|a: int, b: int|
            0 <= a < b < whole_t.len() implies whole_t[a] != whole_t[b] by {
            if whole_t[a] == whole_t[b] {
                if b < head_t.len() {
                    assert(false);
                } else if a < head_t.len() && b < head_t.len() + mid_t.len() {
                    let b2 = b - head_t.len();
                    let k2 = choose|k2: int|
                        0 <= k2 < mid_r.len() && (#[trigger] mid_r[k2]).id == mid_t[b2];
                    assert(rof[0].id == rof[1 + k2].id);
                } else if a < head_t.len() {
                    let b2 = b - head_t.len() - mid_t.len();
                    let k2 = choose|k2: int|
                        0 <= k2 < tail_r.len() && (#[trigger] tail_r[k2]).id == tail_t[b2];
                    assert(rof[0].id == rof[1 + mid_r.len() + k2].id);
                } else if b < head_t.len() + mid_t.len() {
                    assert(mid_t[a - head_t.len()] != mid_t[b - head_t.len()]);
                } else if a < head_t.len() + mid_t.len() {
                    let a2 = a - head_t.len();
                    let b2 = b - head_t.len() - mid_t.len();
                    let k1 = choose|k1: int|
                        0 <= k1 < mid_r.len() && (#[trigger] mid_r[k1]).id == mid_t[a2];
                    let k2 = choose|k2: int|
                        0 <= k2 < tail_r.len() && (#[trigger] tail_r[k2]).id == tail_t[b2];
                    assert(rof[1 + k1].id == rof[1 + mid_r.len() + k2].id);
                } else {
                    assert(tail_t[a - head_t.len() - mid_t.len()] != tail_t[b - head_t.len()
                        - mid_t.len()]);
                }
            }
        }
    }
}

/// Law: when the forest was built completely from records with unique
/// identities, every tag is reported for a note at most once.
pub proof fn lemma_tags_of_unique(rows: Seq<TagRow>, forest: Seq<TagTree>, note: NoteId)
    requires
        forall|i: int, j: int|
            0 <= i < j < rows.len() ==> (#[trigger] rows[i]).id != (#[trigger] rows[j]).id,
        rows_of_forest(forest, None).to_multiset() == rows.to_multiset(),
    ensures
        forall|a: int, b: int|
            0 <= a < b < tags_of(forest, note).len() ==> #[trigger] tags_of(forest, note)[a]
                != #[trigger] tags_of(forest, note)[b],
{
    lemma_distinct_ids_carry(rows, rows_of_forest(forest, None));
    lemma_tags_of_distinct(forest, None, note);
}

/// Law: when the forest was built completely from the records, the tags
/// reported for a note are exactly those the association records pair
/// with it, for every note.
pub proof fn lemma_tags_round_trip(
    rows: Seq<TagRow>,
    assoc: Seq<(TagId, NoteId)>,
    forest: Seq<TagTree>,
    note: NoteId,
)
    requires
        forest_notes_ok(forest, assoc),
        rows_of_forest(forest, None).to_multiset() == rows.to_multiset(),
        forall|k: int| 0 <= k < assoc.len() ==> id_in_rows(rows, (#[trigger] assoc[k]).0),
    ensures
        forall|t: TagId| tags_of(forest, note).contains(t) <==> assoc.contains((t, note)),
{
    broadcast use vstd::seq_lib::group_to_multiset_ensures;

    assert forall|t: TagId| tags_of(forest, note).contains(t) implies assoc.contains(
        (t, note),
    ) by {
        lemma_tags_of_sound(forest, assoc, note, t);
        lemma_notes_for_contains(assoc, t, note);
    }
    assert forall|t: TagId| assoc.contains((t, note)) implies tags_of(forest, note).contains(
        t,
    ) by {
        lemma_notes_for_contains(assoc, t, note);
        let k = choose|k: int| 0 <= k < assoc.len() && assoc[k] == (t, note);
        assert(id_in_rows(rows, (#[trigger] assoc[k]).0));
        let j = choose|j: int| 0 <= j < rows.len() && (#[trigger] rows[j]).id == t;
        assert(rows.contains(rows[j]));
        assert(rows.to_multiset().count(rows[j]) > 0);
        assert(rows_of_forest(forest, None).to_multiset().count(rows[j]) > 0);
        assert(rows_of_forest(forest, None).contains(rows[j]));
        lemma_rows_member_contained(forest, None, rows[j]);
        lemma_tags_of_complete(forest, assoc, note, t);
    }
}

} // verus!
