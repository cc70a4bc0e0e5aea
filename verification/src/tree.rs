//! The tag tree builder: derives the nested forest of tags from the flat
//! tag records and attaches to every node the notes directly associated
//! with it.  The builder is a pure function of its inputs; the order of
//! siblings within a node is left unspecified.

use vstd::prelude::*;
use vstd::multiset::Multiset;
use crate::types::{NoteId, TagId, TagRow, TagTree};

verus! {

broadcast use {vstd::seq_lib::group_to_multiset_ensures, vstd::multiset::group_multiset_axioms};

/// The flat records a forest denotes: each node contributes one record
/// carrying the parent it stands under, recursively.
pub open spec fn rows_of_forest(forest: Seq<TagTree>, parent: Option<TagId>) -> Seq<TagRow>
    decreases forest,
{
    if forest.len() == 0 {
        Seq::empty()
    } else {
        seq![TagRow { id: forest[0].id, name: forest[0].name, parent: parent }]
            + rows_of_forest(forest[0].children@, Some(forest[0].id))
            + rows_of_forest(forest.drop_first(), parent)
    }
}

/// The flat records one tree denotes.
pub open spec fn rows_of_tree(tree: TagTree, parent: Option<TagId>) -> Seq<TagRow> {
    seq![TagRow { id: tree.id, name: tree.name, parent: parent }] + rows_of_forest(
        tree.children@,
        Some(tree.id),
    )
}

/// Whether any node of the forest, at any depth, carries this tag identity.
pub open spec fn forest_contains_id(forest: Seq<TagTree>, id: TagId) -> bool
    decreases forest,
{
    if forest.len() == 0 {
        false
    } else {
        forest[0].id == id || forest_contains_id(forest[0].children@, id) || forest_contains_id(
            forest.drop_first(),
            id,
        )
    }
}

/// The notes associated with a tag, in record order.
pub open spec fn notes_for(assoc: Seq<(TagId, NoteId)>, tag: TagId) -> Seq<NoteId>
    decreases assoc.len(),
{
    if assoc.len() == 0 {
        Seq::empty()
    } else {
        let init = notes_for(assoc.drop_last(), tag);
        if assoc.last().0 == tag {
            init.push(assoc.last().1)
        } else {
            init
        }
    }
}

/// Whether every node of the forest, at any depth, carries exactly the
/// notes the association records give it.
pub open spec fn forest_notes_ok(forest: Seq<TagTree>, assoc: Seq<(TagId, NoteId)>) -> bool
    decreases forest,
{
    if forest.len() == 0 {
        true
    } else {
        forest[0].notes@ == notes_for(assoc, forest[0].id) && forest_notes_ok(
            forest[0].children@,
            assoc,
        ) && forest_notes_ok(forest.drop_first(), assoc)
    }
}

/// Whether this tag identity is carried by some record.
pub open spec fn id_in_rows(rows: Seq<TagRow>, t: TagId) -> bool {
    exists|i: int| 0 <= i < rows.len() && (#[trigger] rows[i]).id == t
}

/// Whether `s` is a non-empty set of identities that all occur in `rows`.
pub open spec fn nonempty_subset_of_ids(rows: Seq<TagRow>, s: Set<TagId>) -> bool {
    (exists|t: TagId| s.contains(t)) && (forall|t: TagId| s.contains(t) ==> id_in_rows(rows, t))
}

/// Whether some record with identity in `s` has its parent outside `s`
/// (or no parent at all).
pub open spec fn has_root_in(rows: Seq<TagRow>, s: Set<TagId>) -> bool {
    exists|i: int|
        0 <= i < rows.len() && s.contains((#[trigger] rows[i]).id) && match rows[i].parent {
            Some(p) => !s.contains(p),
            None => true,
        }
}

/// Well-formed tag records: identities are unique, every parent refers to
/// an existing record, and the parent relation has no cycles (every
/// non-empty set of identities has a member whose parent lies outside it).
pub open spec fn wf_tag_rows(rows: Seq<TagRow>) -> bool {
    &&& forall|i: int, j: int|
        0 <= i < j < rows.len() ==> (#[trigger] rows[i]).id != (#[trigger] rows[j]).id
    &&& forall|i: int|
        0 <= i < rows.len() ==> match (#[trigger] rows[i]).parent {
            Some(p) => id_in_rows(rows, p),
            None => true,
        }
    &&& forall|s: Set<TagId>| nonempty_subset_of_ids(rows, s) ==> #[trigger] has_root_in(rows, s)
}

proof fn lemma_rows_concat(f: Seq<TagTree>, g: Seq<TagTree>, p: Option<TagId>)
    ensures
        rows_of_forest(f + g, p) == rows_of_forest(f, p) + rows_of_forest(g, p),
    decreases f.len(),
{
    if f.len() == 0 {
        assert(f + g =~= g);
        assert(rows_of_forest(f, p) + rows_of_forest(g, p) =~= rows_of_forest(g, p));
    } else {
        lemma_rows_concat(f.drop_first(), g, p);
        assert((f + g)[0] == f[0]);
        assert((f + g).drop_first() =~= f.drop_first() + g);
        let head = seq![TagRow { id: f[0].id, name: f[0].name, parent: p }];
        let mid = rows_of_forest(f[0].children@, Some(f[0].id));
        assert(rows_of_forest(f + g, p) == head + mid + (rows_of_forest(f.drop_first(), p)
            + rows_of_forest(g, p)));
        assert(head + mid + (rows_of_forest(f.drop_first(), p) + rows_of_forest(g, p)) =~= (head
            + mid + rows_of_forest(f.drop_first(), p)) + rows_of_forest(g, p));
    }
}

proof fn lemma_singleton_forest(t: TagTree, p: Option<TagId>)
    ensures
        rows_of_forest(seq![t], p) == rows_of_tree(t, p),
        forall|id: TagId|
            #[trigger] forest_contains_id(seq![t], id) == (t.id == id || forest_contains_id(
                t.children@,
                id,
            )),
        forall|assoc: Seq<(TagId, NoteId)>|
            #[trigger] forest_notes_ok(seq![t], assoc) == (t.notes@ == notes_for(assoc, t.id)
                && forest_notes_ok(t.children@, assoc)),
{
    let s = seq![t];
    assert(s[0] == t);
    assert(s.drop_first() =~= Seq::<TagTree>::empty());
    assert(rows_of_forest(s.drop_first(), p) == Seq::<TagRow>::empty());
    assert(rows_of_forest(s, p) =~= rows_of_tree(t, p));
    assert forall|id: TagId| #[trigger] forest_contains_id(s, id) == (t.id == id
        || forest_contains_id(t.children@, id)) by {
        assert(!forest_contains_id(s.drop_first(), id));
    }
    assert forall|assoc: Seq<(TagId, NoteId)>| #[trigger] forest_notes_ok(s, assoc) == (t.notes@
        == notes_for(assoc, t.id) && forest_notes_ok(t.children@, assoc)) by {
        assert(forest_notes_ok(s.drop_first(), assoc));
    }
}

proof fn lemma_rows_push(f: Seq<TagTree>, t: TagTree, p: Option<TagId>)
    ensures
        rows_of_forest(f.push(t), p) == rows_of_forest(f, p) + rows_of_tree(t, p),
{
    assert(f.push(t) =~= f + seq![t]);
    lemma_rows_concat(f, seq![t], p);
    lemma_singleton_forest(t, p);
}

proof fn lemma_contains_concat(f: Seq<TagTree>, g: Seq<TagTree>, id: TagId)
    ensures
        forest_contains_id(f + g, id) == (forest_contains_id(f, id) || forest_contains_id(g, id)),
    decreases f.len(),
{
    if f.len() == 0 {
        assert(f + g =~= g);
    } else {
        lemma_contains_concat(f.drop_first(), g, id);
        assert((f + g)[0] == f[0]);
        assert((f + g).drop_first() =~= f.drop_first() + g);
    }
}

proof fn lemma_contains_push(f: Seq<TagTree>, t: TagTree, id: TagId)
    ensures
        forest_contains_id(f.push(t), id) == (forest_contains_id(f, id) || t.id == id
            || forest_contains_id(t.children@, id)),
{
    assert(f.push(t) =~= f + seq![t]);
    lemma_contains_concat(f, seq![t], id);
    lemma_singleton_forest(t, None);
}

proof fn lemma_notes_ok_concat(f: Seq<TagTree>, g: Seq<TagTree>, assoc: Seq<(TagId, NoteId)>)
    ensures
        forest_notes_ok(f + g, assoc) == (forest_notes_ok(f, assoc) && forest_notes_ok(g, assoc)),
    decreases f.len(),
{
    if f.len() == 0 {
        assert(f + g =~= g);
    } else {
        lemma_notes_ok_concat(f.drop_first(), g, assoc);
        assert((f + g)[0] == f[0]);
        assert((f + g).drop_first() =~= f.drop_first() + g);
    }
}

proof fn lemma_notes_ok_push(f: Seq<TagTree>, t: TagTree, assoc: Seq<(TagId, NoteId)>)
    ensures
        forest_notes_ok(f.push(t), assoc) == (forest_notes_ok(f, assoc) && t.notes@ == notes_for(
            assoc,
            t.id,
        ) && forest_notes_ok(t.children@, assoc)),
{
    assert(f.push(t) =~= f + seq![t]);
    lemma_notes_ok_concat(f, seq![t], assoc);
    lemma_singleton_forest(t, None);
}

/// Every record a forest denotes carries the identity of some node of it.
pub proof fn lemma_rows_member_contained(f: Seq<TagTree>, p: Option<TagId>, r: TagRow)
    requires
        rows_of_forest(f, p).contains(r),
    ensures
        forest_contains_id(f, r.id),
    decreases f,
{
    if f.len() > 0 {
        let head = seq![TagRow { id: f[0].id, name: f[0].name, parent: p }];
        let mid = rows_of_forest(f[0].children@, Some(f[0].id));
        let tail = rows_of_forest(f.drop_first(), p);
        let whole = head + mid + tail;
        let k = choose|k: int| 0 <= k < whole.len() && whole[k] == r;
        if k < 1 {
            assert(r.id == f[0].id);
        } else if k < 1 + mid.len() {
            assert(mid[k - 1] == r);
            assert(mid.contains(r));
            lemma_rows_member_contained(f[0].children@, Some(f[0].id), r);
        } else {
            assert(tail[k - 1 - mid.len()] == r);
            assert(tail.contains(r));
            lemma_rows_member_contained(f.drop_first(), p, r);
        }
    }
}

/// Carries per-element facts through a multiset inclusion: every element of
/// `sub` occurs somewhere in `sup`.
proof fn lemma_ms_members(sub: Seq<TagRow>, sup: Seq<TagRow>, extra: Multiset<TagRow>)
    requires
        extra.add(sub.to_multiset()) == sup.to_multiset(),
    ensures
        forall|k: int| 0 <= k < sub.len() ==> sup.contains(#[trigger] sub[k]),
{
    assert forall|k: int| 0 <= k < sub.len() implies sup.contains(#[trigger] sub[k]) by {
        assert(sub.contains(sub[k]));
        assert(sub.to_multiset().count(sub[k]) > 0);
        assert(sup.to_multiset().count(sub[k]) > 0);
    }
}

/// The notes directly associated with a tag, in record order.
fn collect_notes(assoc: &Vec<(TagId, NoteId)>, tag: TagId) -> (out: Vec<NoteId>)
    ensures
        out@ == notes_for(assoc@, tag),
{
    let mut out: Vec<NoteId> = Vec::new();
    let mut i: usize = 0;
    while i < assoc.len()
        invariant
            i <= assoc@.len(),
            out@ == notes_for(assoc@.subrange(0, i as int), tag),
        decreases assoc@.len() - i,
    {
        let pair = assoc[i];
        if pair.0.uuid == tag.uuid {
            out.push(pair.1);
        }
        i = i + 1;
        proof {
            let pre = assoc@.subrange(0, i - 1);
            let cur = assoc@.subrange(0, i as int);
            assert(cur.drop_last() =~= pre);
            assert(cur.last() == assoc@[i - 1]);
        }
    }
    proof {
        assert(assoc@.subrange(0, assoc@.len() as int) =~= assoc@);
    }
    out
}

/// Whether two optional tag identities are the same.
fn opt_tag_eq(a: &Option<TagId>, b: &Option<TagId>) -> (r: bool)
    ensures
        r == (*a == *b),
{
    match (a, b) {
        (None, None) => true,
        (Some(x), Some(y)) => x.uuid == y.uuid,
        _ => false,
    }
}

/// Builds the subtrees of one parent out of the records not yet placed.
/// Returns the forest of the records it placed and the records it did not:
/// none of the latter names `parent` as its parent, nor any tag placed into
/// the forest.
fn build_children(remaining: Vec<TagRow>, parent: Option<TagId>, assoc: &Vec<(TagId, NoteId)>) -> (r:
    (Vec<TagTree>, Vec<TagRow>))
    ensures
        rows_of_forest(r.0@, parent).to_multiset().add(r.1@.to_multiset()) == remaining@
            .to_multiset(),
        forest_notes_ok(r.0@, assoc@),
        forall|k: int| 0 <= k < r.1@.len() ==> (#[trigger] r.1@[k]).parent != parent,
        forall|k: int|
            0 <= k < r.1@.len() ==> match (#[trigger] r.1@[k]).parent {
                Some(p) => !forest_contains_id(r.0@, p),
                None => true,
            },
        r.1@.len() <= remaining@.len(),
    decreases remaining@.len(),
{
    let ghost orig = remaining@;
    let mut pending = remaining;
    let mut matching: Vec<TagRow> = Vec::new();
    let mut rest: Vec<TagRow> = Vec::new();
    while pending.len() > 0
        invariant
            matching@.to_multiset().add(rest@.to_multiset()).add(pending@.to_multiset()) == orig
                .to_multiset(),
            forall|k: int| 0 <= k < matching@.len() ==> (#[trigger] matching@[k]).parent == parent,
            forall|k: int| 0 <= k < rest@.len() ==> (#[trigger] rest@[k]).parent != parent,
            matching@.len() + rest@.len() + pending@.len() == orig.len(),
        decreases pending@.len(),
    {
        let ghost pre = pending@;
        let row = pending.pop().unwrap();
        proof {
            assert(pre.drop_last() =~= pre.remove(pre.len() - 1));
            assert(pre.to_multiset() == pre.drop_last().to_multiset().insert(pre.last()));
        }
        if opt_tag_eq(&row.parent, &parent) {
            matching.push(row);
        } else {
            rest.push(row);
        }
        proof {
            assert(matching@.to_multiset().add(rest@.to_multiset()).add(pending@.to_multiset())
                =~= orig.to_multiset());
        }
    }
    let mut trees: Vec<TagTree> = Vec::new();
    proof {
        assert(forall|x: TagRow| !pending@.contains(x) ==> pending@.to_multiset().count(x) == 0);
        assert(forall|x: TagRow|
            !rows_of_forest(trees@, parent).contains(x) ==> rows_of_forest(
                trees@,
                parent,
            ).to_multiset().count(x) == 0);
        assert(rows_of_forest(trees@, parent).to_multiset().add(matching@.to_multiset()).add(
            rest@.to_multiset(),
        ) =~= orig.to_multiset());
    }
    while matching.len() > 0
        invariant
            orig == remaining@,
            rows_of_forest(trees@, parent).to_multiset().add(matching@.to_multiset()).add(
                rest@.to_multiset(),
            ) == orig.to_multiset(),
            forest_notes_ok(trees@, assoc@),
            forall|k: int| 0 <= k < matching@.len() ==> (#[trigger] matching@[k]).parent == parent,
            forall|k: int| 0 <= k < rest@.len() ==> (#[trigger] rest@[k]).parent != parent,
            forall|k: int|
                0 <= k < rest@.len() ==> match (#[trigger] rest@[k]).parent {
                    Some(p) => !forest_contains_id(trees@, p),
                    None => true,
                },
            matching@.len() + rest@.len() <= orig.len(),
        decreases matching@.len(),
    {
        let ghost pre_matching = matching@;
        let row = matching.pop().unwrap();
        proof {
            assert(pre_matching.drop_last() =~= pre_matching.remove(pre_matching.len() - 1));
            assert(pre_matching.to_multiset() == pre_matching.drop_last().to_multiset().insert(
                pre_matching.last(),
            ));
        }
        let ghost row_val = row;
        let ghost pre_rest = rest@;
        let ghost pre_trees = trees@;
        let (children, new_rest) = build_children(rest, Some(row.id), assoc);
        rest = new_rest;
        let notes = collect_notes(assoc, row.id);
        let tree = TagTree { id: row.id, name: row.name, children, notes };
        let ghost child_rows = rows_of_forest(tree.children@, Some(tree.id));
        proof {
            lemma_ms_members(rest@, pre_rest, child_rows.to_multiset());
            lemma_rows_push(pre_trees, tree, parent);
            lemma_notes_ok_push(pre_trees, tree, assoc@);
        }
        trees.push(tree);
        proof {
            // The record the new tree stands for is the row just placed.
            let head = seq![TagRow { id: tree.id, name: tree.name, parent: parent }];
            assert(head[0] == row_val);
            assert(head =~= Seq::<TagRow>::empty().push(row_val));
            assert(forall|x: TagRow|
                !Seq::<TagRow>::empty().contains(x) ==> Seq::<TagRow>::empty().to_multiset().count(
                    x,
                ) == 0);
            vstd::seq_lib::lemma_multiset_commutative(head, child_rows);
            vstd::seq_lib::lemma_multiset_commutative(rows_of_forest(pre_trees, parent),
                rows_of_tree(tree, parent));
            assert(rows_of_tree(tree, parent) == head + child_rows);
            assert(rows_of_forest(trees@, parent).to_multiset().add(matching@.to_multiset()).add(
                rest@.to_multiset(),
            ) =~= orig.to_multiset());
            assert forall|k: int| 0 <= k < rest@.len() implies match (#[trigger] rest@[k]).parent {
                Some(p) => !forest_contains_id(trees@, p),
                None => true,
            } by {
                assert(pre_rest.contains(rest@[k]));
                let j = choose|j: int| 0 <= j < pre_rest.len() && pre_rest[j] == rest@[k];
                assert((#[trigger] pre_rest[j]).parent == rest@[k].parent);
                lemma_contains_push(pre_trees, tree, match rest@[k].parent {
                    Some(p) => p,
                    None => tree.id,
                });
            }
        }
    }
    proof {
        assert(forall|x: TagRow| !matching@.contains(x) ==> matching@.to_multiset().count(x) == 0);
        assert(rows_of_forest(trees@, parent).to_multiset().add(rest@.to_multiset()) =~= orig
            .to_multiset());
    }
    (trees, rest)
}


/// The earliest position carrying an identity of `s`, given any position
/// that does.
proof fn lemma_first_in_set(rows: Seq<TagRow>, s: Set<TagId>, i: int)
    requires
        0 <= i < rows.len(),
        s.contains(rows[i].id),
    ensures
        exists|m: int|
            0 <= m <= i && s.contains((#[trigger] rows[m]).id) && (forall|j: int|
                0 <= j < m ==> !s.contains((#[trigger] rows[j]).id)),
    decreases i,
{
    if exists|j: int| 0 <= j < i && s.contains((#[trigger] rows[j]).id) {
        let j = choose|j: int| 0 <= j < i && s.contains((#[trigger] rows[j]).id);
        lemma_first_in_set(rows, s, j);
    } else {
        assert(s.contains((#[trigger] rows[i]).id));
    }
}

/// Law: records listed in creation order are well formed.  A tag is only
/// ever created under an already existing parent, so in the order of
/// creation every parent stands before its children; together with unique
/// identities that rules out cycles.
pub proof fn lemma_wf_from_creation_order(rows: Seq<TagRow>)
    requires
        forall|i: int, j: int|
            0 <= i < j < rows.len() ==> (#[trigger] rows[i]).id != (#[trigger] rows[j]).id,
        forall|i: int|
            0 <= i < rows.len() ==> match (#[trigger] rows[i]).parent {
                Some(p) => exists|j: int| 0 <= j < i && (#[trigger] rows[j]).id == p,
                None => true,
            },
    ensures
        wf_tag_rows(rows),
{
    assert forall|i: int| 0 <= i < rows.len() implies match (#[trigger] rows[i]).parent {
        Some(p) => id_in_rows(rows, p),
        None => true,
    } by {
        match rows[i].parent {
            Some(p) => {
                let j = choose|j: int| 0 <= j < i && (#[trigger] rows[j]).id == p;
                assert((#[trigger] rows[j]).id == p);
            },
            None => {},
        }
    }
    assert forall|s: Set<TagId>| nonempty_subset_of_ids(rows, s) implies #[trigger] has_root_in(
        rows,
        s,
    ) by {
        let t = choose|t: TagId| s.contains(t);
        let w = choose|w: int| 0 <= w < rows.len() && (#[trigger] rows[w]).id == t;
        lemma_first_in_set(rows, s, w);
        let m = choose|m: int|
            0 <= m <= w && s.contains((#[trigger] rows[m]).id) && (forall|j: int|
                0 <= j < m ==> !s.contains((#[trigger] rows[j]).id));
        // The earliest record with identity in s has its parent strictly
        // before it, hence outside s.
        match rows[m].parent {
            Some(p) => {
                let j = choose|j: int| 0 <= j < m && (#[trigger] rows[j]).id == p;
                assert(!s.contains(rows[j].id));
            },
            None => {},
        }
    }
}

/// Derives the forest of tags from the flat tag records and attaches the
/// directly associated notes to every node.  Every record the forest holds
/// comes from the input, under its recorded parent; from well-formed
/// records (unique identities, parents present, no cycles) every record
/// appears in the forest exactly once.
pub fn get_tag_tree(tag_rows: Vec<TagRow>, tagmap_rows: &Vec<(TagId, NoteId)>) -> (forest: Vec<
    TagTree,
>)
    ensures
        forest_notes_ok(forest@, tagmap_rows@),
        rows_of_forest(forest@, None).to_multiset().subset_of(tag_rows@.to_multiset()),
        wf_tag_rows(tag_rows@) ==> rows_of_forest(forest@, None).to_multiset() == tag_rows@
            .to_multiset(),
{
    let ghost rows = tag_rows@;
    let (forest, leftover) = build_children(tag_rows, None, tagmap_rows);
    proof {
        if wf_tag_rows(rows) {
            lemma_build_complete(rows, forest@, leftover@);
            assert(forall|x: TagRow|
                !leftover@.contains(x) ==> leftover@.to_multiset().count(x) == 0);
            assert(rows_of_forest(forest@, None).to_multiset() =~= rows.to_multiset());
        }
    }
    forest
}

/// From well-formed records the builder leaves nothing behind: were some
/// records left over, the set of their identities would have no member
/// whose parent lies outside it, contradicting acyclicity.
proof fn lemma_build_complete(rows: Seq<TagRow>, forest: Seq<TagTree>, leftover: Seq<TagRow>)
    requires
        wf_tag_rows(rows),
        rows_of_forest(forest, None).to_multiset().add(leftover.to_multiset()) == rows
            .to_multiset(),
        forall|k: int| 0 <= k < leftover.len() ==> (#[trigger] leftover[k]).parent != None::<TagId>,
        forall|k: int|
            0 <= k < leftover.len() ==> match (#[trigger] leftover[k]).parent {
                Some(p) => !forest_contains_id(forest, p),
                None => true,
            },
    ensures
        leftover.len() == 0,
{
    if leftover.len() > 0 {
        let s = Set::new(
            |t: TagId| exists|k: int| 0 <= k < leftover.len() && (#[trigger] leftover[k]).id == t,
        );
        lemma_ms_members(leftover, rows, rows_of_forest(forest, None).to_multiset());
        assert(s.contains(leftover[0].id));
        assert forall|t: TagId| s.contains(t) implies id_in_rows(rows, t) by {
            let k = choose|k: int| 0 <= k < leftover.len() && (#[trigger] leftover[k]).id == t;
            assert(rows.contains(leftover[k]));
            let j = choose|j: int| 0 <= j < rows.len() && rows[j] == leftover[k];
            assert((#[trigger] rows[j]).id == t);
        }
        assert(nonempty_subset_of_ids(rows, s));
        assert(has_root_in(rows, s));
        let i = choose|i: int|
            0 <= i < rows.len() && s.contains((#[trigger] rows[i]).id) && match rows[i].parent {
                Some(p) => !s.contains(p),
                None => true,
            };
        let k = choose|k: int| 0 <= k < leftover.len() && (#[trigger] leftover[k]).id == rows[i].id;
        // The leftover record and rows[i] carry the same identity, so by
        // uniqueness they are the same record.
        assert(rows.contains(leftover[k]));
        let j = choose|j: int| 0 <= j < rows.len() && rows[j] == leftover[k];
        assert(rows[j].id == rows[i].id);
        assert(j == i) by {
            if j < i {
                assert(rows[j].id != rows[i].id);
            } else if i < j {
                assert(rows[i].id != rows[j].id);
            }
        }
        assert(leftover[k] == rows[i]);
        let p = match rows[i].parent {
            Some(p) => p,
            None => rows[i].id,
        };
        assert(rows[i].parent == Some(p));
        assert(!s.contains(p));
        // The parent exists among the records.
        assert(id_in_rows(rows, p));
        let j2 = choose|j2: int| 0 <= j2 < rows.len() && (#[trigger] rows[j2]).id == p;
        assert(rows.contains(rows[j2]));
        assert(rows.to_multiset().count(rows[j2]) > 0);
        if leftover.to_multiset().count(rows[j2]) > 0 {
            // The parent record is itself left over, so p is in s.
            assert(leftover.contains(rows[j2]));
            let k2 = choose|k2: int| 0 <= k2 < leftover.len() && leftover[k2] == rows[j2];
            assert((#[trigger] leftover[k2]).id == p);
            assert(s.contains(p));
        } else {
            // The parent record stands in the forest, yet the leftover
            // record's parent was promised absent from it.
            assert(rows_of_forest(forest, None).to_multiset().count(rows[j2]) > 0);
            assert(rows_of_forest(forest, None).contains(rows[j2]));
            lemma_rows_member_contained(forest, None, rows[j2]);
            assert(forest_contains_id(forest, p));
        }
    }
}

} // verus!
