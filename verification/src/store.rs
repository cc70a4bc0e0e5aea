//! The content store: content-addressed, deduplicated storage of raw bytes,
//! keyed by the cryptographic digest of the content.  Insertion is
//! idempotent and entries are never removed.

use vstd::prelude::*;

verus! {

/// The digest of a byte sequence.  What the digest function computes is
/// outside this crate; all that matters here is that it is a pure function
/// of the bytes alone, with a fixed 32-byte output.
pub uninterp spec fn digest_of(bytes: Seq<u8>) -> Seq<u8>;

/// Relies on blake3::hash: the digest depends on the input bytes alone and
/// its default output is exactly 32 bytes.
#[verifier::external_body]
fn blake3_digest(bytes: &Vec<u8>) -> (r: Vec<u8>)
    ensures
        r@ == digest_of(bytes@),
        r@.len() == 32,
{
    blake3::hash(bytes.as_slice()).as_bytes().to_vec()
}

/// One stored blob: its digest and its bytes.
struct BlobEntry {
    digest: Vec<u8>,
    bytes: Vec<u8>,
}

/// The state of the store after putting `bytes`: unchanged when the digest
/// is already a key, extended by one entry otherwise.
pub open spec fn store_put(m: Map<Seq<u8>, Seq<u8>>, bytes: Seq<u8>) -> Map<Seq<u8>, Seq<u8>> {
    if m.contains_key(digest_of(bytes)) {
        m
    } else {
        m.insert(digest_of(bytes), bytes)
    }
}

/// Content-addressed blob storage.  Its view is the map from digests to the
/// bytes stored under them.
pub struct ContentStore {
    entries: Vec<BlobEntry>,
}

impl View for ContentStore {
    type V = Map<Seq<u8>, Seq<u8>>;

    closed spec fn view(&self) -> Map<Seq<u8>, Seq<u8>> {
        Map::new(
            |d: Seq<u8>|
                exists|i: int|
                    0 <= i < self.entries@.len() && #[trigger] self.entries@[i].digest@ == d,
            |d: Seq<u8>|
                {
                    let i = choose|i: int|
                        0 <= i < self.entries@.len() && #[trigger] self.entries@[i].digest@ == d;
                    self.entries@[i].bytes@
                },
        )
    }
}

impl ContentStore {
    /// Well-formedness: one entry per digest, and every entry is keyed by
    /// the digest of its own bytes.
    pub closed spec fn wf(&self) -> bool {
        &&& forall|i: int, j: int|
            0 <= i < j < self.entries@.len() ==> #[trigger] self.entries@[i].digest@
                != #[trigger] self.entries@[j].digest@
        &&& forall|i: int|
            0 <= i < self.entries@.len() ==> #[trigger] self.entries@[i].digest@ == digest_of(
                self.entries@[i].bytes@,
            )
    }

    /// How many distinct blobs the store holds.
    pub closed spec fn spec_entry_count(&self) -> nat {
        self.entries@.len()
    }

    /// Creates an empty store.
    pub fn new() -> (s: ContentStore)
        ensures
            s.wf(),
            s@ == Map::<Seq<u8>, Seq<u8>>::empty(),
            s.spec_entry_count() == 0,
    {
        let s = ContentStore { entries: Vec::new() };
        proof {
            assert(s@ =~= Map::<Seq<u8>, Seq<u8>>::empty());
        }
        s
    }

    /// How many distinct blobs the store holds.
    pub fn entry_count(&self) -> (n: usize)
        ensures
            n == self.spec_entry_count(),
    {
        self.entries.len()
    }

    /// The index of the entry with this digest, if the store has one.
    fn find(&self, digest: &Vec<u8>) -> (r: Option<usize>)
        ensures
            r matches Some(i) ==> i < self.entries@.len() && self.entries@[i as int].digest@
                == digest@,
            r is None ==> forall|i: int|
                0 <= i < self.entries@.len() ==> #[trigger] self.entries@[i].digest@ != digest@,
    {
        let mut i: usize = 0;
        while i < self.entries.len()
            invariant
                i <= self.entries@.len(),
                forall|j: int| 0 <= j < i ==> #[trigger] self.entries@[j].digest@ != digest@,
            decreases self.entries@.len() - i,
        {
            if bytes_eq(&self.entries[i].digest, digest) {
                return Some(i);
            }
            i = i + 1;
        }
        None
    }

    /// Stores the bytes under their digest and returns the digest; a no-op
    /// when identical content is already stored.
    pub fn put(&mut self, bytes: Vec<u8>) -> (digest: Vec<u8>)
        requires
            old(self).wf(),
        ensures
            final(self).wf(),
            digest@ == digest_of(bytes@),
            digest@.len() == 32,
            final(self)@ == store_put(old(self)@, bytes@),
            old(self)@.contains_key(digest_of(bytes@)) ==> final(self).spec_entry_count() == old(
                self,
            ).spec_entry_count(),
            !old(self)@.contains_key(digest_of(bytes@)) ==> final(self).spec_entry_count() == old(
                self,
            ).spec_entry_count() + 1,
    {
        let digest = blake3_digest(&bytes);
        proof {
            self.lemma_view_keys();
        }
        match self.find(&digest) {
            Some(_) => digest,
            None => {
                let stored = blake3_digest(&bytes);
                let ghost old_store = *self;
                self.entries.push(BlobEntry { digest: stored, bytes });
                proof {
                    assert(self.entries@.subrange(0, old_store.entries@.len() as int)
                        =~= old_store.entries@);
                    old_store.lemma_push_view(*self);
                }
                digest
            },
        }
    }

    /// The bytes stored under a digest; `NotFound` when the digest is not a
    /// key of the store.
    pub fn get(&self, digest: &Vec<u8>) -> (r: Result<&Vec<u8>, crate::types::CommonplaceError>)
        requires
            self.wf(),
        ensures
            r is Ok <==> self@.contains_key(digest@),
            r matches Ok(b) ==> b@ == self@[digest@],
            r matches Err(e) ==> e == crate::types::CommonplaceError::NotFound,
    {
        proof {
            self.lemma_view_keys();
        }
        match self.find(digest) {
            Some(i) => Ok(&self.entries[i].bytes),
            None => Err(crate::types::CommonplaceError::NotFound),
        }
    }

    /// The length of the bytes stored under a digest, without reading them
    /// out; `NotFound` when the digest is not a key of the store.
    pub fn size(&self, digest: &Vec<u8>) -> (r: Result<usize, crate::types::CommonplaceError>)
        requires
            self.wf(),
        ensures
            r is Ok <==> self@.contains_key(digest@),
            r matches Ok(n) ==> n == self@[digest@].len(),
            r matches Err(e) ==> e == crate::types::CommonplaceError::NotFound,
    {
        match self.get(digest) {
            Ok(b) => Ok(b.len()),
            Err(e) => Err(e),
        }
    }

    /// Under `wf`, the chosen witness index for any stored digest is the
    /// unique one, so the view reads back each entry's own bytes.
    proof fn lemma_view_keys(&self)
        requires
            self.wf(),
        ensures
            forall|i: int|
                0 <= i < self.entries@.len() ==> self@.contains_key(
                    #[trigger] self.entries@[i].digest@,
                ) && self@[self.entries@[i].digest@] == self.entries@[i].bytes@,
    {
        assert forall|i: int| 0 <= i < self.entries@.len() implies self@.contains_key(
            #[trigger] self.entries@[i].digest@,
        ) && self@[self.entries@[i].digest@] == self.entries@[i].bytes@ by {
            let d = self.entries@[i].digest@;
            assert(exists|k: int|
                0 <= k < self.entries@.len() && #[trigger] self.entries@[k].digest@ == d);
            let k = choose|k: int|
                0 <= k < self.entries@.len() && #[trigger] self.entries@[k].digest@ == d;
            if k != i {
                if k < i {
                    assert(self.entries@[k].digest@ != self.entries@[i].digest@);
                } else {
                    assert(self.entries@[i].digest@ != self.entries@[k].digest@);
                }
            }
        }
    }

    /// Pushing one fresh entry extends the view by exactly that binding.
    proof fn lemma_push_view(&self, post: ContentStore)
        requires
            self.wf(),
            post.entries@.len() == self.entries@.len() + 1,
            post.entries@.subrange(0, self.entries@.len() as int) == self.entries@,
            post.entries@.last().digest@ == digest_of(post.entries@.last().bytes@),
            forall|i: int|
                0 <= i < self.entries@.len() ==> #[trigger] self.entries@[i].digest@
                    != post.entries@.last().digest@,
        ensures
            post.wf(),
            post@ == self@.insert(post.entries@.last().digest@, post.entries@.last().bytes@),
            post.spec_entry_count() == self.spec_entry_count() + 1,
    {
        let n = self.entries@.len() as int;
        assert(forall|i: int| 0 <= i < n ==> post.entries@[i] == self.entries@[i]);
        assert(post.wf());
        let d = post.entries@.last().digest@;
        let b = post.entries@.last().bytes@;
        post.lemma_view_keys();
        assert forall|x: Seq<u8>| #[trigger]
            post@.contains_key(x) implies self@.insert(d, b).contains_key(x) by {
            let k = choose|k: int|
                0 <= k < post.entries@.len() && #[trigger] post.entries@[k].digest@ == x;
            if k < n {
                assert(self.entries@[k].digest@ == x);
            }
        }
        assert forall|x: Seq<u8>| #[trigger]
            self@.insert(d, b).contains_key(x) implies post@.contains_key(x) by {
            if x != d {
                let k = choose|k: int|
                    0 <= k < self.entries@.len() && #[trigger] self.entries@[k].digest@ == x;
                assert(post.entries@[k].digest@ == x);
            } else {
                assert(post.entries@[n].digest@ == d);
            }
        }
        assert forall|x: Seq<u8>| #[trigger] post@.contains_key(x) implies post@[x] == self@.insert(
            d,
            b,
        )[x] by {
            if x == d {
                assert(post@[d] == b);
            } else {
                let k = choose|k: int|
                    0 <= k < post.entries@.len() && #[trigger] post.entries@[k].digest@ == x;
                assert(k < n);
                assert(self.entries@[k].digest@ == x);
                self.lemma_view_keys();
                assert(post@[x] == post.entries@[k].bytes@);
                assert(self@[x] == self.entries@[k].bytes@);
            }
        }
        assert(post@ =~= self@.insert(d, b));
    }
}

/// Byte-for-byte equality of two byte vectors.
pub fn bytes_eq(a: &Vec<u8>, b: &Vec<u8>) -> (r: bool)
    ensures
        r == (a@ == b@),
{
    if a.len() != b.len() {
        return false;
    }
    let mut i: usize = 0;
    while i < a.len()
        invariant
            a@.len() == b@.len(),
            i <= a@.len(),
            forall|j: int| 0 <= j < i ==> a@[j] == b@[j],
        decreases a@.len() - i,
    {
        if a[i] != b[i] {
            return false;
        }
        i = i + 1;
    }
    proof {
        assert(a@ =~= b@);
    }
    true
}

/// Law: putting bytes and then getting the returned digest yields exactly
/// the original bytes, provided the digest is not already bound to other
/// content (distinct content colliding on one digest is excluded).
pub proof fn lemma_put_get_round_trip(m: Map<Seq<u8>, Seq<u8>>, bytes: Seq<u8>)
    requires
        !m.contains_key(digest_of(bytes)) || m[digest_of(bytes)] == bytes,
    ensures
        store_put(m, bytes).contains_key(digest_of(bytes)),
        store_put(m, bytes)[digest_of(bytes)] == bytes,
{
}

/// Law: putting the same bytes twice yields the same digest and leaves the
/// store exactly as after the first put.
pub proof fn lemma_put_idempotent(m: Map<Seq<u8>, Seq<u8>>, bytes: Seq<u8>)
    ensures
        store_put(store_put(m, bytes), bytes) == store_put(m, bytes),
{
}

} // verus!
