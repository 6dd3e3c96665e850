//! The auxiliary index structure: a mapping from a text key to the bucket of
//! item indices currently filed under that key. Kept as an association list
//! with distinct keys; a bucket is a multiset of indices (an index appears
//! once per occurrence of the key in its item), and no bucket is ever empty.

use vstd::prelude::*;

verus! {

/// The model of one index entry: a key and its bucket of item indices.
pub ghost struct EntryModel {
    pub key: Seq<char>,
    pub indices: Seq<u64>,
}

/// One key of an index together with the indices filed under it.
#[derive(Debug)]
pub struct IndexEntry {
    pub key: String,
    pub indices: Vec<u64>,
}

impl View for IndexEntry {
    type V = EntryModel;

    open spec fn view(&self) -> EntryModel {
        EntryModel { key: self.key@, indices: self.indices@ }
    }
}

impl DeepView for IndexEntry {
    type V = EntryModel;

    open spec fn deep_view(&self) -> EntryModel {
        self.view()
    }
}

/// Some entry carries key `k`.
pub open spec fn has_key(m: Seq<EntryModel>, k: Seq<char>) -> bool {
    exists|i: int| 0 <= i < m.len() && #[trigger] m[i].key == k
}

/// The position of the entry carrying key `k` (meaningful under distinct keys).
pub open spec fn key_pos(m: Seq<EntryModel>, k: Seq<char>) -> int {
    choose|i: int| 0 <= i < m.len() && #[trigger] m[i].key == k
}

/// The bucket filed under `k`; empty if `k` is absent.
pub open spec fn bucket_of(m: Seq<EntryModel>, k: Seq<char>) -> Seq<u64> {
    if has_key(m, k) {
        m[key_pos(m, k)].indices
    } else {
        Seq::empty()
    }
}

/// How often index `v` occurs in the bucket filed under `k`.
pub open spec fn bucket_count(m: Seq<EntryModel>, k: Seq<char>, v: u64) -> nat {
    bucket_of(m, k).to_multiset().count(v)
}

/// No two entries carry the same key.
pub open spec fn keys_distinct(m: Seq<EntryModel>) -> bool {
    forall|i: int, j: int| 0 <= i < j < m.len() ==> #[trigger] m[i].key != #[trigger] m[j].key
}

/// Every entry's bucket is nonempty.
pub open spec fn buckets_nonempty(m: Seq<EntryModel>) -> bool {
    forall|i: int| 0 <= i < m.len() ==> #[trigger] m[i].indices.len() > 0
}

/// Well-formedness of the index: distinct keys, no empty buckets.
pub open spec fn map_wf(m: Seq<EntryModel>) -> bool {
    keys_distinct(m) && buckets_nonempty(m)
}

/// Under distinct keys, the entry at `i` is the one its key resolves to.
pub proof fn lemma_bucket_at(m: Seq<EntryModel>, i: int)
    requires
        keys_distinct(m),
        0 <= i < m.len(),
    ensures
        has_key(m, m[i].key),
        key_pos(m, m[i].key) == i,
        bucket_of(m, m[i].key) == m[i].indices,
{
    assert(has_key(m, m[i].key));
    let j = key_pos(m, m[i].key);
    if j != i {
        if j < i {
            assert(m[j].key != m[i].key);
        } else {
            assert(m[i].key != m[j].key);
        }
        assert(false);
    }
}

/// Entries with the same keys, differing at most in the bucket filed under
/// `k`, file the same bucket under every other key.
pub proof fn lemma_bucket_other(m1: Seq<EntryModel>, m2: Seq<EntryModel>, k: Seq<char>)
    requires
        keys_distinct(m1),
        m1.len() == m2.len(),
        forall|j: int| 0 <= j < m1.len() ==> #[trigger] m2[j].key == m1[j].key,
        forall|j: int| 0 <= j < m1.len() && m1[j].key != k ==> #[trigger] m2[j].indices
            == m1[j].indices,
    ensures
        forall|k2: Seq<char>| k2 != k ==> #[trigger] bucket_of(m2, k2) == bucket_of(m1, k2),
{
    assert(keys_distinct(m2));
    assert forall|k2: Seq<char>| k2 != k implies #[trigger] bucket_of(m2, k2) == bucket_of(
        m1,
        k2,
    ) by {
        if has_key(m1, k2) {
            let j = key_pos(m1, k2);
            lemma_bucket_at(m1, j);
            assert(m2[j].key == k2);
            lemma_bucket_at(m2, j);
        } else {
            if has_key(m2, k2) {
                let j = key_pos(m2, k2);
                assert(m1[j].key == k2);
            }
        }
    }
}

/// Appending an entry with a fresh key leaves every other key's bucket as it
/// was.
pub proof fn lemma_bucket_push(m: Seq<EntryModel>, e: EntryModel)
    requires
        keys_distinct(m),
        !has_key(m, e.key),
    ensures
        keys_distinct(m.push(e)),
        bucket_of(m.push(e), e.key) == e.indices,
        forall|k2: Seq<char>| k2 != e.key ==> #[trigger] bucket_of(m.push(e), k2) == bucket_of(
            m,
            k2,
        ),
{
    let m2 = m.push(e);
    assert forall|i: int, j: int| 0 <= i < j < m2.len() implies #[trigger] m2[i].key
        != #[trigger] m2[j].key by {
        if j == m.len() {
            if m2[i].key == e.key {
                assert(has_key(m, e.key));
            }
        }
    }
    lemma_bucket_at(m2, m.len() as int);
    assert forall|k2: Seq<char>| k2 != e.key implies #[trigger] bucket_of(m2, k2) == bucket_of(
        m,
        k2,
    ) by {
        if has_key(m, k2) {
            let j = key_pos(m, k2);
            lemma_bucket_at(m, j);
            assert(m2[j].key == k2);
            lemma_bucket_at(m2, j);
        } else {
            if has_key(m2, k2) {
                let j = key_pos(m2, k2);
                assert(0 <= j < m.len());
                assert(m[j].key == k2);
            }
        }
    }
}

/// Mapping from key to a nonempty bucket of item indices.
#[derive(Debug)]
pub struct IndexMap {
    pub entries: Vec<IndexEntry>,
}

impl View for IndexMap {
    type V = Seq<EntryModel>;

    open spec fn view(&self) -> Seq<EntryModel> {
        self.entries.deep_view()
    }
}

/// Copies a bucket element by element.
pub(crate) fn copy_bucket(v: &Vec<u64>) -> (r: Vec<u64>)
    ensures
        r@ == v@,
{
    let mut r: Vec<u64> = Vec::new();
    let mut i: usize = 0;
    while i < v.len()
        invariant
            i <= v.len(),
            r@ == v@.take(i as int),
        decreases v.len() - i,
    {
        r.push(v[i]);
        proof {
            assert(r@ =~= v@.take(i as int + 1));
        }
        i = i + 1;
    }
    proof {
        assert(v@.take(v.len() as int) =~= v@);
    }
    r
}

impl IndexMap {
    pub fn new() -> (r: IndexMap)
        ensures
            r@ == Seq::<EntryModel>::empty(),
    {
        let r = IndexMap { entries: Vec::new() };
        proof {
            assert(r@ =~~= Seq::<EntryModel>::empty());
        }
        r
    }

    /// The position of key `k`, by linear scan.
    fn find(&self, k: &String) -> (r: Option<usize>)
        ensures
            match r {
                Some(i) => i < self.entries.len() && self@[i as int].key == k@,
                None => !has_key(self@, k@),
            },
    {
        let mut i: usize = 0;
        while i < self.entries.len()
            invariant
                i <= self.entries.len(),
                forall|j: int| 0 <= j < i ==> #[trigger] self@[j].key != k@,
            decreases self.entries.len() - i,
        {
            if self.entries[i].key == *k {
                return Some(i);
            }
            i = i + 1;
        }
        None
    }

    /// The bucket filed under `k`, copied out; `None` when `k` is absent.
    pub fn bucket_clone(&self, k: &String) -> (r: Option<Vec<u64>>)
        requires
            keys_distinct(self@),
        ensures
            r is Some <==> has_key(self@, k@),
            r matches Some(b) ==> b@ == bucket_of(self@, k@),
    {
        match self.find(k) {
            Some(i) => {
                proof {
                    lemma_bucket_at(self@, i as int);
                }
                Some(copy_bucket(&self.entries[i].indices))
            },
            None => None,
        }
    }

    /// Files one more occurrence of `v` under key `k`.
    pub fn insert_occurrence(&mut self, k: &String, v: u64)
        requires
            map_wf(old(self)@),
        ensures
            map_wf(final(self)@),
            bucket_of(final(self)@, k@).to_multiset() == bucket_of(old(self)@, k@)
                .to_multiset().insert(v),
            forall|k2: Seq<char>| k2 != k@ ==> #[trigger] bucket_of(final(self)@, k2) == bucket_of(
                old(self)@,
                k2,
            ),
    {
        broadcast use vstd::seq_lib::group_seq_properties;

        match self.find(k) {
            Some(i) => {
                let ghost m1 = self@;
                let mut e = self.entries.remove(i);
                let ghost old_bucket = e.indices@;
                e.indices.push(v);
                self.entries.insert(i, e);
                proof {
                    assert(self@ =~~= m1.update(
                        i as int,
                        EntryModel { key: k@, indices: old_bucket.push(v) },
                    ));
                    lemma_bucket_at(m1, i as int);
                    assert(keys_distinct(self@));
                    assert(buckets_nonempty(self@));
                    lemma_bucket_at(self@, i as int);
                    old_bucket.to_multiset_ensures();
                    lemma_bucket_other(m1, self@, k@);
                }
            },
            None => {
                let ghost m1 = self@;
                let mut indices: Vec<u64> = Vec::new();
                indices.push(v);
                let e = IndexEntry { key: k.clone(), indices };
                self.entries.push(e);
                proof {
                    assert(self@ =~~= m1.push(EntryModel { key: k@, indices: seq![v] }));
                    lemma_bucket_push(m1, EntryModel { key: k@, indices: seq![v] });
                    assert(buckets_nonempty(self@));
                    assert(seq![v] =~= Seq::<u64>::empty().push(v));
                    Seq::<u64>::empty().to_multiset_ensures();
                    assert(bucket_of(m1, k@) =~= Seq::<u64>::empty());
                    assert(bucket_of(self@, k@).to_multiset() =~= bucket_of(m1, k@)
                        .to_multiset().insert(v));
                }
            },
        }
    }

    /// Withdraws one occurrence of `v` from the bucket filed under `k`; a
    /// bucket left empty is dropped together with its key.
    pub fn remove_occurrence(&mut self, k: &String, v: u64)
        requires
            map_wf(old(self)@),
            bucket_count(old(self)@, k@, v) > 0,
        ensures
            map_wf(final(self)@),
            bucket_of(final(self)@, k@).to_multiset() == bucket_of(old(self)@, k@)
                .to_multiset().remove(v),
            forall|k2: Seq<char>| k2 != k@ ==> #[trigger] bucket_of(final(self)@, k2) == bucket_of(
                old(self)@,
                k2,
            ),
    {
        broadcast use vstd::seq_lib::group_seq_properties;

        let ghost m1 = self@;
        proof {
            bucket_of(m1, k@).to_multiset_ensures();
            assert(bucket_of(m1, k@).contains(v));
            assert(has_key(m1, k@));
        }
        match self.find(k) {
            Some(i) => {
                proof {
                    lemma_bucket_at(m1, i as int);
                }
                let mut e = self.entries.remove(i);
                let ghost old_bucket = e.indices@;
                let mut j: usize = 0;
                while j < e.indices.len() && e.indices[j] != v
                    invariant
                        j <= e.indices.len(),
                        e.indices@ == old_bucket,
                        old_bucket.contains(v),
                        forall|l: int| 0 <= l < j ==> old_bucket[l] != v,
                    decreases e.indices.len() - j,
                {
                    j = j + 1;
                }
                proof {
                    if j >= e.indices.len() {
                        assert(forall|l: int| 0 <= l < old_bucket.len() ==> old_bucket[l] != v);
                        assert(false);
                    }
                    assert(old_bucket[j as int] == v);
                }
                e.indices.remove(j);
                proof {
                    old_bucket.to_multiset_ensures();
                    assert(e.indices@ == old_bucket.remove(j as int));
                    assert(e.indices@.to_multiset() == old_bucket.to_multiset().remove(v));
                }
                if e.indices.len() > 0 {
                    self.entries.insert(i, e);
                    proof {
                        assert(self@ =~~= m1.update(
                            i as int,
                            EntryModel { key: k@, indices: old_bucket.remove(j as int) },
                        ));
                        assert(keys_distinct(self@));
                        assert(buckets_nonempty(self@));
                        lemma_bucket_at(self@, i as int);
                        lemma_bucket_other(m1, self@, k@);
                    }
                } else {
                    proof {
                        assert(self@ =~~= m1.remove(i as int));
                        assert forall|a: int, b: int| 0 <= a < b < self@.len() implies
                            #[trigger] self@[a].key != #[trigger] self@[b].key by {
                            if b < i {
                                assert(m1[a].key != m1[b].key);
                            } else if a < i {
                                assert(m1[a].key != m1[b + 1].key);
                            } else {
                                assert(m1[a + 1].key != m1[b + 1].key);
                            }
                        }
                        assert(buckets_nonempty(self@));
                        if has_key(self@, k@) {
                            let j2 = key_pos(self@, k@);
                            if j2 < i {
                                assert(m1[j2].key == k@);
                                assert(m1[j2].key != m1[i as int].key);
                            } else {
                                assert(m1[j2 + 1].key == k@);
                                assert(m1[i as int].key != m1[j2 + 1].key);
                            }
                            assert(false);
                        }
                        assert(bucket_of(self@, k@) =~= Seq::<u64>::empty());
                        old_bucket.to_multiset_ensures();
                        assert(old_bucket.len() == 1);
                        assert(old_bucket =~= Seq::<u64>::empty().push(old_bucket[0]));
                        Seq::<u64>::empty().to_multiset_ensures();
                        assert(bucket_of(self@, k@).to_multiset() =~= bucket_of(m1, k@)
                            .to_multiset().remove(v));
                        assert forall|k2: Seq<char>| k2 != k@ implies #[trigger] bucket_of(
                            self@,
                            k2,
                        ) == bucket_of(m1, k2) by {
                            if has_key(m1, k2) {
                                let j2 = key_pos(m1, k2);
                                lemma_bucket_at(m1, j2);
                                if j2 < i {
                                    assert(self@[j2].key == k2);
                                    lemma_bucket_at(self@, j2);
                                } else {
                                    assert(j2 > i);
                                    assert(self@[j2 - 1].key == k2);
                                    lemma_bucket_at(self@, j2 - 1);
                                }
                            } else {
                                if has_key(self@, k2) {
                                    let j2 = key_pos(self@, k2);
                                    if j2 < i {
                                        assert(m1[j2].key == k2);
                                    } else {
                                        assert(m1[j2 + 1].key == k2);
                                    }
                                }
                            }
                        }
                    }
                }
            },
            None => {
                proof {
                    assert(false);
                }
            },
        }
    }
}

} // verus!
