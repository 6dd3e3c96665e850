//! The store: owns the append-only record log and the two auxiliary indices
//! (by tag, by description word), exposes add/complete/search, and chooses
//! between a linear scan and an index-assisted lookup by total log size.

use crate::index_map::bucket_count;
use crate::index_map::bucket_of;
use crate::index_map::has_key;
use crate::index_map::lemma_bucket_at;
use crate::index_map::map_wf;
use crate::index_map::EntryModel;
use crate::index_map::IndexEntry;
use crate::index_map::IndexMap;
use crate::matcher::contains_match;
use crate::matcher::contains_word;
use crate::matcher::is_subseq_of;
use crate::matcher::split_into_words;
use crate::matcher::split_words;
use crate::types::Description;
use crate::types::Index;
use crate::types::ItemModel;
use crate::types::Tag;
use crate::types::TodoItem;
use rayon::iter::IntoParallelRefIterator;
use rayon::iter::ParallelIterator;
use vstd::multiset::Multiset;
use vstd::pervasive::VecAdditionalExecFns;
use vstd::prelude::*;

verus! {

/// A free-text search token, matched against description words by the
/// subsequence matcher.
#[derive(Debug, PartialEq, Eq)]
pub struct SearchWord(pub String);

impl View for SearchWord {
    type V = Seq<char>;

    open spec fn view(&self) -> Seq<char> {
        self.0@
    }
}

impl DeepView for SearchWord {
    type V = Seq<char>;

    open spec fn deep_view(&self) -> Seq<char> {
        self.0@
    }
}

impl Clone for SearchWord {
    fn clone(&self) -> (r: Self)
        ensures
            r == *self,
    {
        SearchWord(self.0.clone())
    }
}

impl SearchWord {
    pub fn new(s: &str) -> (r: SearchWord)
        ensures
            r@ == s@,
    {
        SearchWord(String::from_str(s))
    }
}

/// A search query: free-text words and exact-match tags.
#[derive(Debug, PartialEq, Eq)]
pub struct SearchParams {
    pub words: Vec<SearchWord>,
    pub tags: Vec<Tag>,
}

/// The model of a search query.
pub ghost struct QueryModel {
    pub words: Seq<Seq<char>>,
    pub tags: Seq<Seq<char>>,
}

impl View for SearchParams {
    type V = QueryModel;

    open spec fn view(&self) -> QueryModel {
        QueryModel { words: self.words.deep_view(), tags: self.tags.deep_view() }
    }
}

impl Clone for SearchParams {
    fn clone(&self) -> (r: Self)
        ensures
            r@ == self@,
    {
        let words = self.words.clone();
        let tags = self.tags.clone();
        proof {
            assert(words@ =~= self.words@);
            assert(tags@ =~= self.tags@);
            assert(words.deep_view() =~~= self.words.deep_view());
            assert(tags.deep_view() =~~= self.tags.deep_view());
        }
        SearchParams { words, tags }
    }
}

/// A not-done item matches when any of its tags exactly equals a query tag,
/// or any query word is a subsequence of some token of its description.
/// An empty query matches nothing.
pub open spec fn item_matches(it: ItemModel, q: QueryModel) -> bool {
    &&& !it.done
    &&& {
        ||| exists|i: int| 0 <= i < q.tags.len() && it.tags.contains(#[trigger] q.tags[i])
        ||| exists|i: int|
            0 <= i < q.words.len() && contains_match(#[trigger] q.words[i], it.description)
    }
}

/// The items matching `q`, in log (ascending index) order.
pub open spec fn matching_items(items: Seq<ItemModel>, q: QueryModel) -> Seq<ItemModel> {
    items.filter(|it: ItemModel| item_matches(it, q))
}

/// How many occurrences of tag `k` the live item `it` files in the tag index.
pub open spec fn item_tag_occ(it: ItemModel, k: Seq<char>) -> nat {
    if it.done {
        0
    } else {
        it.tags.to_multiset().count(k)
    }
}

/// How many occurrences of word `k` the live item `it` files in the word
/// index.
pub open spec fn item_word_occ(it: ItemModel, k: Seq<char>) -> nat {
    if it.done {
        0
    } else {
        split_words(it.description).to_multiset().count(k)
    }
}


/// After filing one more occurrence of `idx` under `key`, the count at
/// `(key, idx)` rises by one and every other count is unchanged.
proof fn lemma_count_after_insert(m1: Seq<EntryModel>, m2: Seq<EntryModel>, key: Seq<char>, idx: u64)
    requires
        bucket_of(m2, key).to_multiset() == bucket_of(m1, key).to_multiset().insert(idx),
        forall|k2: Seq<char>| k2 != key ==> #[trigger] bucket_of(m2, k2) == bucket_of(m1, k2),
    ensures
        bucket_count(m2, key, idx) == bucket_count(m1, key, idx) + 1,
        forall|k: Seq<char>, v: u64|
            !(k == key && v == idx) ==> #[trigger] bucket_count(m2, k, v) == bucket_count(m1, k, v),
{
    broadcast use vstd::multiset::group_multiset_axioms;

    assert forall|k: Seq<char>, v: u64| !(k == key && v == idx) implies #[trigger] bucket_count(
        m2,
        k,
        v,
    ) == bucket_count(m1, k, v) by {
        if k == key {
            assert(bucket_of(m2, k).to_multiset().count(v) == bucket_of(m1, k).to_multiset().count(
                v,
            ));
        } else {
            assert(bucket_of(m2, k) == bucket_of(m1, k));
        }
    }
}

/// After withdrawing one occurrence of `idx` from under `key`, the count at
/// `(key, idx)` falls by one and every other count is unchanged.
proof fn lemma_count_after_remove(m1: Seq<EntryModel>, m2: Seq<EntryModel>, key: Seq<char>, idx: u64)
    requires
        bucket_count(m1, key, idx) > 0,
        bucket_of(m2, key).to_multiset() == bucket_of(m1, key).to_multiset().remove(idx),
        forall|k2: Seq<char>| k2 != key ==> #[trigger] bucket_of(m2, k2) == bucket_of(m1, k2),
    ensures
        bucket_count(m2, key, idx) == bucket_count(m1, key, idx) - 1,
        forall|k: Seq<char>, v: u64|
            !(k == key && v == idx) ==> #[trigger] bucket_count(m2, k, v) == bucket_count(m1, k, v),
{
    broadcast use vstd::multiset::group_multiset_axioms;

    assert forall|k: Seq<char>, v: u64| !(k == key && v == idx) implies #[trigger] bucket_count(
        m2,
        k,
        v,
    ) == bucket_count(m1, k, v) by {
        if k == key {
            assert(bucket_of(m2, k).to_multiset().count(v) == bucket_of(m1, k).to_multiset().count(
                v,
            ));
        } else {
            assert(bucket_of(m2, k) == bucket_of(m1, k));
        }
    }
}

/// Extending a processed prefix by its next element raises that element's
/// occurrence count by one and leaves the others unchanged.
proof fn lemma_take_count_step(s: Seq<Seq<char>>, i: int)
    requires
        0 <= i < s.len(),
    ensures
        forall|k: Seq<char>|
            #[trigger] s.take(i + 1).to_multiset().count(k) == s.take(i).to_multiset().count(k)
                + (if k == s[i] {
                1nat
            } else {
                0nat
            }),
{
    broadcast use vstd::multiset::group_multiset_axioms;

    assert(s.take(i + 1) =~= s.take(i).push(s[i]));
    s.take(i).to_multiset_ensures();
    assert(s.take(i).push(s[i]).to_multiset() =~= s.take(i).to_multiset().insert(s[i]));
}

/// Shrinking an unprocessed suffix by its first element lowers that
/// element's occurrence count by one and leaves the others unchanged.
proof fn lemma_skip_count_step(s: Seq<Seq<char>>, i: int)
    requires
        0 <= i < s.len(),
    ensures
        forall|k: Seq<char>|
            #[trigger] s.skip(i).to_multiset().count(k) == s.skip(i + 1).to_multiset().count(k)
                + (if k == s[i] {
                1nat
            } else {
                0nat
            }),
        s.skip(i).to_multiset().count(s[i]) > 0,
{
    broadcast use vstd::multiset::group_multiset_axioms;

    assert(s.skip(i).remove(0) =~= s.skip(i + 1));
    s.skip(i).to_multiset_ensures();
    assert(s.skip(i)[0] == s[i]);
    assert(s.skip(i).contains(s[i]));
    assert(s.skip(i).remove(0).to_multiset() =~= s.skip(i).to_multiset().remove(s.skip(i)[0]));
}

/// An empty sequence holds no occurrences.
proof fn lemma_count_empty(s: Seq<Seq<char>>)
    requires
        s.len() == 0,
    ensures
        forall|k: Seq<char>| #[trigger] s.to_multiset().count(k) == 0nat,
{
    broadcast use vstd::multiset::group_multiset_axioms;

    s.to_multiset_ensures();
    assert forall|k: Seq<char>| #[trigger] s.to_multiset().count(k) == 0nat by {
        assert(!s.contains(k));
    }
}

/// A sequence's empty prefix holds no occurrences.
proof fn lemma_take_zero_count(s: Seq<Seq<char>>)
    ensures
        forall|k: Seq<char>| #[trigger] s.take(0).to_multiset().count(k) == 0nat,
{
    broadcast use vstd::multiset::group_multiset_axioms;

    assert(s.take(0) =~= Seq::<Seq<char>>::empty());
    s.take(0).to_multiset_ensures();
    assert forall|k: Seq<char>| #[trigger] s.take(0).to_multiset().count(k) == 0nat by {
        assert(!s.take(0).contains(k));
    }
}


/// Whether `t` occurs in `tags`, by exact string equality.
fn tag_in(tags: &Vec<Tag>, t: &Tag) -> (b: bool)
    ensures
        b == tags.deep_view().contains(t@),
{
    let mut i: usize = 0;
    while i < tags.len()
        invariant
            i <= tags.len(),
            forall|j: int| 0 <= j < i ==> #[trigger] tags.deep_view()[j] != t@,
        decreases tags.len() - i,
    {
        if tags[i].0 == t.0 {
            proof {
                assert(tags.deep_view()[i as int] == t@);
            }
            return true;
        }
        i = i + 1;
    }
    false
}

/// The match predicate of one item against a query, applied directly to the
/// item's live tag list and description.
fn item_matches_exec(item: &TodoItem, sp: &SearchParams) -> (b: bool)
    ensures
        b == item_matches(item@, sp@),
{
    if item.done {
        return false;
    }
    let mut i: usize = 0;
    while i < sp.tags.len()
        invariant
            i <= sp.tags.len(),
            !item@.done,
            forall|j: int| 0 <= j < i ==> !item@.tags.contains(#[trigger] sp@.tags[j]),
        decreases sp.tags.len() - i,
    {
        let qt = &sp.tags[i];
        proof {
            assert(qt@ == sp@.tags[i as int]);
        }
        if tag_in(&item.tags, qt) {
            return true;
        }
        i = i + 1;
    }
    let mut j: usize = 0;
    while j < sp.words.len()
        invariant
            j <= sp.words.len(),
            !item@.done,
            forall|l: int| 0 <= l < sp@.tags.len() ==> !item@.tags.contains(#[trigger] sp@.tags[l]),
            forall|l: int|
                0 <= l < j ==> !contains_match(#[trigger] sp@.words[l], item@.description),
        decreases sp.words.len() - j,
    {
        let qw = &sp.words[j];
        proof {
            assert(qw@ == sp@.words[j as int]);
        }
        if contains_word(qw.0.as_str(), item.description.value()) {
            return true;
        }
        j = j + 1;
    }
    false
}


/// Some query word is a subsequence of `key`.
pub open spec fn any_word_matches(words: Seq<Seq<char>>, key: Seq<char>) -> bool {
    exists|i: int| 0 <= i < words.len() && is_subseq_of(#[trigger] words[i], key)
}

/// The buckets the tag lookup produces: for each query tag present in the
/// index, in query order, the bucket filed under it.
pub open spec fn tag_buckets_model(m: Seq<EntryModel>, tags: Seq<Seq<char>>) -> Seq<Seq<u64>>
    decreases tags.len(),
{
    if tags.len() == 0 {
        Seq::empty()
    } else {
        let rest = tag_buckets_model(m, tags.drop_first());
        if has_key(m, tags[0]) {
            seq![bucket_of(m, tags[0])] + rest
        } else {
            rest
        }
    }
}

/// The buckets the word scan produces: for each index entry whose key some
/// query word matches, in entry order, its bucket.
pub open spec fn word_buckets_model(m: Seq<EntryModel>, words: Seq<Seq<char>>) -> Seq<Seq<u64>>
    decreases m.len(),
{
    if m.len() == 0 {
        Seq::empty()
    } else {
        let rest = word_buckets_model(m.drop_first(), words);
        if any_word_matches(words, m[0].key) {
            seq![m[0].indices] + rest
        } else {
            rest
        }
    }
}

/// `v` lies in some bucket of `bs`.
pub open spec fn appears(bs: Seq<Seq<u64>>, v: u64) -> bool {
    exists|i: int| 0 <= i < bs.len() && #[trigger] bs[i].contains(v)
}

/// An index the tag lookup produces: filed under some query tag.
pub open spec fn tag_candidate(m: Seq<EntryModel>, q: QueryModel, v: u64) -> bool {
    exists|i: int| 0 <= i < q.tags.len() && bucket_of(m, #[trigger] q.tags[i]).contains(v)
}

/// An index the word scan produces: filed under some key that a query word
/// matches.
pub open spec fn word_candidate(m: Seq<EntryModel>, q: QueryModel, v: u64) -> bool {
    exists|j: int|
        0 <= j < m.len() && any_word_matches(q.words, #[trigger] m[j].key) && m[j].indices.contains(
            v,
        )
}

/// The tag lookup's buckets hold exactly the indices filed under the query
/// tags.
proof fn lemma_tag_buckets_mem(m: Seq<EntryModel>, tags: Seq<Seq<char>>, v: u64)
    ensures
        appears(tag_buckets_model(m, tags), v) <==> exists|i: int|
            0 <= i < tags.len() && bucket_of(m, #[trigger] tags[i]).contains(v),
    decreases tags.len(),
{
    let model = tag_buckets_model(m, tags);
    if tags.len() == 0 {
    } else {
        let rest_tags = tags.drop_first();
        let rest = tag_buckets_model(m, rest_tags);
        lemma_tag_buckets_mem(m, rest_tags, v);
        if appears(model, v) {
            let i = choose|i: int| 0 <= i < model.len() && #[trigger] model[i].contains(v);
            if has_key(m, tags[0]) && i == 0 {
                assert(bucket_of(m, tags[0]).contains(v));
            } else {
                let off: int = if has_key(m, tags[0]) {
                    1
                } else {
                    0
                };
                assert(rest[i - off].contains(v));
                assert(appears(rest, v));
                let j = choose|j: int|
                    0 <= j < rest_tags.len() && bucket_of(m, #[trigger] rest_tags[j]).contains(v);
                assert(tags[j + 1] == rest_tags[j]);
            }
        }
        if exists|i: int| 0 <= i < tags.len() && bucket_of(m, #[trigger] tags[i]).contains(v) {
            let i = choose|i: int|
                0 <= i < tags.len() && bucket_of(m, #[trigger] tags[i]).contains(v);
            if i == 0 {
                assert(has_key(m, tags[0]));
                assert(model[0].contains(v));
                assert(appears(model, v));
            } else {
                assert(rest_tags[i - 1] == tags[i]);
                assert(appears(rest, v));
                let j = choose|j: int| 0 <= j < rest.len() && #[trigger] rest[j].contains(v);
                let off: int = if has_key(m, tags[0]) {
                    1
                } else {
                    0
                };
                assert(model[j + off].contains(v));
                assert(appears(model, v));
            }
        }
    }
}

/// The word scan's buckets hold exactly the indices filed under matching
/// keys.
proof fn lemma_word_buckets_mem(m: Seq<EntryModel>, words: Seq<Seq<char>>, v: u64)
    ensures
        appears(word_buckets_model(m, words), v) <==> exists|j: int|
            0 <= j < m.len() && any_word_matches(words, #[trigger] m[j].key)
                && m[j].indices.contains(v),
    decreases m.len(),
{
    let model = word_buckets_model(m, words);
    if m.len() == 0 {
    } else {
        let rest_m = m.drop_first();
        let rest = word_buckets_model(rest_m, words);
        lemma_word_buckets_mem(rest_m, words, v);
        if appears(model, v) {
            let i = choose|i: int| 0 <= i < model.len() && #[trigger] model[i].contains(v);
            if any_word_matches(words, m[0].key) && i == 0 {
                assert(m[0].indices.contains(v));
            } else {
                let off: int = if any_word_matches(words, m[0].key) {
                    1
                } else {
                    0
                };
                assert(rest[i - off].contains(v));
                assert(appears(rest, v));
                let j = choose|j: int|
                    0 <= j < rest_m.len() && any_word_matches(words, #[trigger] rest_m[j].key)
                        && rest_m[j].indices.contains(v);
                assert(m[j + 1] == rest_m[j]);
            }
        }
        if exists|j: int|
            0 <= j < m.len() && any_word_matches(words, #[trigger] m[j].key)
                && m[j].indices.contains(v) {
            let j = choose|j: int|
                0 <= j < m.len() && any_word_matches(words, #[trigger] m[j].key)
                    && m[j].indices.contains(v);
            if j == 0 {
                assert(model[0].contains(v));
                assert(appears(model, v));
            } else {
                assert(rest_m[j - 1] == m[j]);
                assert(appears(rest, v));
                let l = choose|l: int| 0 <= l < rest.len() && #[trigger] rest[l].contains(v);
                let off: int = if any_word_matches(words, m[0].key) {
                    1
                } else {
                    0
                };
                assert(model[l + off].contains(v));
                assert(appears(model, v));
            }
        }
    }
}

/// With no query words, the word scan produces nothing.
proof fn lemma_word_buckets_empty(m: Seq<EntryModel>, words: Seq<Seq<char>>)
    requires
        words.len() == 0,
    ensures
        word_buckets_model(m, words) == Seq::<Seq<u64>>::empty(),
    decreases m.len(),
{
    if m.len() > 0 {
        lemma_word_buckets_empty(m.drop_first(), words);
    }
}

/// The bucket for one query tag, looked up by exact key match.
fn tag_bucket(m: &IndexMap, t: &Tag) -> (r: Option<Vec<u64>>)
    requires
        crate::index_map::keys_distinct(m@),
    ensures
        r is Some <==> has_key(m@, t@),
        r matches Some(b) ==> b@ == bucket_of(m@, t@),
{
    m.bucket_clone(&t.0)
}

/// One entry's bucket, when some query word matches its key.
fn entry_matching_bucket(e: &IndexEntry, words: &Vec<SearchWord>) -> (r: Option<Vec<u64>>)
    ensures
        r is Some <==> any_word_matches(words.deep_view(), e@.key),
        r matches Some(b) ==> b@ == e@.indices,
{
    let mut i: usize = 0;
    while i < words.len()
        invariant
            i <= words.len(),
            forall|j: int|
                0 <= j < i ==> !is_subseq_of(#[trigger] words.deep_view()[j], e@.key),
        decreases words.len() - i,
    {
        let w = &words[i];
        proof {
            assert(w@ == words.deep_view()[i as int]);
        }
        if crate::matcher::matches_word(w.0.as_str(), e.key.as_str()) {
            return Some(crate::index_map::copy_bucket(&e.indices));
        }
        i = i + 1;
    }
    None
}

/// Relies on rayon's `par_iter().filter_map(..).collect()` over the query
/// tags: the closure is applied to each tag independently, and collecting
/// into a `Vec` keeps the results in input order (splits are positional and
/// the reducer concatenates the left half before the right).
#[verifier::external_body]
fn par_tag_buckets(m: &IndexMap, tags: &Vec<Tag>) -> (r: Vec<Vec<u64>>)
    requires
        crate::index_map::keys_distinct(m@),
    ensures
        r.deep_view() == tag_buckets_model(m@, tags.deep_view()),
{
    tags.par_iter().filter_map(|t| tag_bucket(m, t)).collect()
}

/// Relies on rayon's `par_iter().filter_map(..).collect()` over the word
/// index entries: each key's match test runs independently, and collecting
/// into a `Vec` keeps the surviving buckets in entry order (splits are
/// positional and the reducer concatenates the left half before the right).
#[verifier::external_body]
fn par_word_buckets(m: &IndexMap, words: &Vec<SearchWord>) -> (r: Vec<Vec<u64>>)
    ensures
        r.deep_view() == word_buckets_model(m@, words.deep_view()),
{
    m.entries.par_iter().filter_map(|e| entry_matching_bucket(e, words)).collect()
}

/// Concatenates the collected buckets into one list of indices.
fn flatten_buckets(bs: &Vec<Vec<u64>>) -> (r: Vec<u64>)
    ensures
        forall|v: u64| #[trigger] r@.contains(v) <==> appears(bs.deep_view(), v),
{
    let mut r: Vec<u64> = Vec::new();
    let mut i: usize = 0;
    while i < bs.len()
        invariant
            i <= bs.len(),
            forall|v: u64| #[trigger] r@.contains(v) <==> appears(bs.deep_view().take(i as int), v),
        decreases bs.len() - i,
    {
        let b = &bs[i];
        let mut j: usize = 0;
        while j < b.len()
            invariant
                i < bs.len(),
                j <= b.len(),
                b@ == bs.deep_view()[i as int],
                forall|v: u64| #[trigger] r@.contains(v) <==> appears(
                    bs.deep_view().take(i as int),
                    v,
                ) || b@.take(j as int).contains(v),
            decreases b.len() - j,
        {
            let ghost prev = r@;
            r.push(b[j]);
            proof {
                assert forall|v: u64| #[trigger] r@.contains(v) <==> appears(
                    bs.deep_view().take(i as int),
                    v,
                ) || b@.take(j as int + 1).contains(v) by {
                    assert(r@ == prev.push(b@[j as int]));
                    assert(b@.take(j as int + 1) =~= b@.take(j as int).push(b@[j as int]));
                    if r@.contains(v) {
                        let l = choose|l: int| 0 <= l < r@.len() && r@[l] == v;
                        if l < prev.len() {
                            assert(prev.contains(v));
                        } else {
                            assert(v == b@[j as int]);
                            assert(b@.take(j as int + 1).last() == v);
                            assert(b@.take(j as int + 1).contains(v));
                        }
                    }
                    if appears(bs.deep_view().take(i as int), v) || b@.take(
                        j as int + 1,
                    ).contains(v) {
                        if b@.take(j as int + 1).contains(v) {
                            let l = choose|l: int|
                                0 <= l < j + 1 && #[trigger] b@.take(j as int + 1)[l] == v;
                            if l < j {
                                assert(b@.take(j as int)[l] == v);
                                assert(b@.take(j as int).contains(v));
                                assert(prev.contains(v));
                            } else {
                                assert(r@.last() == v);
                            }
                        } else {
                            assert(prev.contains(v));
                        }
                        if prev.contains(v) {
                            let l2 = choose|l2: int| 0 <= l2 < prev.len() && prev[l2] == v;
                            assert(r@[l2] == v);
                        }
                        assert(r@.contains(v));
                    }
                }
            }
            j = j + 1;
        }
        proof {
            assert(b@.take(b.len() as int) =~= b@);
            assert forall|v: u64| #[trigger] r@.contains(v) <==> appears(
                bs.deep_view().take(i as int + 1),
                v,
            ) by {
                let pre = bs.deep_view().take(i as int);
                let cur = bs.deep_view().take(i as int + 1);
                assert(cur =~= pre.push(bs.deep_view()[i as int]));
                if appears(pre, v) {
                    let l = choose|l: int| 0 <= l < pre.len() && #[trigger] pre[l].contains(v);
                    assert(cur[l].contains(v));
                    assert(appears(cur, v));
                }
                if b@.contains(v) {
                    assert(cur[i as int].contains(v));
                    assert(appears(cur, v));
                }
                if appears(cur, v) {
                    let l = choose|l: int| 0 <= l < cur.len() && #[trigger] cur[l].contains(v);
                    if l < i {
                        assert(pre[l].contains(v));
                        assert(appears(pre, v));
                    } else {
                        assert(b@.contains(v));
                    }
                }
            }
        }
        i = i + 1;
    }
    proof {
        assert(bs.deep_view().take(bs.len() as int) =~= bs.deep_view());
    }
    r
}

/// Ascending order.
pub open spec fn sorted_u64(s: Seq<u64>) -> bool {
    forall|a: int, b: int| 0 <= a < b < s.len() ==> s[a] <= s[b]
}

/// Strictly ascending order.
pub open spec fn strictly_sorted_u64(s: Seq<u64>) -> bool {
    forall|a: int, b: int| 0 <= a < b < s.len() ==> s[a] < s[b]
}

/// Inserting an element anywhere adds exactly one occurrence of it.
proof fn lemma_insert_multiset(s: Seq<u64>, p: int, x: u64)
    requires
        0 <= p <= s.len(),
    ensures
        s.insert(p, x).to_multiset() == s.to_multiset().insert(x),
{
    broadcast use vstd::multiset::group_multiset_axioms;

    vstd::seq_lib::lemma_multiset_commutative(s.take(p), s.skip(p));
    assert(s =~= s.take(p) + s.skip(p));
    vstd::seq_lib::lemma_multiset_commutative(s.take(p) + seq![x], s.skip(p));
    vstd::seq_lib::lemma_multiset_commutative(s.take(p), seq![x]);
    assert(s.insert(p, x) =~= (s.take(p) + seq![x]) + s.skip(p));
    assert(seq![x] =~= Seq::<u64>::empty().push(x));
    Seq::<u64>::empty().to_multiset_ensures();
    assert(seq![x].to_multiset() =~= Multiset::<u64>::empty().insert(x));
    assert(s.insert(p, x).to_multiset() =~= s.to_multiset().insert(x));
}

/// Sorts the collected indices ascending, keeping the same multiset.
fn sort_indices(v: &mut Vec<u64>)
    ensures
        sorted_u64(final(v)@),
        final(v)@.to_multiset() == old(v)@.to_multiset(),
{
    broadcast use vstd::multiset::group_multiset_axioms;

    let ghost m_orig = v@.to_multiset();
    let mut i: usize = 1;
    while i < v.len()
        invariant
            1 <= i || v@.len() == 0,
            i <= v.len() || v@.len() == 0,
            v@.to_multiset() == m_orig,
            forall|a: int, b: int| 0 <= a < b < i && b < v@.len() ==> v@[a] <= v@[b],
        decreases v.len() - i,
    {
        let ghost before = v@;
        let x = v.remove(i);
        proof {
            before.to_multiset_ensures();
            assert(v@.to_multiset() == before.to_multiset().remove(x));
        }
        let ghost mid = v@;
        let mut p: usize = i;
        while p > 0 && v[p - 1] > x
            invariant
                p <= i,
                i < before.len(),
                v@ == mid,
                mid.len() == before.len() - 1,
                forall|b: int| p <= b < i ==> v@[b] > x,
            decreases p,
        {
            p = p - 1;
        }
        v.insert(p, x);
        proof {
            lemma_insert_multiset(mid, p as int, x);
            assert(mid.to_multiset().insert(x) =~= before.to_multiset());
            assert(v@.to_multiset() == m_orig);
            assert forall|a: int, b: int| 0 <= a < b < i + 1 && b < v@.len() implies v@[a]
                <= v@[b] by {
                if b < p {
                    assert(v@[a] == before[a] && v@[b] == before[b]);
                } else if b == p {
                    assert(v@[b] == x);
                    if p > 0 {
                        assert(v@[a] == before[a]);
                        assert(before[a] <= before[p - 1]);
                        assert(before[p - 1] <= x);
                    }
                } else {
                    assert(v@[b] == mid[b - 1] && mid[b - 1] == before[b - 1]);
                    if a < p {
                        assert(v@[a] == before[a]);
                        if b - 1 >= i {
                            assert(false);
                        }
                        assert(before[a] <= before[b - 1]);
                    } else if a == p {
                        assert(v@[a] == x);
                        assert(mid[b - 1] > x || before[b - 1] >= x);
                    } else {
                        assert(v@[a] == before[a - 1]);
                        assert(before[a - 1] <= before[b - 1]);
                    }
                }
            }
        }
        i = i + 1;
    }
}

/// Drops duplicates from a sorted list, leaving its distinct values in
/// strictly ascending order.
fn dedup_sorted(v: &Vec<u64>) -> (r: Vec<u64>)
    requires
        sorted_u64(v@),
    ensures
        strictly_sorted_u64(r@),
        forall|x: u64| #[trigger] r@.contains(x) <==> v@.contains(x),
{
    let mut r: Vec<u64> = Vec::new();
    let mut i: usize = 0;
    while i < v.len()
        invariant
            i <= v.len(),
            sorted_u64(v@),
            strictly_sorted_u64(r@),
            forall|x: u64| #[trigger] r@.contains(x) <==> v@.take(i as int).contains(x),
            r@.len() > 0 <==> i > 0,
            i > 0 ==> r@.len() > 0 && r@.last() == v@[i as int - 1],
        decreases v.len() - i,
    {
        let ghost prev = r@;
        let x = v[i];
        let push_it = if r.len() == 0 {
            true
        } else {
            *r.last().unwrap() != x
        };
        if push_it {
            r.push(x);
            proof {
                assert forall|a: int, b: int| 0 <= a < b < r@.len() implies r@[a] < r@[b] by {
                    if b == r@.len() - 1 && prev.len() > 0 {
                        assert(r@[b] == x);
                        assert(prev.last() == v@[i as int - 1]);
                        assert(prev.last() != x);
                        assert(v@[i as int - 1] <= v@[i as int]);
                        if a < b - 1 {
                            assert(prev[a] < prev[b - 1]);
                        }
                        assert(r@[a] <= prev.last());
                    }
                }
            }
        }
        proof {
            assert(v@.take(i as int + 1) =~= v@.take(i as int).push(x));
            assert forall|y: u64| #[trigger] r@.contains(y) <==> v@.take(i as int + 1).contains(
                y,
            ) by {
                let cur = v@.take(i as int + 1);
                assert(cur.last() == x);
                if r@.contains(y) {
                    let l = choose|l: int| 0 <= l < r@.len() && r@[l] == y;
                    if l < prev.len() {
                        assert(prev.contains(y));
                        assert(v@.take(i as int).contains(y));
                        let l2 = choose|l2: int| 0 <= l2 < i && v@.take(i as int)[l2] == y;
                        assert(cur[l2] == y);
                        assert(cur.contains(y));
                    } else {
                        assert(y == x);
                        assert(cur.contains(y));
                    }
                }
                if cur.contains(y) {
                    let l = choose|l: int| 0 <= l < cur.len() && cur[l] == y;
                    if l < i {
                        assert(v@.take(i as int).contains(y));
                        assert(prev.contains(y));
                        if push_it {
                            let l2 = choose|l2: int| 0 <= l2 < prev.len() && prev[l2] == y;
                            assert(r@[l2] == y);
                        }
                        assert(r@.contains(y));
                    } else {
                        assert(y == x);
                        if push_it {
                            assert(r@.last() == x);
                        } else {
                            assert(prev.last() == x);
                        }
                        assert(r@.contains(y));
                    }
                }
            }
        }
        i = i + 1;
    }
    proof {
        assert(v@.take(v.len() as int) =~= v@);
    }
    r
}


/// Concatenation holds exactly the members of both parts.
proof fn lemma_concat_contains(a: Seq<u64>, b: Seq<u64>)
    ensures
        forall|v: u64| #[trigger] (a + b).contains(v) <==> a.contains(v) || b.contains(v),
{
    assert forall|v: u64| #[trigger] (a + b).contains(v) <==> a.contains(v) || b.contains(v) by {
        if (a + b).contains(v) {
            let l = choose|l: int| 0 <= l < (a + b).len() && (a + b)[l] == v;
            if l < a.len() {
                assert(a[l] == v);
            } else {
                assert(b[l - a.len()] == v);
            }
        }
        if a.contains(v) {
            let l = choose|l: int| 0 <= l < a.len() && a[l] == v;
            assert((a + b)[l] == v);
        }
        if b.contains(v) {
            let l = choose|l: int| 0 <= l < b.len() && b[l] == v;
            assert((a + b)[a.len() + l] == v);
        }
    }
}

/// Appends all of `src` to `dst`.
fn append_all(dst: &mut Vec<u64>, src: &Vec<u64>)
    ensures
        final(dst)@ == old(dst)@ + src@,
{
    let mut i: usize = 0;
    while i < src.len()
        invariant
            i <= src.len(),
            dst@ == old(dst)@ + src@.take(i as int),
        decreases src.len() - i,
    {
        dst.push(src[i]);
        proof {
            assert(dst@ =~= old(dst)@ + src@.take(i as int + 1));
        }
        i = i + 1;
    }
    proof {
        assert(src@.take(src.len() as int) =~= src@);
        assert(dst@ =~= old(dst)@ + src@);
    }
}

/// Total log size at which search switches from the linear scan to the
/// index-assisted lookup.
pub const INDEX_SEARCH_THRESHOLD: usize = 1500;

/// The record store. Position `i` of the log always holds the item with
/// index `i`; the two indices file exactly the tag and word occurrences of
/// the not-done items.
#[derive(Debug)]
pub struct TodoList {
    top_index: Index,
    items: Vec<TodoItem>,
    tags_index: IndexMap,
    word_index: IndexMap,
}

impl View for TodoList {
    type V = Seq<ItemModel>;

    closed spec fn view(&self) -> Seq<ItemModel> {
        self.items.deep_view()
    }
}

impl TodoList {
    /// Well-formedness: the log is dense (item `i` carries index `i`, and
    /// the next index to assign equals the log length), and each index files
    /// under every key exactly the occurrences of that key in the live items.
    pub closed spec fn wf(&self) -> bool {
        &&& self.top_index@ == self@.len()
        &&& forall|i: int| 0 <= i < self@.len() ==> (#[trigger] self@[i].index) == i as u64
        &&& map_wf(self.tags_index@)
        &&& map_wf(self.word_index@)
        &&& forall|k: Seq<char>, v: u64|
            #[trigger] bucket_count(self.tags_index@, k, v) == if v < self@.len() {
                item_tag_occ(self@[v as int], k)
            } else {
                0
            }
        &&& forall|k: Seq<char>, v: u64|
            #[trigger] bucket_count(self.word_index@, k, v) == if v < self@.len() {
                item_word_occ(self@[v as int], k)
            } else {
                0
            }
    }

    pub fn new() -> (r: TodoList)
        ensures
            r.wf(),
            r@ == Seq::<ItemModel>::empty(),
    {
        let r = TodoList {
            top_index: Index::new(0),
            items: Vec::new(),
            tags_index: IndexMap::new(),
            word_index: IndexMap::new(),
        };
        proof {
            assert(r@ =~~= Seq::<ItemModel>::empty());
            assert forall|k: Seq<char>, v: u64| #[trigger] bucket_count(r.tags_index@, k, v) == 0nat by {
                assert(!has_key(r.tags_index@, k));
                Seq::<u64>::empty().to_multiset_ensures();
            }
            assert forall|k: Seq<char>, v: u64| #[trigger] bucket_count(r.word_index@, k, v) == 0nat by {
                assert(!has_key(r.word_index@, k));
                Seq::<u64>::empty().to_multiset_ensures();
            }
        }
        r
    }

    pub fn with_capacity(capacity: usize) -> (r: TodoList)
        ensures
            r.wf(),
            r@ == Seq::<ItemModel>::empty(),
    {
        let r = TodoList {
            top_index: Index::new(0),
            items: Vec::with_capacity(capacity),
            tags_index: IndexMap::new(),
            word_index: IndexMap::new(),
        };
        proof {
            assert(r@ =~~= Seq::<ItemModel>::empty());
            assert forall|k: Seq<char>, v: u64| #[trigger] bucket_count(r.tags_index@, k, v) == 0nat by {
                assert(!has_key(r.tags_index@, k));
                Seq::<u64>::empty().to_multiset_ensures();
            }
            assert forall|k: Seq<char>, v: u64| #[trigger] bucket_count(r.word_index@, k, v) == 0nat by {
                assert(!has_key(r.word_index@, k));
                Seq::<u64>::empty().to_multiset_ensures();
            }
        }
        r
    }

    /// Constructs a new not-done item at the next index, appends it to the
    /// log, and files its index under every tag and every description word
    /// (once per occurrence). Always succeeds.
    pub fn push(&mut self, description: Description, tags: Vec<Tag>) -> (item: TodoItem)
        requires
            old(self).wf(),
            old(self)@.len() < u64::MAX,
        ensures
            final(self).wf(),
            final(self)@ == old(self)@.push(item@),
            item@ == (ItemModel {
                index: old(self)@.len() as u64,
                description: description@,
                tags: tags.deep_view(),
                done: false,
            }),
    {
        broadcast use vstd::multiset::group_multiset_axioms;

        let idx: u64 = self.top_index.value();
        let ghost t0 = self.tags_index@;
        let ghost w0 = self.word_index@;
        let ghost tmodels = tags.deep_view();

        let ghost items0 = self.items@;
        proof {
            lemma_take_zero_count(tmodels);
        }
        let mut i: usize = 0;
        while i < tags.len()
            invariant
                i <= tags.len(),
                tags.deep_view() == tmodels,
                self.items@ == items0,
                self.top_index@ == idx,
                self.word_index@ == w0,
                map_wf(self.tags_index@),
                forall|k: Seq<char>, v: u64|
                    v != idx ==> #[trigger] bucket_count(self.tags_index@, k, v) == bucket_count(
                        t0,
                        k,
                        v,
                    ),
                forall|k: Seq<char>|
                    #[trigger] bucket_count(self.tags_index@, k, idx) == bucket_count(t0, k, idx)
                        + tmodels.take(i as int).to_multiset().count(k),
            decreases tags.len() - i,
        {
            let ghost m1 = self.tags_index@;
            let t = &tags[i];
            self.tags_index.insert_occurrence(&t.0, idx);
            proof {
                assert(t@ == tmodels[i as int]);
                lemma_count_after_insert(m1, self.tags_index@, t@, idx);
                lemma_take_count_step(tmodels, i as int);
                assert forall|k: Seq<char>, v: u64| v != idx implies #[trigger] bucket_count(
                    self.tags_index@,
                    k,
                    v,
                ) == bucket_count(t0, k, v) by {
                    assert(bucket_count(self.tags_index@, k, v) == bucket_count(m1, k, v));
                }
                assert forall|k: Seq<char>| #[trigger] bucket_count(self.tags_index@, k, idx)
                    == bucket_count(t0, k, idx) + tmodels.take(i as int + 1).to_multiset().count(
                    k,
                ) by {
                    assert(bucket_count(m1, k, idx) == bucket_count(t0, k, idx) + tmodels.take(
                        i as int,
                    ).to_multiset().count(k));
                    assert(tmodels.take(i as int + 1).to_multiset().count(k) == tmodels.take(
                        i as int,
                    ).to_multiset().count(k) + (if k == tmodels[i as int] {
                        1nat
                    } else {
                        0nat
                    }));
                    if k == t@ {
                        assert(bucket_count(self.tags_index@, k, idx) == bucket_count(m1, k, idx)
                            + 1);
                    } else {
                        assert(bucket_count(self.tags_index@, k, idx) == bucket_count(m1, k, idx));
                    }
                }
            }
            i = i + 1;
        }
        proof {
            assert(tmodels.take(tags.len() as int) =~= tmodels);
        }

        let ghost wmodels = split_words(description@);
        let ghost t1 = self.tags_index@;
        let words = split_into_words(description.value());
        proof {
            lemma_take_zero_count(wmodels);
        }
        let mut j: usize = 0;
        while j < words.len()
            invariant
                j <= words.len(),
                words.deep_view() == wmodels,
                self.items@ == items0,
                self.top_index@ == idx,
                self.tags_index@ == t1,
                map_wf(self.word_index@),
                forall|k: Seq<char>, v: u64|
                    v != idx ==> #[trigger] bucket_count(self.word_index@, k, v) == bucket_count(
                        w0,
                        k,
                        v,
                    ),
                forall|k: Seq<char>|
                    #[trigger] bucket_count(self.word_index@, k, idx) == bucket_count(w0, k, idx)
                        + wmodels.take(j as int).to_multiset().count(k),
            decreases words.len() - j,
        {
            let ghost m1 = self.word_index@;
            let w = &words[j];
            self.word_index.insert_occurrence(w, idx);
            proof {
                assert(w@ == wmodels[j as int]);
                lemma_count_after_insert(m1, self.word_index@, w@, idx);
                lemma_take_count_step(wmodels, j as int);
                assert forall|k: Seq<char>, v: u64| v != idx implies #[trigger] bucket_count(
                    self.word_index@,
                    k,
                    v,
                ) == bucket_count(w0, k, v) by {
                    assert(bucket_count(self.word_index@, k, v) == bucket_count(m1, k, v));
                }
                assert forall|k: Seq<char>| #[trigger] bucket_count(self.word_index@, k, idx)
                    == bucket_count(w0, k, idx) + wmodels.take(j as int + 1).to_multiset().count(
                    k,
                ) by {
                    assert(bucket_count(m1, k, idx) == bucket_count(w0, k, idx) + wmodels.take(
                        j as int,
                    ).to_multiset().count(k));
                    assert(wmodels.take(j as int + 1).to_multiset().count(k) == wmodels.take(
                        j as int,
                    ).to_multiset().count(k) + (if k == wmodels[j as int] {
                        1nat
                    } else {
                        0nat
                    }));
                    if k == w@ {
                        assert(bucket_count(self.word_index@, k, idx) == bucket_count(m1, k, idx)
                            + 1);
                    } else {
                        assert(bucket_count(self.word_index@, k, idx) == bucket_count(m1, k, idx));
                    }
                }
            }
            j = j + 1;
        }
        proof {
            assert(wmodels.take(words.len() as int) =~= wmodels);
        }

        let item = TodoItem::new(Index::new(idx), description, tags, false);
        let copy = item.clone();
        let ghost before = self@;
        self.items.push(copy);
        self.top_index = Index::new(idx + 1);
        proof {
            assert(self@ =~~= before.push(item@));
            let m = self@;
            assert forall|v: int| 0 <= v < m.len() implies (#[trigger] m[v].index) == v as u64 by {
                if v < before.len() {
                    assert(before[v].index == v as u64);
                }
            }
            assert forall|k: Seq<char>, v: u64| #[trigger] bucket_count(self.tags_index@, k, v)
                == (if v < m.len() {
                item_tag_occ(m[v as int], k)
            } else {
                0nat
            }) by {
                if v == idx {
                    assert(bucket_count(t0, k, idx) == 0);
                } else if v < before.len() {
                    assert(m[v as int] == before[v as int]);
                }
            }
            assert forall|k: Seq<char>, v: u64| #[trigger] bucket_count(self.word_index@, k, v)
                == (if v < m.len() {
                item_word_occ(m[v as int], k)
            } else {
                0nat
            }) by {
                if v == idx {
                    assert(bucket_count(w0, k, idx) == 0);
                } else if v < before.len() {
                    assert(m[v as int] == before[v as int]);
                }
            }
        }
        item
    }

    /// Marks the item at `idx` complete. An index never assigned reports
    /// not-found; completing an already-done item is a no-op success that
    /// touches nothing. Otherwise the done flag flips and the item's index
    /// is withdrawn from every tag and word bucket it occupies, once per
    /// occurrence; a bucket left empty loses its key.
    pub fn done_with_index(&mut self, idx: Index) -> (r: Option<Index>)
        requires
            old(self).wf(),
        ensures
            final(self).wf(),
            idx@ >= old(self)@.len() ==> r is None && *final(self) == *old(self),
            idx@ < old(self)@.len() && old(self)@[idx@ as int].done ==> r == Some(idx)
                && *final(self) == *old(self),
            idx@ < old(self)@.len() && !old(self)@[idx@ as int].done ==> r == Some(idx)
                && final(self)@ == old(self)@.update(
                idx@ as int,
                ItemModel {
                    index: old(self)@[idx@ as int].index,
                    description: old(self)@[idx@ as int].description,
                    tags: old(self)@[idx@ as int].tags,
                    done: true,
                },
            ),
    {
        broadcast use vstd::multiset::group_multiset_axioms;

        let i: u64 = idx.value();
        if i >= self.items.len() as u64 {
            return None;
        }
        let iu: usize = i as usize;
        if self.items[iu].done {
            return Some(idx);
        }
        let ghost m0 = self@;
        let ghost t0 = self.tags_index@;
        let ghost w0 = self.word_index@;
        let ghost items0 = self.items@;
        let ghost top0 = self.top_index;
        let item = self.items[iu].clone();
        proof {
            assert(item@ == m0[i as int]);
            assert(!m0[i as int].done);
        }
        let ghost tmodels = item@.tags;

        proof {
            assert(tmodels.skip(0) =~= tmodels);
            assert forall|k: Seq<char>| #[trigger] bucket_count(t0, k, i) == tmodels.skip(
                0,
            ).to_multiset().count(k) by {
                assert(bucket_count(t0, k, i) == item_tag_occ(m0[i as int], k));
            }
        }
        let mut ti: usize = 0;
        while ti < item.tags.len()
            invariant
                ti <= item.tags.len(),
                item.tags.deep_view() == tmodels,
                self.items@ == items0,
                self.top_index == top0,
                self.word_index@ == w0,
                map_wf(self.tags_index@),
                forall|k: Seq<char>, v: u64|
                    v != i ==> #[trigger] bucket_count(self.tags_index@, k, v) == bucket_count(
                        t0,
                        k,
                        v,
                    ),
                forall|k: Seq<char>|
                    #[trigger] bucket_count(self.tags_index@, k, i) == tmodels.skip(
                        ti as int,
                    ).to_multiset().count(k),
            decreases item.tags.len() - ti,
        {
            let t = &item.tags[ti];
            proof {
                lemma_skip_count_step(tmodels, ti as int);
                assert(t@ == tmodels[ti as int]);
                assert(bucket_count(self.tags_index@, t@, i) > 0);
            }
            let ghost m1 = self.tags_index@;
            self.tags_index.remove_occurrence(&t.0, i);
            proof {
                lemma_count_after_remove(m1, self.tags_index@, t@, i);
                assert forall|k: Seq<char>, v: u64| v != i implies #[trigger] bucket_count(
                    self.tags_index@,
                    k,
                    v,
                ) == bucket_count(t0, k, v) by {
                    assert(bucket_count(self.tags_index@, k, v) == bucket_count(m1, k, v));
                }
                assert forall|k: Seq<char>| #[trigger] bucket_count(self.tags_index@, k, i)
                    == tmodels.skip(ti as int + 1).to_multiset().count(k) by {
                    assert(bucket_count(m1, k, i) == tmodels.skip(
                        ti as int,
                    ).to_multiset().count(k));
                    assert(tmodels.skip(ti as int).to_multiset().count(k) == tmodels.skip(
                        ti as int + 1,
                    ).to_multiset().count(k) + (if k == tmodels[ti as int] {
                        1nat
                    } else {
                        0nat
                    }));
                    if k == t@ {
                        assert(bucket_count(self.tags_index@, k, i) == bucket_count(m1, k, i)
                            - 1);
                    } else {
                        assert(bucket_count(self.tags_index@, k, i) == bucket_count(m1, k, i));
                    }
                }
            }
            ti = ti + 1;
        }
        proof {
            lemma_count_empty(tmodels.skip(tmodels.len() as int));
        }

        let ghost t1 = self.tags_index@;
        let ghost wmodels = split_words(item@.description);
        let words = split_into_words(item.description.value());
        proof {
            assert(wmodels.skip(0) =~= wmodels);
            assert forall|k: Seq<char>| #[trigger] bucket_count(w0, k, i) == wmodels.skip(
                0,
            ).to_multiset().count(k) by {
                assert(bucket_count(w0, k, i) == item_word_occ(m0[i as int], k));
            }
        }
        let mut wi: usize = 0;
        while wi < words.len()
            invariant
                wi <= words.len(),
                words.deep_view() == wmodels,
                self.items@ == items0,
                self.top_index == top0,
                self.tags_index@ == t1,
                map_wf(self.word_index@),
                forall|k: Seq<char>, v: u64|
                    v != i ==> #[trigger] bucket_count(self.word_index@, k, v) == bucket_count(
                        w0,
                        k,
                        v,
                    ),
                forall|k: Seq<char>|
                    #[trigger] bucket_count(self.word_index@, k, i) == wmodels.skip(
                        wi as int,
                    ).to_multiset().count(k),
            decreases words.len() - wi,
        {
            let w = &words[wi];
            proof {
                lemma_skip_count_step(wmodels, wi as int);
                assert(w@ == wmodels[wi as int]);
                assert(bucket_count(self.word_index@, w@, i) > 0);
            }
            let ghost m1 = self.word_index@;
            self.word_index.remove_occurrence(w, i);
            proof {
                lemma_count_after_remove(m1, self.word_index@, w@, i);
                assert forall|k: Seq<char>, v: u64| v != i implies #[trigger] bucket_count(
                    self.word_index@,
                    k,
                    v,
                ) == bucket_count(w0, k, v) by {
                    assert(bucket_count(self.word_index@, k, v) == bucket_count(m1, k, v));
                }
                assert forall|k: Seq<char>| #[trigger] bucket_count(self.word_index@, k, i)
                    == wmodels.skip(wi as int + 1).to_multiset().count(k) by {
                    assert(bucket_count(m1, k, i) == wmodels.skip(
                        wi as int,
                    ).to_multiset().count(k));
                    assert(wmodels.skip(wi as int).to_multiset().count(k) == wmodels.skip(
                        wi as int + 1,
                    ).to_multiset().count(k) + (if k == wmodels[wi as int] {
                        1nat
                    } else {
                        0nat
                    }));
                    if k == w@ {
                        assert(bucket_count(self.word_index@, k, i) == bucket_count(m1, k, i)
                            - 1);
                    } else {
                        assert(bucket_count(self.word_index@, k, i) == bucket_count(m1, k, i));
                    }
                }
            }
            wi = wi + 1;
        }
        proof {
            lemma_count_empty(wmodels.skip(wmodels.len() as int));
        }

        let mut done_item = item;
        done_item.done = true;
        self.items.set(iu, done_item);
        proof {
            let updated = ItemModel {
                index: m0[i as int].index,
                description: m0[i as int].description,
                tags: m0[i as int].tags,
                done: true,
            };
            assert(self@ =~~= m0.update(i as int, updated));
            let m = self@;
            assert forall|v: int| 0 <= v < m.len() implies (#[trigger] m[v].index) == v as u64 by {
                if v != i {
                    assert(m0[v].index == v as u64);
                }
            }
            assert forall|k: Seq<char>, v: u64| #[trigger] bucket_count(self.tags_index@, k, v)
                == (if v < m.len() {
                item_tag_occ(m[v as int], k)
            } else {
                0nat
            }) by {
                if v == i {
                    assert(bucket_count(self.tags_index@, k, i) == 0);
                } else {
                    assert(bucket_count(self.tags_index@, k, v) == bucket_count(t0, k, v));
                    if v < m.len() {
                        assert(m[v as int] == m0[v as int]);
                    }
                }
            }
            assert forall|k: Seq<char>, v: u64| #[trigger] bucket_count(self.word_index@, k, v)
                == (if v < m.len() {
                item_word_occ(m[v as int], k)
            } else {
                0nat
            }) by {
                if v == i {
                    assert(bucket_count(self.word_index@, k, i) == 0);
                } else {
                    assert(bucket_count(self.word_index@, k, v) == bucket_count(w0, k, v));
                    if v < m.len() {
                        assert(m[v as int] == m0[v as int]);
                    }
                }
            }
        }
        Some(idx)
    }

    /// Searches by a single scan of the log in ascending index order,
    /// skipping done items and applying the match predicate directly.
    pub fn search_iter(&self, sp: &SearchParams) -> (r: Vec<TodoItem>)
        ensures
            r.deep_view() == matching_items(self@, sp@),
    {
        let mut r: Vec<TodoItem> = Vec::new();
        proof {
            reveal(Seq::filter);
            assert(self@.take(0) =~= Seq::<ItemModel>::empty());
            assert(r.deep_view() =~~= Seq::<ItemModel>::empty());
        }
        let mut i: usize = 0;
        while i < self.items.len()
            invariant
                i <= self.items.len(),
                r.deep_view() == self@.take(i as int).filter(|it: ItemModel| item_matches(it, sp@)),
            decreases self.items.len() - i,
        {
            let ghost prevdeep = r.deep_view();
            let it = &self.items[i];
            proof {
                assert(it@ == self@[i as int]);
            }
            if item_matches_exec(it, sp) {
                r.push(it.clone());
                proof {
                    assert(r.deep_view() =~~= prevdeep.push(it@));
                }
            }
            proof {
                reveal(Seq::filter);
                let cur = self@.take(i as int + 1);
                assert(cur.drop_last() =~= self@.take(i as int));
                assert(cur.last() == self@[i as int]);
                assert(r.deep_view() =~~= cur.filter(|it: ItemModel| item_matches(it, sp@)));
            }
            i = i + 1;
        }
        proof {
            assert(self@.take(self.items.len() as int) =~= self@);
        }
        r
    }

    /// An index the index-assisted lookup would produce for query `q`:
    /// filed under some query tag, or under some word-index key that some
    /// query word matches.
    pub closed spec fn index_candidate(&self, q: QueryModel, v: u64) -> bool {
        tag_candidate(self.tags_index@, q, v) || word_candidate(self.word_index@, q, v)
    }

    /// Strategy equivalence: on a well-formed store, the index-assisted
    /// lookup produces an index exactly when the linear scan's match
    /// predicate selects the item stored there. The two search strategies
    /// therefore return the same set of indices on any log and any query.
    pub proof fn lemma_strategy_equivalence(&self, q: QueryModel, v: u64)
        requires
            self.wf(),
        ensures
            self.index_candidate(q, v) <==> (v < self@.len() && item_matches(
                self@[v as int],
                q,
            )),
    {
        broadcast use vstd::multiset::group_multiset_axioms;

        let m = self@;
        let tm = self.tags_index@;
        let wm = self.word_index@;
        if tag_candidate(tm, q, v) {
            let i = choose|i: int|
                0 <= i < q.tags.len() && bucket_of(tm, #[trigger] q.tags[i]).contains(v);
            bucket_of(tm, q.tags[i]).to_multiset_ensures();
            assert(bucket_count(tm, q.tags[i], v) > 0);
            assert(v < m.len());
            assert(item_tag_occ(m[v as int], q.tags[i]) > 0);
            m[v as int].tags.to_multiset_ensures();
            assert(m[v as int].tags.contains(q.tags[i]));
            assert(item_matches(m[v as int], q));
        }
        if word_candidate(wm, q, v) {
            let j = choose|j: int|
                0 <= j < wm.len() && any_word_matches(q.words, #[trigger] wm[j].key)
                    && wm[j].indices.contains(v);
            lemma_bucket_at(wm, j);
            bucket_of(wm, wm[j].key).to_multiset_ensures();
            assert(bucket_count(wm, wm[j].key, v) > 0);
            assert(v < m.len());
            assert(item_word_occ(m[v as int], wm[j].key) > 0);
            let toks = split_words(m[v as int].description);
            toks.to_multiset_ensures();
            assert(toks.contains(wm[j].key));
            let p = choose|p: int| 0 <= p < toks.len() && toks[p] == wm[j].key;
            let wi = choose|wi: int|
                0 <= wi < q.words.len() && is_subseq_of(#[trigger] q.words[wi], wm[j].key);
            assert(is_subseq_of(q.words[wi], toks[p]));
            assert(contains_match(q.words[wi], m[v as int].description));
            assert(item_matches(m[v as int], q));
        }
        if v < m.len() && item_matches(m[v as int], q) {
            let it = m[v as int];
            if exists|i: int| 0 <= i < q.tags.len() && it.tags.contains(#[trigger] q.tags[i]) {
                let i = choose|i: int|
                    0 <= i < q.tags.len() && it.tags.contains(#[trigger] q.tags[i]);
                it.tags.to_multiset_ensures();
                assert(item_tag_occ(it, q.tags[i]) > 0);
                assert(bucket_count(tm, q.tags[i], v) > 0);
                bucket_of(tm, q.tags[i]).to_multiset_ensures();
                assert(bucket_of(tm, q.tags[i]).contains(v));
                assert(tag_candidate(tm, q, v));
            } else {
                let i = choose|i: int|
                    0 <= i < q.words.len() && contains_match(
                        #[trigger] q.words[i],
                        it.description,
                    );
                let toks = split_words(it.description);
                let p = choose|p: int|
                    0 <= p < toks.len() && is_subseq_of(q.words[i], #[trigger] toks[p]);
                toks.to_multiset_ensures();
                assert(toks.contains(toks[p]));
                assert(item_word_occ(it, toks[p]) > 0);
                assert(bucket_count(wm, toks[p], v) > 0);
                bucket_of(wm, toks[p]).to_multiset_ensures();
                assert(bucket_of(wm, toks[p]).contains(v));
                assert(has_key(wm, toks[p]));
                let j = crate::index_map::key_pos(wm, toks[p]);
                assert(0 <= j < wm.len() && wm[j].key == toks[p]);
                assert(wm[j].indices.contains(v));
                assert(any_word_matches(q.words, wm[j].key));
                assert(word_candidate(wm, q, v));
            }
        }
    }

    /// Searches via the indices: looks up each query tag directly, scans
    /// the word-index keys with the matcher (data-parallel, as each key's
    /// decision is independent and read-only), unions the index sets,
    /// sorts, deduplicates, and fetches the surviving not-done items in
    /// ascending index order.
    #[verifier::loop_isolation(false)]
    pub fn search_with_index(&self, sp: &SearchParams) -> (r: Vec<TodoItem>)
        requires
            self.wf(),
        ensures
            r.deep_view() == matching_items(self@, sp@),
    {
        let ghost q = sp@;
        let tb: Vec<Vec<u64>> = if sp.tags.is_empty() {
            Vec::new()
        } else {
            par_tag_buckets(&self.tags_index, &sp.tags)
        };
        proof {
            if q.tags.len() == 0 {
                assert(tb.deep_view() =~~= tag_buckets_model(self.tags_index@, q.tags));
            }
        }
        let wb: Vec<Vec<u64>> = if sp.words.is_empty() {
            Vec::new()
        } else {
            par_word_buckets(&self.word_index, &sp.words)
        };
        proof {
            if q.words.len() == 0 {
                lemma_word_buckets_empty(self.word_index@, q.words);
                assert(wb.deep_view() =~~= word_buckets_model(self.word_index@, q.words));
            }
        }
        let mut matches = flatten_buckets(&tb);
        let more = flatten_buckets(&wb);
        let ghost matches0 = matches@;
        append_all(&mut matches, &more);
        proof {
            lemma_concat_contains(matches0, more@);
            assert forall|v: u64| #[trigger] matches@.contains(v) <==> self.index_candidate(
                q,
                v,
            ) by {
                lemma_tag_buckets_mem(self.tags_index@, q.tags, v);
                lemma_word_buckets_mem(self.word_index@, q.words, v);
            }
        }
        let ghost unsorted = matches@;
        sort_indices(&mut matches);
        proof {
            unsorted.to_multiset_ensures();
            matches@.to_multiset_ensures();
            assert forall|v: u64| #[trigger] matches@.contains(v) <==> self.index_candidate(
                q,
                v,
            ) by {
                assert(matches@.to_multiset().count(v) == unsorted.to_multiset().count(v));
                assert(matches@.contains(v) <==> unsorted.contains(v));
            }
        }
        let uniq = dedup_sorted(&matches);
        let ghost l = uniq@;
        proof {
            assert forall|v: u64| #[trigger] l.contains(v) <==> self.index_candidate(q, v) by {}
            reveal(Seq::filter);
            assert(self@.take(0) =~= Seq::<ItemModel>::empty());
        }
        let mut r: Vec<TodoItem> = Vec::new();
        proof {
            assert(r.deep_view() =~~= Seq::<ItemModel>::empty());
        }
        let mut j: usize = 0;
        while j < uniq.len()
            invariant
                j <= uniq.len(),
                r.deep_view() == self@.take(
                    if j == 0 {
                        0int
                    } else {
                        l[j - 1] + 1
                    },
                ).filter(|it: ItemModel| item_matches(it, q)),
            decreases uniq.len() - j,
        {
            let v = uniq[j];
            proof {
                assert(l[j as int] == v);
                assert(l.contains(v));
                self.lemma_strategy_equivalence(q, v);
                assert(v < self@.len());
                assert(v < self.items.len() as u64);
            }
            let vu = v as usize;
            proof {
                assert(vu == v);
            }
            let ghost bound: int = if j == 0 {
                0int
            } else {
                l[j - 1] + 1
            };
            let ghost m = self@;
            proof {
                assert forall|u: int| bound <= u < v implies !item_matches(m[u], q) by {
                    if item_matches(m[u], q) {
                        self.lemma_strategy_equivalence(q, u as u64);
                        assert(l.contains(u as u64));
                        let p = choose|p: int| 0 <= p < l.len() && l[p] == u as u64;
                        if p < j {
                            assert(p < j - 1 ==> l[p] < l[j - 1]);
                            assert(l[p] <= l[j - 1]);
                            assert(l[p] < bound);
                        } else {
                            assert(p > j ==> l[j as int] < l[p]);
                            assert(l[p] >= v);
                        }
                        assert(false);
                    }
                }
                if j > 0 {
                    assert(l[j - 1] < l[j as int]);
                }
                assert(0 <= bound <= v as int);
                let sub = m.subrange(bound, v as int);
                assert forall|u: int| 0 <= u < sub.len() implies !item_matches(
                    #[trigger] sub[u],
                    q,
                ) by {
                    assert(sub[u] == m[bound + u]);
                }
                assert(sub.all(|it: ItemModel| !item_matches(it, q)));
                sub.lemma_all_neg_filter_empty(|it: ItemModel| item_matches(it, q));
                assert(m.take(v as int) =~= m.take(bound) + m.subrange(bound, v as int));
                Seq::<ItemModel>::filter_distributes_over_add(
                    m.take(bound),
                    m.subrange(bound, v as int),
                    |it: ItemModel| item_matches(it, q),
                );
                assert(m.take(v as int).filter(|it: ItemModel| item_matches(it, q))
                    =~~= m.take(bound).filter(|it: ItemModel| item_matches(it, q)));
            }
            let ghost prevdeep = r.deep_view();
            let it = &self.items[vu];
            proof {
                assert(it@ == m[v as int]);
                assert(item_matches(it@, q));
            }
            if !it.done {
                r.push(it.clone());
                proof {
                    assert(r.deep_view() =~~= prevdeep.push(it@));
                }
            }
            proof {
                reveal(Seq::filter);
                let cur = m.take(v as int + 1);
                assert(cur.drop_last() =~= m.take(v as int));
                assert(cur.last() == m[v as int]);
                assert(r.deep_view() =~~= cur.filter(|it: ItemModel| item_matches(it, q)));
            }
            j = j + 1;
        }
        proof {
            let m = self@;
            let n = m.len() as int;
            let bound: int = if l.len() == 0 {
                0int
            } else {
                l[l.len() - 1] + 1
            };
            assert forall|u: int| bound <= u < n implies !item_matches(m[u], q) by {
                if item_matches(m[u], q) {
                    self.lemma_strategy_equivalence(q, u as u64);
                    assert(l.contains(u as u64));
                    let p = choose|p: int| 0 <= p < l.len() && l[p] == u as u64;
                    assert(p < l.len() - 1 ==> l[p] < l[l.len() - 1]);
                    assert(l[p] <= l[l.len() - 1]);
                    assert(false);
                }
            }
            if l.len() > 0 {
                let last = l[l.len() - 1];
                assert(l.contains(last));
                self.lemma_strategy_equivalence(q, last);
                assert(last < n);
            }
            assert(0 <= bound <= n);
            let sub = m.subrange(bound, n);
            assert forall|u: int| 0 <= u < sub.len() implies !item_matches(
                #[trigger] sub[u],
                q,
            ) by {
                assert(sub[u] == m[bound + u]);
            }
            assert(sub.all(|it: ItemModel| !item_matches(it, q)));
            sub.lemma_all_neg_filter_empty(|it: ItemModel| item_matches(it, q));
            assert(m.take(n) =~= m.take(bound) + m.subrange(bound, n));
            Seq::<ItemModel>::filter_distributes_over_add(
                m.take(bound),
                m.subrange(bound, n),
                |it: ItemModel| item_matches(it, q),
            );
            assert(m.take(n) =~= m);
            assert(r.deep_view() =~~= matching_items(m, q));
        }
        r
    }

    /// Searches with the strategy chosen by total log size: a linear scan
    /// below the threshold, the index-assisted lookup at or above it. Both
    /// return the same items.
    pub fn search(&self, sp: &SearchParams) -> (r: Vec<TodoItem>)
        requires
            self.wf(),
        ensures
            r.deep_view() == matching_items(self@, sp@),
    {
        if self.items.len() < INDEX_SEARCH_THRESHOLD {
            self.search_iter(sp)
        } else {
            self.search_with_index(sp)
        }
    }

    /// The next index the store will assign.
    pub closed spec fn next_index(&self) -> u64 {
        self.top_index@
    }

    /// How often the tag index files item index `v` under tag `k`.
    pub closed spec fn tag_bucket_count(&self, k: Seq<char>, v: u64) -> nat {
        bucket_count(self.tags_index@, k, v)
    }

    /// How often the word index files item index `v` under word `k`.
    pub closed spec fn word_bucket_count(&self, k: Seq<char>, v: u64) -> nat {
        bucket_count(self.word_index@, k, v)
    }

    /// Whether the tag index holds key `k` at all.
    pub closed spec fn has_tag_key(&self, k: Seq<char>) -> bool {
        has_key(self.tags_index@, k)
    }

    /// Whether the word index holds key `k` at all.
    pub closed spec fn has_word_key(&self, k: Seq<char>) -> bool {
        has_key(self.word_index@, k)
    }

    /// Index density: on every well-formed store the item at log position
    /// `i` carries index `i` — indices 0..len-1 all exist, with no gaps and
    /// no reuse — and the next index to assign equals the log length.
    pub proof fn lemma_index_density(&self)
        requires
            self.wf(),
        ensures
            self.next_index() == self@.len(),
            forall|i: int| 0 <= i < self@.len() ==> (#[trigger] self@[i].index) == i as u64,
    {
    }

    /// After completion an item's indexed footprint is gone: its index is
    /// absent from the bucket of every key, and a key under which no live
    /// item files anything is absent from its mapping altogether.
    pub proof fn lemma_completed_item_unindexed(&self, i: int, k: Seq<char>)
        requires
            self.wf(),
            0 <= i < self@.len(),
            self@[i].done,
        ensures
            self.tag_bucket_count(k, self@[i].index) == 0,
            self.word_bucket_count(k, self@[i].index) == 0,
            (forall|v: int| 0 <= v < self@.len() ==> item_tag_occ(#[trigger] self@[v], k) == 0)
                ==> !self.has_tag_key(k),
            (forall|v: int| 0 <= v < self@.len() ==> item_word_occ(#[trigger] self@[v], k) == 0)
                ==> !self.has_word_key(k),
    {
        broadcast use vstd::multiset::group_multiset_axioms;

        let m = self@;
        assert(m[i].index == i as u64);
        assert(bucket_count(self.tags_index@, k, i as u64) == item_tag_occ(m[i], k));
        assert(bucket_count(self.word_index@, k, i as u64) == item_word_occ(m[i], k));
        if (forall|v: int| 0 <= v < m.len() ==> item_tag_occ(#[trigger] m[v], k) == 0)
            && has_key(self.tags_index@, k) {
            let tm = self.tags_index@;
            let p = crate::index_map::key_pos(tm, k);
            assert(0 <= p < tm.len() && tm[p].key == k);
            assert(tm[p].indices.len() > 0);
            assert(bucket_of(tm, k) == tm[p].indices);
            let x = tm[p].indices[0];
            tm[p].indices.to_multiset_ensures();
            assert(tm[p].indices.contains(x));
            assert(bucket_count(tm, k, x) > 0);
            assert(x < m.len());
            assert(item_tag_occ(m[x as int], k) > 0);
            assert(false);
        }
        if (forall|v: int| 0 <= v < m.len() ==> item_word_occ(#[trigger] m[v], k) == 0)
            && has_key(self.word_index@, k) {
            let wm = self.word_index@;
            let p = crate::index_map::key_pos(wm, k);
            assert(0 <= p < wm.len() && wm[p].key == k);
            assert(wm[p].indices.len() > 0);
            assert(bucket_of(wm, k) == wm[p].indices);
            let x = wm[p].indices[0];
            wm[p].indices.to_multiset_ensures();
            assert(wm[p].indices.contains(x));
            assert(bucket_count(wm, k, x) > 0);
            assert(x < m.len());
            assert(item_word_occ(m[x as int], k) > 0);
            assert(false);
        }
    }

    /// The total number of records in the log, done items included.
    pub fn len(&self) -> (r: usize)
        ensures
            r == self@.len(),
    {
        self.items.len()
    }
}

} // verus!
