//! The subsequence matcher: decides whether a query token matches a
//! vocabulary token, where a match means the target's characters occur in
//! the candidate in the same relative order, not necessarily contiguously.
//! An empty target matches every candidate (scanning consumes no characters).

use vstd::prelude::*;
use vstd::string::StrSliceExecFns;
use vstd::string::StringExecFns;

verus! {

/// `target` occurs in `candidate` as a (not necessarily contiguous)
/// subsequence: each character of `target` can be consumed, in order, by a
/// single left-to-right scan of `candidate`.
pub open spec fn is_subseq_of(target: Seq<char>, candidate: Seq<char>) -> bool
    decreases candidate.len(),
{
    if target.len() == 0 {
        true
    } else if candidate.len() == 0 {
        false
    } else if target[0] == candidate[0] {
        is_subseq_of(target.drop_first(), candidate.drop_first())
    } else {
        is_subseq_of(target, candidate.drop_first())
    }
}

/// `s` split on ASCII space, naively: repeated spaces yield empty tokens,
/// and the empty string yields one empty token.
pub open spec fn split_words(s: Seq<char>) -> Seq<Seq<char>>
    decreases s.len(),
{
    if s.len() == 0 {
        seq![Seq::<char>::empty()]
    } else if s.last() == ' ' {
        split_words(s.drop_last()).push(Seq::<char>::empty())
    } else {
        let rest = split_words(s.drop_last());
        rest.update(rest.len() - 1, rest.last().push(s.last()))
    }
}

/// Some token of `text` (split on spaces) contains `target` as a subsequence.
pub open spec fn contains_match(target: Seq<char>, text: Seq<char>) -> bool {
    exists|i: int| 0 <= i < split_words(text).len() && is_subseq_of(
        target,
        #[trigger] split_words(text)[i],
    )
}

/// Splitting always yields at least one token.
pub proof fn lemma_split_words_nonempty(s: Seq<char>)
    ensures
        split_words(s).len() >= 1,
    decreases s.len(),
{
    if s.len() > 0 {
        lemma_split_words_nonempty(s.drop_last());
    }
}

/// A nonempty target matches itself; with the empty-target-matches policy,
/// every target matches itself.
pub proof fn lemma_matches_refl(t: Seq<char>)
    ensures
        is_subseq_of(t, t),
    decreases t.len(),
{
    if t.len() > 0 {
        lemma_matches_refl(t.drop_first());
    }
}

/// A match never has a target longer than its candidate.
pub proof fn lemma_matches_len(t: Seq<char>, c: Seq<char>)
    requires
        is_subseq_of(t, c),
    ensures
        t.len() <= c.len(),
    decreases c.len(),
{
    if t.len() == 0 {
    } else if c.len() == 0 {
    } else if t[0] == c[0] {
        lemma_matches_len(t.drop_first(), c.drop_first());
    } else {
        lemma_matches_len(t, c.drop_first());
    }
}

/// Whether `word` contains `target` as a character subsequence.
/// An empty `target` matches every word.
pub fn matches_word(target: &str, word: &str) -> (r: bool)
    ensures
        r == is_subseq_of(target@, word@),
{
    let tlen = target.unicode_len();
    let wlen = word.unicode_len();
    let mut ti: usize = 0;
    let mut wi: usize = 0;
    proof {
        assert(target@.skip(0) =~= target@);
        assert(word@.skip(0) =~= word@);
    }
    while ti < tlen && wi < wlen
        invariant
            ti <= tlen,
            wi <= wlen,
            tlen == target@.len(),
            wlen == word@.len(),
            is_subseq_of(target@, word@) == is_subseq_of(
                target@.skip(ti as int),
                word@.skip(wi as int),
            ),
        decreases wlen - wi,
    {
        let tc = target.get_char(ti);
        let wc = word.get_char(wi);
        proof {
            assert(target@.skip(ti as int).drop_first() =~= target@.skip(ti as int + 1));
            assert(word@.skip(wi as int).drop_first() =~= word@.skip(wi as int + 1));
            assert(target@.skip(ti as int)[0] == target@[ti as int]);
            assert(word@.skip(wi as int)[0] == word@[wi as int]);
        }
        if tc == wc {
            ti = ti + 1;
        }
        wi = wi + 1;
    }
    proof {
        if ti == tlen {
            assert(target@.skip(ti as int).len() == 0);
        } else {
            assert(word@.skip(wi as int).len() == 0);
            assert(target@.skip(ti as int).len() > 0);
        }
    }
    ti == tlen
}

/// Splits `s` on ASCII spaces into its tokens.
pub fn split_into_words(s: &str) -> (r: Vec<String>)
    ensures
        r.deep_view() == split_words(s@),
{
    let len = s.unicode_len();
    let mut r: Vec<String> = Vec::new();
    let mut start: usize = 0;
    let mut i: usize = 0;
    proof {
        assert(s@.take(0) =~= Seq::<char>::empty());
        assert(s@.subrange(0, 0) =~= Seq::<char>::empty());
        assert(r.deep_view() =~~= Seq::<Seq<char>>::empty());
        assert(split_words(s@.take(0)) =~~= r.deep_view().push(s@.subrange(0, 0)));
    }
    while i < len
        invariant
            start <= i <= len,
            len == s@.len(),
            split_words(s@.take(i as int)) == r.deep_view().push(
                s@.subrange(start as int, i as int),
            ),
        decreases len - i,
    {
        let c = s.get_char(i);
        let ghost prev = s@.take(i as int);
        let ghost cur = s@.take(i as int + 1);
        proof {
            assert(cur.drop_last() =~= prev);
            assert(cur.last() == s@[i as int]);
        }
        if c == ' ' {
            let w = s.substring_char(start, i);
            r.push(String::from_str(w));
            proof {
                assert(split_words(cur) == split_words(prev).push(Seq::<char>::empty()));
                assert(r.deep_view() =~~= split_words(prev));
                assert(split_words(cur) =~~= r.deep_view().push(
                    s@.subrange(i as int + 1, i as int + 1),
                ));
            }
            start = i + 1;
        } else {
            proof {
                let rest = split_words(prev);
                lemma_split_words_nonempty(prev);
                assert(split_words(cur) == rest.update(rest.len() - 1, rest.last().push(s@[i as int])));
                assert(rest.last() == s@.subrange(start as int, i as int));
                assert(s@.subrange(start as int, i as int).push(s@[i as int]) =~= s@.subrange(
                    start as int,
                    i as int + 1,
                ));
                assert(split_words(cur) =~~= r.deep_view().push(
                    s@.subrange(start as int, i as int + 1),
                ));
            }
        }
        i = i + 1;
    }
    let w = s.substring_char(start, len);
    r.push(String::from_str(w));
    proof {
        assert(s@.take(len as int) =~= s@);
        assert(s@.subrange(start as int, len as int) == w@);
        assert(r.deep_view() =~~= split_words(s@));
    }
    r
}

/// Whether any space-delimited token of `text` contains `target` as a
/// character subsequence.
pub fn contains_word(target: &str, text: &str) -> (r: bool)
    ensures
        r == contains_match(target@, text@),
{
    let words = split_into_words(text);
    let mut k: usize = 0;
    while k < words.len()
        invariant
            words.deep_view() == split_words(text@),
            k <= words.len(),
            forall|j: int| 0 <= j < k ==> !is_subseq_of(target@, #[trigger] split_words(text@)[j]),
        decreases words.len() - k,
    {
        if matches_word(target, words[k].as_str()) {
            proof {
                assert(words[k as int]@ == split_words(text@)[k as int]);
            }
            return true;
        }
        proof {
            assert(words[k as int]@ == split_words(text@)[k as int]);
        }
        k = k + 1;
    }
    false
}

} // verus!
