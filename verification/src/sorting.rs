//! Verified ascending sorts for label words and for label pairs.
//!
//! Sorting before hashing canonicalizes a multiset of labels, so that the
//! digest does not depend on the order in which neighbours were enumerated.
use vstd::prelude::*;
use vstd::relations::{sorted_by, total_ordering};
use vstd::seq_lib::lemma_sorted_unique;

verus! {

/// The ascending order on label words.
pub open spec fn word_le() -> spec_fn(u64, u64) -> bool {
    |x: u64, y: u64| x <= y
}

/// The ascending lexicographic order on label pairs.
pub open spec fn pair_le() -> spec_fn((u64, u64), (u64, u64)) -> bool {
    |x: (u64, u64), y: (u64, u64)| x.0 < y.0 || (x.0 == y.0 && x.1 <= y.1)
}

/// The ascending sort of a sequence of label words.
pub open spec fn sort_words(s: Seq<u64>) -> Seq<u64> {
    s.sort_by(word_le())
}

/// The ascending lexicographic sort of a sequence of label pairs.
pub open spec fn sort_pairs(s: Seq<(u64, u64)>) -> Seq<(u64, u64)> {
    s.sort_by(pair_le())
}

pub proof fn lemma_word_le_total()
    ensures
        total_ordering(word_le()),
{
}

pub proof fn lemma_pair_le_total()
    ensures
        total_ordering(pair_le()),
{
}

/// A sorted copy of `v`: the unique ascending arrangement of its words.
pub fn sorted_words(v: &Vec<u64>) -> (out: Vec<u64>)
    ensures
        out@ == sort_words(v@),
{
    broadcast use vstd::seq_lib::group_to_multiset_ensures;

    let mut out: Vec<u64> = Vec::new();
    let mut k: usize = 0;
    while k < v.len()
        invariant
            k <= v@.len(),
            out@.to_multiset() == v@.take(k as int).to_multiset(),
            sorted_by(out@, word_le()),
        decreases v@.len() - k,
    {
        let x = v[k];
        let mut pos: usize = 0;
        while pos < out.len() && out[pos] <= x
            invariant
                pos <= out@.len(),
                forall|a: int| 0 <= a < pos ==> out@[a] <= x,
            decreases out@.len() - pos,
        {
            pos += 1;
        }
        let ghost old_out = out@;
        out.insert(pos, x);
        proof {
            assert(out@ == old_out.insert(pos as int, x));
            vstd::seq_lib::to_multiset_insert(old_out, pos as int, x);
            assert(v@.take(k as int + 1) == v@.take(k as int).push(v@[k as int]));
            vstd::seq_lib::to_multiset_build(v@.take(k as int), v@[k as int]);
            assert(v@.take(k as int + 1).to_multiset() == v@.take(k as int).to_multiset().insert(
                v@[k as int],
            ));
            assert forall|a: int, b: int| 0 <= a < b < out@.len() implies #[trigger] word_le()(
                out@[a],
                out@[b],
            ) by {
                if b < pos {
                    assert(out@[a] == old_out[a] && out@[b] == old_out[b]);
                } else if b == pos {
                    assert(out@[a] == old_out[a] && out@[b] == x);
                } else if a < pos {
                    assert(out@[a] == old_out[a] && out@[b] == old_out[b - 1]);
                } else if a == pos {
                    assert(out@[a] == x && out@[b] == old_out[b - 1]);
                    assert(!(old_out[pos as int] <= x));
                    assert(word_le()(old_out[pos as int], old_out[b - 1]) || pos == b - 1);
                } else {
                    assert(out@[a] == old_out[a - 1] && out@[b] == old_out[b - 1]);
                }
            }
        }
        k += 1;
    }
    proof {
        lemma_word_le_total();
        assert(v@.take(v@.len() as int) == v@);
        v@.lemma_sort_by_ensures(word_le());
        lemma_sorted_unique(out@, sort_words(v@), word_le());
        assert(out@ == sort_words(v@));
    }
    out
}

/// A sorted copy of `v`: the unique ascending lexicographic arrangement of its pairs.
pub fn sorted_pairs(v: &Vec<(u64, u64)>) -> (out: Vec<(u64, u64)>)
    ensures
        out@ == sort_pairs(v@),
{
    broadcast use vstd::seq_lib::group_to_multiset_ensures;

    let mut out: Vec<(u64, u64)> = Vec::new();
    let mut k: usize = 0;
    while k < v.len()
        invariant
            k <= v@.len(),
            out@.to_multiset() == v@.take(k as int).to_multiset(),
            sorted_by(out@, pair_le()),
        decreases v@.len() - k,
    {
        let x = v[k];
        let mut pos: usize = 0;
        while pos < out.len() && (out[pos].0 < x.0 || (out[pos].0 == x.0 && out[pos].1 <= x.1))
            invariant
                pos <= out@.len(),
                forall|a: int| 0 <= a < pos ==> pair_le()(#[trigger] out@[a], x),
            decreases out@.len() - pos,
        {
            pos += 1;
        }
        let ghost old_out = out@;
        out.insert(pos, x);
        proof {
            assert(out@ == old_out.insert(pos as int, x));
            vstd::seq_lib::to_multiset_insert(old_out, pos as int, x);
            assert(v@.take(k as int + 1) == v@.take(k as int).push(v@[k as int]));
            vstd::seq_lib::to_multiset_build(v@.take(k as int), v@[k as int]);
            assert(v@.take(k as int + 1).to_multiset() == v@.take(k as int).to_multiset().insert(
                v@[k as int],
            ));
            lemma_pair_le_total();
            assert forall|a: int, b: int| 0 <= a < b < out@.len() implies #[trigger] pair_le()(
                out@[a],
                out@[b],
            ) by {
                if b < pos {
                    assert(out@[a] == old_out[a] && out@[b] == old_out[b]);
                } else if b == pos {
                    assert(out@[a] == old_out[a] && out@[b] == x);
                } else if a < pos {
                    assert(out@[a] == old_out[a] && out@[b] == old_out[b - 1]);
                } else if a == pos {
                    assert(out@[a] == x && out@[b] == old_out[b - 1]);
                    assert(!pair_le()(old_out[pos as int], x));
                    assert(pair_le()(x, old_out[pos as int]));
                    assert(pair_le()(old_out[pos as int], old_out[b - 1]) || pos == b - 1);
                } else {
                    assert(out@[a] == old_out[a - 1] && out@[b] == old_out[b - 1]);
                }
            }
        }
        k += 1;
    }
    proof {
        lemma_pair_le_total();
        assert(v@.take(v@.len() as int) == v@);
        v@.lemma_sort_by_ensures(pair_le());
        lemma_sorted_unique(out@, sort_pairs(v@), pair_le());
        assert(out@ == sort_pairs(v@));
    }
    out
}

} // verus!
