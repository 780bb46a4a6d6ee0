//! The library-wide laws, stated and proved over the same models the
//! function contracts use.
use vstd::prelude::*;

use crate::accum::lemma_lookup_at;
use crate::dict::{admissible, has_space, nonalpha_count, punct_count};
use crate::merge::{combine, lookup, sorted_strict};
use vstd::utf8::encode_utf8;

verus! {

/// A count capped at the largest representable value.
pub open spec fn clamp64(n: nat) -> u64 {
    if n > u64::MAX {
        u64::MAX
    } else {
        n as u64
    }
}

/// How often `t` was admissibly inserted.
pub open spec fn occ(ts: Seq<Seq<char>>, t: Seq<char>) -> nat
    decreases ts.len(),
{
    if ts.len() == 0 {
        0
    } else {
        occ(ts.drop_last(), t) + (if ts.last() == t && admissible(t) {
            1nat
        } else {
            0nat
        })
    }
}

/// One accumulator state follows another by one insertion of `t`: the
/// contract `TermDict::insert` establishes between the old and the new
/// accumulator.
pub open spec fn insert_step(
    before: Seq<(Seq<u8>, u64)>,
    after: Seq<(Seq<u8>, u64)>,
    t: Seq<char>,
) -> bool {
    if admissible(t) {
        forall|k: Seq<u8>| #[trigger]
            lookup(after, k) == (if k == encode_utf8(t) {
                combine(lookup(before, k), Some(1u64))
            } else {
                lookup(before, k)
            })
    } else {
        after == before
    }
}

/// Frequency is preserved under commit.  Starting from an empty
/// accumulator, a sequence of insertions leaves each admissible term
/// with exactly its number of insertions (saturating), and any other
/// key absent.  `TermDict::commit` then promises that the committed
/// frequency of every key is the combination of the prior frequency
/// with exactly this accumulator count, so on a fresh dictionary the
/// frequency of every term equals the number of its admissible
/// insertions.
pub proof fn lemma_frequency_of_inserts(states: Seq<Seq<(Seq<u8>, u64)>>, ts: Seq<Seq<char>>)
    requires
        states.len() == ts.len() + 1,
        states[0].len() == 0,
        forall|i: int|
            0 <= i < ts.len() ==> insert_step(states[i], #[trigger] states[i + 1], ts[i]),
    ensures
        forall|t: Seq<char>| #[trigger]
            lookup(states.last(), encode_utf8(t)) == (if admissible(t) && occ(ts, t) > 0 {
                Some(clamp64(occ(ts, t)))
            } else {
                None
            }),
    decreases ts.len(),
{
    if ts.len() == 0 {
        assert forall|t: Seq<char>| #[trigger] lookup(states.last(), encode_utf8(t)) == None::<
            u64,
        > by {
            crate::merge::lemma_lookup_props(states.last(), encode_utf8(t));
        }
    } else {
        let n = ts.len() as int;
        assert forall|i: int|
            0 <= i < ts.drop_last().len() implies insert_step(
            states.drop_last()[i],
            #[trigger] states.drop_last()[i + 1],
            ts.drop_last()[i],
        ) by {
            assert(states.drop_last()[i] == states[i]);
            assert(states.drop_last()[i + 1] == states[i + 1]);
            assert(insert_step(states[i], states[i + 1], ts[i]));
        }
        lemma_frequency_of_inserts(states.drop_last(), ts.drop_last());
        let prev = states[n - 1];
        let cur = states[n];
        let tn = ts[n - 1];
        assert(states.drop_last().last() == prev);
        assert(states.last() == cur);
        assert(insert_step(prev, cur, tn));
        assert forall|t: Seq<char>| #[trigger] lookup(cur, encode_utf8(t)) == (if admissible(t)
            && occ(ts, t) > 0 {
            Some(clamp64(occ(ts, t)))
        } else {
            None
        }) by {
            assert(ts.drop_last() == ts.take(n - 1));
            assert(occ(ts, t) == occ(ts.drop_last(), t) + (if tn == t && admissible(t) {
                1nat
            } else {
                0nat
            }));
            if encode_utf8(tn) == encode_utf8(t) && tn != t {
                vstd::utf8::encode_utf8_decode_utf8(tn);
                vstd::utf8::encode_utf8_decode_utf8(t);
                assert(false);
            }
            if tn == t && admissible(t) {
                assert(lookup(cur, encode_utf8(t)) == combine(
                    lookup(prev, encode_utf8(t)),
                    Some(1u64),
                ));
            } else {
                if admissible(tn) {
                    assert(encode_utf8(t) != encode_utf8(tn));
                    assert(lookup(cur, encode_utf8(t)) == lookup(prev, encode_utf8(t)));
                } else {
                    assert(cur == prev);
                }
            }
        }
    }
}

/// Prune monotonicity.  Whatever survives the threshold filter was
/// already stored, with the very same count, and that count reaches the
/// threshold; pruning invents nothing.
pub proof fn lemma_prune_monotone(s: Seq<(Seq<u8>, u64)>, t: u64)
    requires
        sorted_strict(s),
    ensures
        forall|k: Seq<u8>|
            #![trigger lookup(s, k)]
            lookup(s.filter((|e: (Seq<u8>, u64)| e.1 >= t)), k) is Some ==> lookup(s, k) == lookup(
                s.filter((|e: (Seq<u8>, u64)| e.1 >= t)),
                k,
            ) && lookup(s.filter((|e: (Seq<u8>, u64)| e.1 >= t)), k).unwrap() >= t,
{
    let pred = (|e: (Seq<u8>, u64)| e.1 >= t);
    let f = s.filter(pred);
    crate::dict::lemma_filter_sorted(s, pred);
    crate::dict::lemma_filter_elems(s, pred);
    assert forall|k: Seq<u8>|
        #![trigger lookup(s, k)]
        lookup(f, k) is Some implies lookup(s, k) == lookup(f, k) && lookup(f, k).unwrap()
        >= t by {
        crate::merge::lemma_lookup_props(f, k);
        let i = choose|i: int| 0 <= i < f.len() && f[i].0 == k && lookup(f, k) == Some(f[i].1);
        s.lemma_filter_pred(pred, i);
        let j = choose|j: int| 0 <= j < s.len() && f[i] == s[j];
        lemma_lookup_at(s, k);
        assert(s[j].0 == k && lookup(s, k) == Some(s[j].1));
    }
}

/// Filter correctness.  No admitted term holds a space, is a single
/// byte or empty, is over a hundred bytes, is more than half ASCII
/// punctuation, or is more than a quarter non-alphabetic; and
/// `TermDict::insert` leaves the accumulator untouched for any term the
/// filter rejects.
pub proof fn lemma_filter_rejections(s: Seq<char>)
    ensures
        admissible(s) ==> encode_utf8(s).len() > 1,
        admissible(s) ==> encode_utf8(s).len() <= 100,
        admissible(s) ==> !has_space(s),
        admissible(s) ==> 2 * punct_count(s) <= encode_utf8(s).len(),
        admissible(s) ==> 4 * nonalpha_count(s) <= encode_utf8(s).len(),
{
}

} // verus!
