//! The mathematical model of segment contents — sorted lists of
//! `(key, count)` entries — and the verified merge that sums the counts of
//! coinciding keys.
use vstd::prelude::*;

use crate::order::{bytes_cmp, lemma_lex_trans, lemma_lex_trichotomy, lex_lt, ByteOrd};

verus! {

/// The model of an entry list: each key as a byte sequence with its count.
pub open spec fn ev(s: Seq<(Vec<u8>, u64)>) -> Seq<(Seq<u8>, u64)> {
    s.map_values(|e: (Vec<u8>, u64)| (e.0@, e.1))
}

/// Keys are unique and strictly ascending in lexicographic byte order.
pub open spec fn sorted_strict(s: Seq<(Seq<u8>, u64)>) -> bool {
    forall|i: int, j: int| 0 <= i < j < s.len() ==> lex_lt(s[i].0, s[j].0)
}

/// Every stored count is at least one: an entry records an observation.
pub open spec fn positive_counts(s: Seq<(Seq<u8>, u64)>) -> bool {
    forall|i: int| 0 <= i < s.len() ==> (#[trigger] s[i]).1 >= 1
}

/// The count stored for `k`, or `None` when no entry has key `k`.
pub open spec fn lookup(s: Seq<(Seq<u8>, u64)>, k: Seq<u8>) -> Option<u64>
    decreases s.len(),
{
    if s.len() == 0 {
        None
    } else if s.last().0 == k {
        Some(s.last().1)
    } else {
        lookup(s.drop_last(), k)
    }
}

/// Addition of counts, saturating at the largest representable count.
pub open spec fn cap_add(a: u64, b: u64) -> u64 {
    if a + b > u64::MAX {
        u64::MAX
    } else {
        (a + b) as u64
    }
}

/// The aggregate of two optional counts: present if either is, summed when
/// both are.
pub open spec fn combine(a: Option<u64>, b: Option<u64>) -> Option<u64> {
    match (a, b) {
        (None, None) => None,
        (Some(x), None) => Some(x),
        (None, Some(y)) => Some(y),
        (Some(x), Some(y)) => Some(cap_add(x, y)),
    }
}

/// A present lookup names an entry of the list; an absent one rules every
/// entry out.
pub proof fn lemma_lookup_props(s: Seq<(Seq<u8>, u64)>, k: Seq<u8>)
    ensures
        lookup(s, k) is Some ==> exists|i: int|
            0 <= i < s.len() && s[i].0 == k && lookup(s, k) == Some(s[i].1),
        lookup(s, k) is None ==> forall|i: int| 0 <= i < s.len() ==> s[i].0 != k,
    decreases s.len(),
{
    if s.len() > 0 {
        lemma_lookup_props(s.drop_last(), k);
        if s.last().0 != k && lookup(s.drop_last(), k) is Some {
            let i = choose|i: int|
                0 <= i < s.drop_last().len() && s.drop_last()[i].0 == k && lookup(
                    s.drop_last(),
                    k,
                ) == Some(s.drop_last()[i].1);
            assert(s[i].0 == k && lookup(s, k) == Some(s[i].1));
        }
        if lookup(s, k) is None {
            assert forall|i: int| 0 <= i < s.len() implies s[i].0 != k by {
                if i < s.len() - 1 {
                    assert(s.drop_last()[i] == s[i]);
                }
            }
        }
    }
}

/// In a sorted list whose last key is below `k`, the key `k` is absent.
pub proof fn lemma_lookup_none_above(s: Seq<(Seq<u8>, u64)>, k: Seq<u8>)
    requires
        sorted_strict(s),
        s.len() > 0 ==> lex_lt(s.last().0, k),
    ensures
        lookup(s, k) is None,
{
    lemma_lookup_props(s, k);
    if lookup(s, k) is Some {
        let i = choose|i: int| 0 <= i < s.len() && s[i].0 == k;
        if i < s.len() - 1 {
            lemma_lex_trans(s[i].0, s.last().0, k);
        }
        lemma_lex_trichotomy(k, k);
    }
}

/// Appending an entry whose key is above the last keeps the list sorted.
pub proof fn lemma_sorted_push(s: Seq<(Seq<u8>, u64)>, e: (Seq<u8>, u64))
    requires
        sorted_strict(s),
        s.len() > 0 ==> lex_lt(s.last().0, e.0),
    ensures
        sorted_strict(s.push(e)),
{
    assert forall|i: int, j: int| 0 <= i < j < s.len() + 1 implies lex_lt(
        s.push(e)[i].0,
        s.push(e)[j].0,
    ) by {
        if j == s.len() {
            if i < s.len() - 1 {
                lemma_lex_trans(s[i].0, s.last().0, e.0);
            }
        }
    }
}

/// A fresh byte string with the same contents.
pub fn copy_bytes(v: &Vec<u8>) -> (r: Vec<u8>)
    ensures
        r@ == v@,
{
    let mut r: Vec<u8> = Vec::new();
    let mut k: usize = 0;
    while k < v.len()
        invariant
            0 <= k <= v.len(),
            r@ =~= v@.take(k as int),
        decreases v.len() - k,
    {
        r.push(v[k]);
        k += 1;
    }
    proof {
        assert(v@.take(v@.len() as int) =~= v@);
    }
    r
}

/// Merge two sorted entry lists: the keys of the result are the union of
/// the input keys, each with the (saturating) sum of the counts the inputs
/// store for it.  Coinciding keys are coalesced, never reordered.
pub fn merge_two(a: &Vec<(Vec<u8>, u64)>, b: &Vec<(Vec<u8>, u64)>) -> (r: Vec<(Vec<u8>, u64)>)
    requires
        sorted_strict(ev(a@)),
        sorted_strict(ev(b@)),
        positive_counts(ev(a@)),
        positive_counts(ev(b@)),
    ensures
        sorted_strict(ev(r@)),
        positive_counts(ev(r@)),
        forall|k: Seq<u8>| #[trigger]
            lookup(ev(r@), k) == combine(lookup(ev(a@), k), lookup(ev(b@), k)),
{
    let mut out: Vec<(Vec<u8>, u64)> = Vec::new();
    let mut i: usize = 0;
    let mut j: usize = 0;
    proof {
        assert(ev(out@) =~= Seq::<(Seq<u8>, u64)>::empty());
    }
    while i < a.len() || j < b.len()
        invariant
            0 <= i <= a.len(),
            0 <= j <= b.len(),
            sorted_strict(ev(a@)),
            sorted_strict(ev(b@)),
            positive_counts(ev(a@)),
            positive_counts(ev(b@)),
            sorted_strict(ev(out@)),
            positive_counts(ev(out@)),
            forall|k: Seq<u8>| #[trigger]
                lookup(ev(out@), k) == combine(
                    lookup(ev(a@).take(i as int), k),
                    lookup(ev(b@).take(j as int), k),
                ),
            ev(out@).len() > 0 ==> forall|n: int|
                i <= n < a.len() ==> lex_lt(ev(out@).last().0, #[trigger] ev(a@)[n].0),
            ev(out@).len() > 0 ==> forall|m: int|
                j <= m < b.len() ==> lex_lt(ev(out@).last().0, #[trigger] ev(b@)[m].0),
        decreases a.len() + b.len() - i - j,
    {
        let ghost av = ev(a@);
        let ghost bv = ev(b@);
        let ghost outv = ev(out@);
        let (take_a, take_b): (bool, bool) = if i < a.len() && j < b.len() {
            match bytes_cmp(&a[i].0, &b[j].0) {
                ByteOrd::Before => (true, false),
                ByteOrd::Same => (true, true),
                ByteOrd::After => (false, true),
            }
        } else if i < a.len() {
            (true, false)
        } else {
            (false, true)
        };
        let entry: (Vec<u8>, u64) = if take_a && take_b {
            (copy_bytes(&a[i].0), a[i].1.saturating_add(b[j].1))
        } else if take_a {
            (copy_bytes(&a[i].0), a[i].1)
        } else {
            (copy_bytes(&b[j].0), b[j].1)
        };
        proof {
            let key = entry.0@;
            if take_a {
                assert(av[i as int] == (a@[i as int].0@, a@[i as int].1));
                assert(key == av[i as int].0);
            }
            if take_b {
                assert(bv[j as int] == (b@[j as int].0@, b@[j as int].1));
                assert(key == bv[j as int].0);
            }
            lemma_lookup_none_above(outv, key);
            assert(combine(lookup(av.take(i as int), key), lookup(bv.take(j as int), key))
                is None);
            lemma_sorted_push(outv, (key, entry.1));
        }
        out.push(entry);
        let ghost old_i = i as int;
        let ghost old_j = j as int;
        if take_a {
            i += 1;
        }
        if take_b {
            j += 1;
        }
        proof {
            let key = entry.0@;
            assert(ev(out@) =~= outv.push((key, entry.1)));
            assert(entry.1 >= 1);
            let outv2 = ev(out@);
            assert(outv2.drop_last() =~= outv);
            if take_a {
                assert(av.take(old_i + 1).drop_last() =~= av.take(old_i));
                assert(av.take(old_i + 1).last() == av[old_i]);
            }
            if take_b {
                assert(bv.take(old_j + 1).drop_last() =~= bv.take(old_j));
                assert(bv.take(old_j + 1).last() == bv[old_j]);
            }
            assert forall|k: Seq<u8>| #[trigger] lookup(outv2, k) == combine(
                lookup(av.take(i as int), k),
                lookup(bv.take(j as int), k),
            ) by {
                if k == key {
                    assert(lookup(outv2, k) == Some(entry.1));
                } else {
                    assert(lookup(outv2, k) == lookup(outv, k));
                    if take_a {
                        assert(lookup(av.take(old_i + 1), k) == lookup(av.take(old_i), k));
                    }
                    if take_b {
                        assert(lookup(bv.take(old_j + 1), k) == lookup(bv.take(old_j), k));
                    }
                }
            }
            assert forall|n: int| i <= n < a.len() implies lex_lt(
                outv2.last().0,
                #[trigger] av[n].0,
            ) by {
                if take_a {
                    assert(lex_lt(av[old_i].0, av[n].0));
                } else {
                    assert(lex_lt(bv[old_j].0, av[old_i].0));
                    if n > old_i {
                        lemma_lex_trans(bv[old_j].0, av[old_i].0, av[n].0);
                    }
                }
            }
            assert forall|m: int| j <= m < b.len() implies lex_lt(
                outv2.last().0,
                #[trigger] bv[m].0,
            ) by {
                if take_b {
                    assert(lex_lt(bv[old_j].0, bv[m].0));
                } else {
                    assert(lex_lt(av[old_i].0, bv[old_j].0));
                    if m > old_j {
                        lemma_lex_trans(av[old_i].0, bv[old_j].0, bv[m].0);
                    }
                }
            }
        }
    }
    proof {
        assert(ev(a@).take(a@.len() as int) =~= ev(a@));
        assert(ev(b@).take(b@.len() as int) =~= ev(b@));
    }
    out
}

} // verus!
