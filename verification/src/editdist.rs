//! Levenshtein edit distance: the specification and a verified
//! dynamic-programming evaluator, used to bound what fuzzy search may
//! return.
use vstd::prelude::*;

verus! {

/// The minimum of three naturals.
pub open spec fn min3(a: nat, b: nat, c: nat) -> nat {
    if a <= b && a <= c {
        a
    } else if b <= c {
        b
    } else {
        c
    }
}

/// The Levenshtein distance: fewest single-character insertions,
/// deletions and substitutions turning `a` into `b`.
pub open spec fn edit_dist(a: Seq<char>, b: Seq<char>) -> nat
    decreases a.len() + b.len(),
{
    if a.len() == 0 {
        b.len()
    } else if b.len() == 0 {
        a.len()
    } else if a[0] == b[0] {
        edit_dist(a.drop_first(), b.drop_first())
    } else {
        1 + min3(
            edit_dist(a.drop_first(), b),
            edit_dist(a, b.drop_first()),
            edit_dist(a.drop_first(), b.drop_first()),
        )
    }
}

/// The distance never exceeds the longer length.
pub proof fn lemma_edit_dist_bound(a: Seq<char>, b: Seq<char>)
    ensures
        edit_dist(a, b) <= a.len() + b.len(),
        edit_dist(a, b) <= (if a.len() >= b.len() {
            a.len()
        } else {
            b.len()
        }),
    decreases a.len() + b.len(),
{
    if a.len() != 0 && b.len() != 0 {
        lemma_edit_dist_bound(a.drop_first(), b);
        lemma_edit_dist_bound(a, b.drop_first());
        lemma_edit_dist_bound(a.drop_first(), b.drop_first());
    }
}

/// Compute the Levenshtein distance between two character vectors.
pub fn edit_distance(a: &Vec<char>, b: &Vec<char>) -> (d: usize)
    ensures
        d == edit_dist(a@, b@),
{
    let n = a.len();
    let m = b.len();
    // Row for the empty suffix of `a`, reverse-indexed: the entry at
    // `m - t` is the distance to the suffix of `b` starting at `t`.
    let mut prev: Vec<usize> = Vec::new();
    let mut j: usize = 0;
    while j < m
        invariant
            0 <= j <= m,
            m == b@.len(),
            prev@.len() == j,
            forall|p: int|
                0 <= p < j ==> prev@[p] == edit_dist(Seq::<char>::empty(), b@.skip(m - p)),
        decreases m - j,
    {
        proof {
            assert(b@.skip(m - j).len() == j);
        }
        prev.push(j);
        j += 1;
    }
    proof {
        assert(b@.skip(0).len() == m);
    }
    prev.push(m);
    let mut i: usize = n;
    while i > 0
        invariant
            0 <= i <= n,
            n == a@.len(),
            m == b@.len(),
            prev@.len() == m + 1,
            forall|t: int|
                0 <= t <= m ==> prev@[m - t] == edit_dist(a@.skip(i as int), b@.skip(t)),
        decreases i,
    {
        let row: usize = i - 1;
        let mut cur: Vec<usize> = Vec::new();
        proof {
            lemma_edit_dist_bound(a@.skip(row as int), b@.skip(m as int));
            assert(a@.skip(row as int).len() == n - row);
        }
        cur.push(n - row);
        proof {
            assert(b@.skip(m as int).len() == 0);
            assert(cur@[0] == edit_dist(a@.skip(row as int), b@.skip(m as int)));
        }
        let mut k: usize = m;
        while k > 0
            invariant
                0 <= k <= m,
                n == a@.len(),
                m == b@.len(),
                0 <= row < n,
                prev@.len() == m + 1,
                forall|t: int|
                    0 <= t <= m ==> prev@[m - t] == edit_dist(a@.skip(row + 1), b@.skip(t)),
                cur@.len() == m - k + 1,
                forall|t: int|
                    k <= t <= m ==> cur@[m - t] == edit_dist(a@.skip(row as int), b@.skip(t)),
            decreases k,
        {
            let col: usize = k - 1;
            let ghost asuf = a@.skip(row as int);
            let ghost bsuf = b@.skip(col as int);
            proof {
                assert(asuf.len() > 0 && bsuf.len() > 0);
                assert(asuf[0] == a@[row as int]);
                assert(bsuf[0] == b@[col as int]);
                assert(asuf.drop_first() =~= a@.skip(row + 1));
                assert(bsuf.drop_first() =~= b@.skip(col + 1));
                lemma_edit_dist_bound(asuf.drop_first(), bsuf);
                lemma_edit_dist_bound(asuf, bsuf.drop_first());
                lemma_edit_dist_bound(asuf.drop_first(), bsuf.drop_first());
            }
            let val: usize = if a[row] == b[col] {
                prev[m - col - 1]
            } else {
                let d1 = prev[m - col];
                let d2 = cur[m - col - 1];
                let d3 = prev[m - col - 1];
                let mn = if d1 <= d2 && d1 <= d3 {
                    d1
                } else if d2 <= d3 {
                    d2
                } else {
                    d3
                };
                mn + 1
            };
            proof {
                assert(val == edit_dist(asuf, bsuf));
            }
            cur.push(val);
            k -= 1;
        }
        prev = cur;
        i = row;
    }
    proof {
        assert(a@.skip(0) =~= a@);
        assert(b@.skip(0) =~= b@);
        lemma_edit_dist_bound(a@, b@);
    }
    prev[m]
}

} // verus!
