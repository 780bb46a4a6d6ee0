//! The in-memory accumulator of uncommitted term counts: an ordered list
//! of `(term bytes, count)` entries kept sorted and duplicate-free.
use vstd::prelude::*;

use crate::merge::{combine, ev, lookup, sorted_strict};
use crate::order::{bytes_cmp, lemma_lex_trans, lemma_lex_trichotomy, lex_lt, ByteOrd};

verus! {

/// Under a sorted list, any entry holding `k` decides the lookup, and a
/// list with no entry for `k` has none.
pub proof fn lemma_lookup_at(s: Seq<(Seq<u8>, u64)>, k: Seq<u8>)
    requires
        sorted_strict(s),
    ensures
        forall|i: int| 0 <= i < s.len() && s[i].0 == k ==> lookup(s, k) == Some(s[i].1),
        (forall|i: int| 0 <= i < s.len() ==> s[i].0 != k) ==> lookup(s, k) is None,
{
    crate::merge::lemma_lookup_props(s, k);
    if lookup(s, k) is Some {
        let w = choose|w: int| 0 <= w < s.len() && s[w].0 == k && lookup(s, k) == Some(s[w].1);
        assert forall|i: int| 0 <= i < s.len() && s[i].0 == k implies lookup(s, k) == Some(
            s[i].1,
        ) by {
            if i != w {
                if i < w {
                    assert(lex_lt(s[i].0, s[w].0));
                } else {
                    assert(lex_lt(s[w].0, s[i].0));
                }
                lemma_lex_trichotomy(k, k);
            }
        }
    } else {
        crate::merge::lemma_lookup_props(s, k);
    }
}

/// The builder of the next segment: terms admitted since the last commit,
/// each with the number of times it was seen.
pub struct DictBuilder {
    entries: Vec<(Vec<u8>, u64)>,
}

impl Default for DictBuilder {
    fn default() -> (r: Self)
        ensures
            r.wf(),
            r.view_entries().len() == 0,
    {
        Self::new()
    }
}

impl DictBuilder {
    /// The accumulated entries, keys as byte sequences.
    pub closed spec fn view_entries(&self) -> Seq<(Seq<u8>, u64)> {
        ev(self.entries@)
    }

    /// The entries stay sorted, unique and with positive counts.
    pub closed spec fn wf(&self) -> bool {
        sorted_strict(self.view_entries()) && crate::merge::positive_counts(self.view_entries())
    }

    /// A fresh, empty accumulator.
    pub fn new() -> (r: Self)
        ensures
            r.wf(),
            r.view_entries().len() == 0,
    {
        let r = DictBuilder { entries: Vec::new() };
        proof {
            assert(r.view_entries() =~= Seq::<(Seq<u8>, u64)>::empty());
        }
        r
    }

    /// Whether no term was accumulated since the last drain.
    pub fn is_empty(&self) -> (r: bool)
        ensures
            r == (self.view_entries().len() == 0),
    {
        self.entries.len() == 0
    }

    /// A copy of the accumulated entries, in ascending key order.
    pub fn entries(&self) -> (r: Vec<(Vec<u8>, u64)>)
        requires
            self.wf(),
        ensures
            ev(r@) == self.view_entries(),
            sorted_strict(ev(r@)),
            crate::merge::positive_counts(ev(r@)),
    {
        let mut r: Vec<(Vec<u8>, u64)> = Vec::new();
        let mut k: usize = 0;
        while k < self.entries.len()
            invariant
                0 <= k <= self.entries.len(),
                ev(r@) =~= ev(self.entries@).take(k as int),
            decreases self.entries.len() - k,
        {
            let ghost prev = r@;
            let e0 = crate::merge::copy_bytes(&self.entries[k].0);
            let e1 = self.entries[k].1;
            r.push((e0, e1));
            proof {
                assert(ev(prev).len() == prev.len());
                assert(prev.len() == k as int);
                assert(r@ == prev.push((e0, e1)));
                assert forall|q: int| 0 <= q < r@.len() implies ev(r@)[q] == ev(
                    self.entries@,
                ).take(k as int + 1)[q] by {
                    if q < k as int {
                        assert(r@[q] == prev[q]);
                        assert(ev(prev)[q] == ev(self.entries@).take(k as int)[q]);
                    } else {
                        assert(r@[q] == (e0, e1));
                        assert(e0@ == self.entries@[q].0@);
                    }
                }
                assert(ev(r@) =~= ev(self.entries@).take(k as int + 1));
            }
            k += 1;
        }
        proof {
            assert(ev(self.entries@).take(self.entries@.len() as int) =~= ev(self.entries@));
        }
        r
    }

    /// Count one occurrence of `term`: an absent key is inserted with
    /// count 1, a present one has its count raised by 1, saturating.
    pub fn insert(&mut self, term: &str)
        requires
            old(self).wf(),
        ensures
            final(self).wf(),
            forall|k: Seq<u8>| #[trigger]
                lookup(final(self).view_entries(), k) == (if k == vstd::utf8::encode_utf8(term@) {
                    combine(lookup(old(self).view_entries(), k), Some(1u64))
                } else {
                    lookup(old(self).view_entries(), k)
                }),
    {
        let key: Vec<u8> = term.as_bytes_vec();
        let ghost kb = key@;
        let ghost olds = self.view_entries();
        let mut pos: usize = 0;
        let mut found: bool = false;
        let mut stop: bool = false;
        while pos < self.entries.len() && !found && !stop
            invariant
                self.wf(),
                self == old(self),
                key@ == kb,
                0 <= pos <= self.entries.len(),
                !found ==> forall|q: int|
                    0 <= q < pos ==> lex_lt(#[trigger] self.view_entries()[q].0, kb),
                found ==> pos < self.entries.len() && self.view_entries()[pos as int].0 == kb,
                stop ==> pos < self.entries.len() && lex_lt(
                    kb,
                    self.view_entries()[pos as int].0,
                ),
                stop ==> !found,
            decreases self.entries.len() - pos, (if found || stop {
                0int
            } else {
                1int
            }),
        {
            match bytes_cmp(&self.entries[pos].0, &key) {
                ByteOrd::Before => {
                    pos += 1;
                },
                ByteOrd::Same => {
                    found = true;
                },
                ByteOrd::After => {
                    stop = true;
                },
            }
        }
        proof {
            lemma_lookup_at(olds, kb);
        }
        if found {
            let e = self.entries.remove(pos);
            let newcount = e.1.saturating_add(1);
            self.entries.insert(pos, (e.0, newcount));
            proof {
                let news = self.view_entries();
                assert(news =~= olds.update(pos as int, (kb, newcount)));
                assert forall|i: int, j: int| 0 <= i < j < news.len() implies lex_lt(
                    news[i].0,
                    news[j].0,
                ) by {
                    assert(news[i].0 == olds[i].0 && news[j].0 == olds[j].0);
                }
                lemma_lookup_at(news, kb);
                assert(news[pos as int] == (kb, newcount));
                assert(lookup(news, kb) == Some(newcount));
                assert forall|x: int| 0 <= x < news.len() implies (#[trigger] news[x]).1
                    >= 1 by {
                    if x != pos {
                        assert(news[x] == olds[x]);
                    }
                }
                assert forall|k: Seq<u8>| k != kb implies #[trigger] lookup(news, k) == lookup(
                    olds,
                    k,
                ) by {
                    lemma_lookup_at(olds, k);
                    lemma_lookup_at(news, k);
                    if lookup(olds, k) is Some {
                        let w = choose|w: int| 0 <= w < olds.len() && olds[w].0 == k;
                        assert(news[w].0 == k);
                    } else {
                        assert forall|i: int| 0 <= i < news.len() implies news[i].0 != k by {
                            assert(olds[i].0 != k);
                        }
                    }
                }
            }
        } else {
            proof {
                assert forall|i: int| 0 <= i < olds.len() implies olds[i].0 != kb by {
                    if i < pos {
                        lemma_lex_trichotomy(olds[i].0, kb);
                    } else if i == pos {
                        lemma_lex_trichotomy(kb, olds[i].0);
                    } else {
                        if pos < olds.len() {
                            assert(lex_lt(olds[pos as int].0, olds[i].0));
                            lemma_lex_trans(kb, olds[pos as int].0, olds[i].0);
                            lemma_lex_trichotomy(kb, olds[i].0);
                        }
                    }
                }
                assert(lookup(olds, kb) is None);
            }
            self.entries.insert(pos, (key, 1));
            proof {
                let news = self.view_entries();
                assert(news =~= olds.insert(pos as int, (kb, 1u64)));
                assert forall|i: int, j: int| 0 <= i < j < news.len() implies lex_lt(
                    news[i].0,
                    news[j].0,
                ) by {
                    if i == pos {
                        assert(news[i].0 == kb);
                        assert(j > pos);
                        assert(news[j].0 == olds[j - 1].0);
                        assert(lex_lt(kb, olds[pos as int].0));
                        if j - 1 > pos {
                            assert(lex_lt(olds[pos as int].0, olds[j - 1].0));
                            lemma_lex_trans(kb, olds[pos as int].0, olds[j - 1].0);
                        }
                    } else if j == pos {
                        assert(i < pos);
                        assert(news[i].0 == olds[i].0);
                        assert(lex_lt(olds[i].0, kb));
                    } else if i < pos && j < pos {
                        assert(news[i].0 == olds[i].0 && news[j].0 == olds[j].0);
                    } else if i > pos && j > pos {
                        assert(news[i].0 == olds[i - 1].0 && news[j].0 == olds[j - 1].0);
                    } else {
                        assert(i < pos < j);
                        assert(news[i].0 == olds[i].0 && news[j].0 == olds[j - 1].0);
                        assert(lex_lt(olds[i].0, olds[j - 1].0));
                    }
                }
                lemma_lookup_at(news, kb);
                assert(news[pos as int] == (kb, 1u64));
                assert(lookup(news, kb) == Some(1u64));
                assert forall|x: int| 0 <= x < news.len() implies (#[trigger] news[x]).1
                    >= 1 by {
                    if x < pos {
                        assert(news[x] == olds[x]);
                    } else if x > pos {
                        assert(news[x] == olds[x - 1]);
                    }
                }
                assert forall|k: Seq<u8>| k != kb implies #[trigger] lookup(news, k) == lookup(
                    olds,
                    k,
                ) by {
                    lemma_lookup_at(olds, k);
                    lemma_lookup_at(news, k);
                    if lookup(olds, k) is Some {
                        let w = choose|w: int| 0 <= w < olds.len() && olds[w].0 == k;
                        if w < pos {
                            assert(news[w].0 == k);
                        } else {
                            assert(news[w + 1].0 == k);
                        }
                    } else {
                        assert forall|i: int| 0 <= i < news.len() implies news[i].0 != k by {
                            if i < pos {
                                assert(olds[i].0 != k);
                            } else if i == pos {
                            } else {
                                assert(olds[i - 1].0 != k);
                            }
                        }
                    }
                }
            }
        }
    }
}

} // verus!
