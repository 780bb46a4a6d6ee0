//! The term dictionary: ingestion filtering, commit, compaction, pruning,
//! union, lookup and fuzzy search over a set of immutable segments.
//!
//! The dictionary itself is pure state: the surrounding storage layer
//! persists the byte images this module hands out (segment files named
//! `<id>.dict` and the catalog `meta.json`) and feeds them back on open.
use vstd::prelude::*;

use crate::accum::DictBuilder;
use crate::editdist::{edit_dist, edit_distance};
use crate::merge::{combine, copy_bytes, ev, lookup, merge_two, positive_counts, sorted_strict};
use crate::meta::{
    encode_meta, ids_wf, idsv, parse_meta, random_id, spec_encode_meta, spec_format_id,
    spec_parse_meta,
};
use crate::order::bytes_eq;
use crate::segment::{bkeys, fst_bytes_ok, fst_decode, fuzzy_of, lev_aut_ok, Segment};
use crate::text::{
    char_is_alphabetic, char_is_ascii_punct, chars_vec, is_alphabetic_char, is_ascii_punct_char,
    string_from_utf8,
};
use crate::Error;
use vstd::utf8::encode_utf8;

verus! {

broadcast use vstd::seq_lib::group_to_multiset_ensures;

/// The aggregate count for `k` over a list of segment contents: present
/// if any segment holds the key, with the saturating sum of its counts.
pub open spec fn freq_of(segs: Seq<Seq<(Seq<u8>, u64)>>, k: Seq<u8>) -> Option<u64>
    decreases segs.len(),
{
    if segs.len() == 0 {
        None
    } else {
        combine(freq_of(segs.drop_last(), k), lookup(segs.last(), k))
    }
}

/// How many characters of `s` are ASCII punctuation.
pub open spec fn punct_count(s: Seq<char>) -> nat
    decreases s.len(),
{
    if s.len() == 0 {
        0
    } else {
        punct_count(s.drop_last()) + (if is_ascii_punct_char(s.last()) {
            1nat
        } else {
            0nat
        })
    }
}

/// How many characters of `s` are not alphabetic.
pub open spec fn nonalpha_count(s: Seq<char>) -> nat
    decreases s.len(),
{
    if s.len() == 0 {
        0
    } else {
        nonalpha_count(s.drop_last()) + (if !is_alphabetic_char(s.last()) {
            1nat
        } else {
            0nat
        })
    }
}

/// Whether `s` holds an ASCII space.
pub open spec fn has_space(s: Seq<char>) -> bool {
    exists|i: int| 0 <= i < s.len() && s[i] == ' '
}

/// The ingest filter: a term is admitted when it is 2 to 100 bytes long,
/// holds no space, is at most half ASCII punctuation and at most a
/// quarter non-alphabetic (both fractions measured against the byte
/// length).
pub open spec fn admissible(s: Seq<char>) -> bool {
    let bl = encode_utf8(s).len();
    &&& bl > 1
    &&& bl <= 100
    &&& !has_space(s)
    &&& 2 * punct_count(s) <= bl
    &&& 4 * nonalpha_count(s) <= bl
}

/// Each character takes at least one byte.
pub proof fn lemma_encode_utf8_len(s: Seq<char>)
    ensures
        encode_utf8(s).len() >= s.len(),
    decreases s.len(),
{
    if s.len() > 0 {
        lemma_encode_utf8_len(s.drop_first());
    }
}

/// Whether the filter admits `term`.
pub fn is_admitted(term: &str) -> (r: bool)
    ensures
        r == admissible(term@),
{
    let bv = term.as_bytes_vec();
    let bl = bv.len();
    proof {
        assert(bv@ == encode_utf8(term@));
    }
    if bl <= 1 || bl > 100 {
        return false;
    }
    let cs = chars_vec(term);
    let mut pc: usize = 0;
    let mut nc: usize = 0;
    let mut sp: bool = false;
    let mut i: usize = 0;
    proof {
        lemma_encode_utf8_len(term@);
    }
    while i < cs.len()
        invariant
            0 <= i <= cs.len(),
            cs@ == term@,
            cs@.len() <= 100,
            pc == punct_count(cs@.take(i as int)),
            nc == nonalpha_count(cs@.take(i as int)),
            sp == has_space(cs@.take(i as int)),
            pc <= i && nc <= i,
        decreases cs.len() - i,
    {
        let c = cs[i];
        proof {
            let t1 = cs@.take(i + 1);
            let t0 = cs@.take(i as int);
            assert(t1.drop_last() =~= t0);
            assert(t1.last() == cs@[i as int]);
            if has_space(t0) {
                let w = choose|w: int| 0 <= w < t0.len() && t0[w] == ' ';
                assert(t1[w] == ' ');
            }
            if cs@[i as int] == ' ' {
                assert(t1[i as int] == ' ');
            }
            if has_space(t1) && !has_space(t0) && cs@[i as int] != ' ' {
                let w = choose|w: int| 0 <= w < t1.len() && t1[w] == ' ';
                assert(t0[w] == ' ');
            }
        }
        if char_is_ascii_punct(c) {
            pc += 1;
        }
        if !char_is_alphabetic(c) {
            nc += 1;
        }
        if c == ' ' {
            sp = true;
        }
        i += 1;
    }
    proof {
        assert(cs@.take(cs@.len() as int) =~= cs@);
    }
    !sp && 2 * pc <= bl && 4 * nc <= bl
}

/// What commit hands to the storage layer: the fresh segment under its
/// identifier, and the new catalog image.
pub struct CommitOutput {
    /// The identifier of the new segment.
    pub id: Vec<u8>,
    /// The serialized new segment, to be written as `<id>.dict`.
    pub segment_data: Vec<u8>,
    /// The serialized catalog, to be written as `meta.json`.
    pub meta_data: Vec<u8>,
}

/// The term dictionary: an accumulator of uncommitted counts, the open
/// segments, and the catalog listing them.
pub struct TermDict {
    builder: DictBuilder,
    stored: Vec<Segment>,
    metadata: Vec<Vec<u8>>,
}

impl TermDict {
    /// The contents of each open segment, in catalog order.
    pub closed spec fn segs_model(&self) -> Seq<Seq<(Seq<u8>, u64)>> {
        self.stored@.map_values(|s: Segment| s.entries_model())
    }

    /// The serialized form of each open segment, in catalog order.
    pub closed spec fn datas_model(&self) -> Seq<Seq<u8>> {
        self.stored@.map_values(|s: Segment| s.data_model())
    }

    /// The catalog: the listed segment identifiers, in order.
    pub closed spec fn catalog_model(&self) -> Seq<Seq<u8>> {
        idsv(self.metadata@)
    }

    /// The uncommitted entries of the accumulator.
    pub closed spec fn builder_model(&self) -> Seq<(Seq<u8>, u64)> {
        self.builder.view_entries()
    }

    /// The committed aggregate count of a key.
    pub open spec fn freq_model(&self, k: Seq<u8>) -> Option<u64> {
        freq_of(self.segs_model(), k)
    }

    /// One open segment per catalog entry, every segment internally
    /// consistent, every identifier 16 bytes, the accumulator sorted.
    pub closed spec fn wf(&self) -> bool {
        &&& self.builder.wf()
        &&& self.stored@.len() == self.metadata@.len()
        &&& ids_wf(self.catalog_model())
        &&& forall|i: int| 0 <= i < self.stored@.len() ==> (#[trigger] self.stored@[i]).wf()
    }

    /// A fresh, empty dictionary (a directory with no catalog yet).
    pub fn new() -> (r: TermDict)
        ensures
            r.wf(),
            r.builder_model().len() == 0,
            r.segs_model().len() == 0,
            r.catalog_model().len() == 0,
    {
        let r = TermDict { builder: DictBuilder::new(), stored: Vec::new(), metadata: Vec::new() };
        proof {
            assert(r.segs_model() =~= Seq::<Seq<(Seq<u8>, u64)>>::empty());
            assert(r.catalog_model() =~= Seq::<Seq<u8>>::empty());
        }
        r
    }

    /// The serialized empty catalog, for the storage layer to write when
    /// it creates a fresh dictionary directory.
    pub fn empty_meta() -> (r: Vec<u8>)
        ensures
            r@ == spec_encode_meta(Seq::<Seq<u8>>::empty()),
    {
        let ids: Vec<Vec<u8>> = Vec::new();
        proof {
            assert(idsv(ids@) =~= Seq::<Seq<u8>>::empty());
        }
        encode_meta(&ids)
    }

    /// Open a dictionary from its persisted images: the catalog bytes and
    /// the serialized segments, in catalog order.  The catalog must parse
    /// and list exactly as many segments as are handed in, and each
    /// segment must pass the transducer library's header and checksum
    /// validation.  That validation is shallow, so the dictionary's
    /// consistency (and with it the no-fault guarantee of later reads) is
    /// promised only when the images are genuine builder output.
    pub fn open(meta_bytes: &Vec<u8>, segment_datas: Vec<Vec<u8>>) -> (r: Result<TermDict, Error>)
        ensures
            r matches Ok(d) ==> {
                &&& spec_parse_meta(meta_bytes@) == Some(d.catalog_model())
                &&& d.catalog_model().len() == segment_datas@.len()
                &&& d.builder_model().len() == 0
                &&& forall|i: int|
                    0 <= i < segment_datas@.len() ==> d.datas_model()[i] == (
                    #[trigger] segment_datas@[i])@
                &&& (forall|i: int|
                    0 <= i < segment_datas@.len() ==> fst_bytes_ok(
                        (#[trigger] segment_datas@[i])@,
                    )) ==> (d.wf() && forall|i: int|
                    0 <= i < segment_datas@.len() ==> d.segs_model()[i] == fst_decode(
                        (#[trigger] segment_datas@[i])@,
                    ))
            },
            (spec_parse_meta(meta_bytes@) matches Some(ids) && ids.len() == segment_datas@.len()
                && (forall|i: int|
                0 <= i < segment_datas@.len() ==> fst_bytes_ok((#[trigger] segment_datas@[i])@)))
                ==> r is Ok,
            r matches Err(e) ==> (e == Error::SerializationError <==> spec_parse_meta(
                meta_bytes@,
            ) is None) && (e == Error::SerializationError || e == Error::FormatError),
    {
        let ids = match parse_meta(meta_bytes) {
            Ok(ids) => ids,
            Err(e) => {
                return Err(e);
            },
        };
        proof {
            assert(idsv(ids@).len() == ids@.len());
        }
        if ids.len() != segment_datas.len() {
            return Err(Error::FormatError);
        }
        let mut stored: Vec<Segment> = Vec::new();
        let mut i: usize = 0;
        let n = segment_datas.len();
        while i < n
            invariant
                0 <= i <= n,
                n == segment_datas@.len(),
                spec_parse_meta(meta_bytes@) == Some(idsv(ids@)),
                stored@.len() == i,
                forall|j: int|
                    0 <= j < i ==> (#[trigger] stored@[j]).data_model() == segment_datas@[j]@,
                forall|j: int|
                    0 <= j < i ==> (fst_bytes_ok(segment_datas@[j]@) ==> (
                    #[trigger] stored@[j]).wf() && stored@[j].entries_model() == fst_decode(
                        segment_datas@[j]@,
                    )),
            decreases n - i,
        {
            let data = copy_bytes(&segment_datas[i]);
            match Segment::open(data) {
                Ok(seg) => {
                    stored.push(seg);
                },
                Err(_) => {
                    proof {
                        assert(!fst_bytes_ok(segment_datas@[i as int]@));
                    }
                    return Err(Error::FormatError);
                },
            }
            i += 1;
        }
        let d = TermDict { builder: DictBuilder::new(), stored, metadata: ids };
        proof {
            assert forall|i2: int| 0 <= i2 < segment_datas@.len() implies d.datas_model()[i2] == (
            #[trigger] segment_datas@[i2])@ by {
                assert(d.datas_model()[i2] == d.stored@[i2].data_model());
            }
            if forall|i2: int|
                0 <= i2 < segment_datas@.len() ==> fst_bytes_ok((#[trigger] segment_datas@[i2])@) {
                assert forall|i2: int| 0 <= i2 < d.stored@.len() implies (
                #[trigger] d.stored@[i2]).wf() by {
                    assert(fst_bytes_ok(segment_datas@[i2]@));
                }
                assert forall|i2: int| 0 <= i2 < segment_datas@.len() implies d.segs_model()[i2]
                    == fst_decode((#[trigger] segment_datas@[i2])@) by {
                    assert(fst_bytes_ok(segment_datas@[i2]@));
                    assert(d.segs_model()[i2] == d.stored@[i2].entries_model());
                }
                assert(d.wf());
            }
        }
        Ok(d)
    }

    /// How many segments are open (and listed in the catalog).
    pub fn stored_len(&self) -> (r: usize)
        requires
            self.wf(),
        ensures
            r == self.segs_model().len(),
            r == self.catalog_model().len(),
    {
        self.stored.len()
    }

    /// Apply the ingest filter to `term` and, when it is admitted, count
    /// one occurrence in the accumulator.  Nothing committed changes, and
    /// rejection is silent.
    pub fn insert(&mut self, term: &str)
        requires
            old(self).wf(),
        ensures
            final(self).wf(),
            final(self).catalog_model() == old(self).catalog_model(),
            final(self).segs_model() == old(self).segs_model(),
            final(self).datas_model() == old(self).datas_model(),
            !admissible(term@) ==> final(self).builder_model() == old(self).builder_model(),
            admissible(term@) ==> forall|k: Seq<u8>| #[trigger]
                lookup(final(self).builder_model(), k) == (if k == encode_utf8(term@) {
                    combine(lookup(old(self).builder_model(), k), Some(1u64))
                } else {
                    lookup(old(self).builder_model(), k)
                }),
    {
        if is_admitted(term) {
            self.builder.insert(term);
        }
    }

    /// Freeze the accumulator into a new segment, register it in the
    /// catalog, and hand back the images to persist.  With an empty
    /// accumulator this is a no-op.
    pub fn commit(&mut self) -> (r: Option<CommitOutput>)
        requires
            old(self).wf(),
        ensures
            final(self).wf(),
            r is None <==> old(self).builder_model().len() == 0,
            r is None ==> *final(self) == *old(self),
            r matches Some(out) ==> {
                &&& out.id@.len() == 16
                &&& final(self).catalog_model() == old(self).catalog_model().push(out.id@)
                &&& final(self).segs_model() == old(self).segs_model().push(
                    old(self).builder_model(),
                )
                &&& final(self).datas_model() == old(self).datas_model().push(out.segment_data@)
                &&& fst_bytes_ok(out.segment_data@)
                &&& fst_decode(out.segment_data@) == old(self).builder_model()
                &&& out.meta_data@ == spec_encode_meta(final(self).catalog_model())
                &&& final(self).builder_model().len() == 0
                &&& forall|k: Seq<u8>| #[trigger]
                    final(self).freq_model(k) == combine(
                        old(self).freq_model(k),
                        lookup(old(self).builder_model(), k),
                    )
            },
    {
        if self.builder.is_empty() {
            return None;
        }
        let entries = self.builder.entries();
        self.builder = DictBuilder::new();
        let seg = Segment::build(&entries);
        let segment_data = seg.data();
        let id = random_id();
        let id_copy = copy_bytes(&id);
        let ghost old_cat = self.catalog_model();
        let ghost old_segs = self.segs_model();
        let ghost old_datas = self.datas_model();
        self.metadata.push(id_copy);
        self.stored.push(seg);
        proof {
            assert(self.catalog_model() =~= old_cat.push(id@));
            assert(self.segs_model() =~= old_segs.push(ev(entries@)));
            assert(self.datas_model() =~= old_datas.push(segment_data@));
            assert forall|i: int| 0 <= i < self.stored@.len() implies (
            #[trigger] self.stored@[i]).wf() by {
                if i < self.stored@.len() - 1 {
                    assert(old(self).stored@[i].wf());
                }
            }
            assert(ids_wf(self.catalog_model()));
            assert forall|k: Seq<u8>| #[trigger] freq_of(self.segs_model(), k) == combine(
                freq_of(old_segs, k),
                lookup(ev(entries@), k),
            ) by {
                assert(self.segs_model().drop_last() =~= old_segs);
                assert(self.segs_model().last() == ev(entries@));
            }
        }
        let meta_data = encode_meta(&self.metadata);
        Some(CommitOutput { id, segment_data, meta_data })
    }

    /// The committed frequency of `term`: the saturating sum of its
    /// counts across all listed segments, absent when no segment holds
    /// it.
    pub fn freq(&self, term: &str) -> (r: Option<u64>)
        requires
            self.wf(),
        ensures
            r == self.freq_model(encode_utf8(term@)),
            r matches Some(v) ==> v >= 1,
    {
        let key = term.as_bytes_vec();
        let mut acc: Option<u64> = None;
        let mut i: usize = 0;
        proof {
            assert(self.segs_model().take(0) =~= Seq::<Seq<(Seq<u8>, u64)>>::empty());
        }
        while i < self.stored.len()
            invariant
                self.wf(),
                0 <= i <= self.stored@.len(),
                key@ == encode_utf8(term@),
                acc == freq_of(self.segs_model().take(i as int), key@),
            decreases self.stored@.len() - i,
        {
            proof {
                assert(self.stored@[i as int].wf());
            }
            let got = self.stored[i].get(&key);
            acc = match (acc, got) {
                (None, None) => None,
                (Some(x), None) => Some(x),
                (None, Some(y)) => Some(y),
                (Some(x), Some(y)) => Some(x.saturating_add(y)),
            };
            proof {
                let t1 = self.segs_model().take(i + 1);
                assert(t1.drop_last() =~= self.segs_model().take(i as int));
                assert(t1.last() == self.segs_model()[i as int]);
                assert(self.segs_model()[i as int] == self.stored@[i as int].entries_model());
            }
            i += 1;
        }
        proof {
            assert(self.segs_model().take(self.segs_model().len() as int) =~= self.segs_model());
            assert forall|gi: int| 0 <= gi < self.segs_model().len() implies positive_counts(
                #[trigger] self.segs_model()[gi],
            ) by {
                assert(self.stored@[gi].wf());
                self.stored@[gi].lemma_wf_decode();
                assert(self.segs_model()[gi] == self.stored@[gi].entries_model());
            }
            lemma_freq_positive(self.segs_model(), key@);
        }
        acc
    }

    /// Whether a stem names a catalog entry.
    pub open spec fn catalog_has_stem(cat: Seq<Seq<u8>>, stem: Seq<u8>) -> bool {
        exists|j: int| 0 <= j < cat.len() && stem == spec_format_id(cat[j])
    }

    /// The garbage-collection plan over the `.dict` file stems found in
    /// the directory: a stem is marked for deletion exactly when it does
    /// not render a listed identifier.
    pub fn gc(&self, stems: &Vec<Vec<u8>>) -> (del: Vec<bool>)
        requires
            self.wf(),
        ensures
            del@.len() == stems@.len(),
            forall|i: int|
                0 <= i < stems@.len() ==> del@[i] == !Self::catalog_has_stem(
                    self.catalog_model(),
                    (#[trigger] stems@[i])@,
                ),
    {
        let mut del: Vec<bool> = Vec::new();
        let mut i: usize = 0;
        while i < stems.len()
            invariant
                self.wf(),
                0 <= i <= stems@.len(),
                del@.len() == i,
                forall|x: int|
                    0 <= x < i ==> del@[x] == !Self::catalog_has_stem(
                        self.catalog_model(),
                        (#[trigger] stems@[x])@,
                    ),
            decreases stems@.len() - i,
        {
            let ghost stem = stems@[i as int]@;
            let ghost cat = self.catalog_model();
            let keep: bool = match crate::meta::parse_id(&stems[i]) {
                None => {
                    proof {
                        if Self::catalog_has_stem(cat, stem) {
                            let j = choose|j: int|
                                0 <= j < cat.len() && stem == spec_format_id(cat[j]);
                            crate::meta::lemma_id_round_trip(cat[j]);
                        }
                    }
                    false
                },
                Some(id) => {
                    proof {
                        crate::meta::lemma_parse_id_sound(stem);
                    }
                    let mut found: bool = false;
                    let mut j: usize = 0;
                    while j < self.metadata.len()
                        invariant
                            self.wf(),
                            0 <= j <= self.metadata@.len(),
                            cat == self.catalog_model(),
                            stem == spec_format_id(id@),
                            crate::meta::spec_parse_id(stem) == Some(id@),
                            !found ==> forall|y: int|
                                0 <= y < j ==> #[trigger] cat[y] != id@,
                            found ==> exists|y: int| 0 <= y < cat.len() && cat[y] == id@,
                        decreases self.metadata@.len() - j,
                    {
                        proof {
                            assert(cat[j as int] == self.metadata@[j as int]@);
                        }
                        if bytes_eq(&self.metadata[j], &id) {
                            found = true;
                        }
                        j += 1;
                    }
                    proof {
                        if found {
                            let y = choose|y: int| 0 <= y < cat.len() && cat[y] == id@;
                            assert(stem == spec_format_id(cat[y]));
                        }
                        if !found && Self::catalog_has_stem(cat, stem) {
                            let y = choose|y: int|
                                0 <= y < cat.len() && stem == spec_format_id(cat[y]);
                            crate::meta::lemma_id_round_trip(cat[y]);
                            assert(cat[y] == id@);
                        }
                    }
                    found
                },
            };
            del.push(!keep);
            i += 1;
        }
        del
    }

    /// Compact all segments into one: the merged segment's keys are the
    /// union of the segments' keys, each with the saturating sum of its
    /// counts, so every aggregate frequency is preserved.  With at most
    /// one segment this is a no-op.
    pub fn merge_dicts(&mut self) -> (r: Option<MergeOutput>)
        requires
            old(self).wf(),
        ensures
            final(self).wf(),
            r is None <==> old(self).segs_model().len() <= 1,
            r is None ==> *final(self) == *old(self),
            r matches Some(out) ==> {
                &&& out.id@.len() == 16
                &&& final(self).catalog_model() == seq![out.id@]
                &&& final(self).segs_model().len() == 1
                &&& final(self).datas_model() == seq![out.segment_data@]
                &&& fst_bytes_ok(out.segment_data@)
                &&& fst_decode(out.segment_data@) == final(self).segs_model()[0]
                &&& out.meta_data@ == spec_encode_meta(final(self).catalog_model())
                &&& final(self).builder_model() == old(self).builder_model()
                &&& forall|k: Seq<u8>| #[trigger]
                    final(self).freq_model(k) == old(self).freq_model(k)
            },
    {
        if self.stored.len() <= 1 {
            return None;
        }
        proof {
            assert(self.stored@[0].wf());
        }
        let mut acc = self.stored[0].entries();
        proof {
            let segs = self.segs_model();
            assert(segs[0] == self.stored@[0].entries_model());
            assert forall|k: Seq<u8>| #[trigger] lookup(ev(acc@), k) == freq_of(
                segs.take(1),
                k,
            ) by {
                assert(segs.take(1).drop_last() =~= segs.take(0));
                assert(segs.take(0) =~= Seq::<Seq<(Seq<u8>, u64)>>::empty());
                assert(freq_of(Seq::<Seq<(Seq<u8>, u64)>>::empty(), k) is None);
                assert(segs.take(1).last() == segs[0]);
                assert(ev(acc@) == segs[0]);
            }
        }
        let mut i: usize = 1;
        while i < self.stored.len()
            invariant
                old(self).wf(),
                *self == *old(self),
                1 <= i <= self.stored@.len(),
                sorted_strict(ev(acc@)),
                positive_counts(ev(acc@)),
                forall|k: Seq<u8>| #[trigger]
                    lookup(ev(acc@), k) == freq_of(self.segs_model().take(i as int), k),
            decreases self.stored@.len() - i,
        {
            proof {
                assert(self.stored@[i as int].wf());
            }
            let e = self.stored[i].entries();
            let merged = merge_two(&acc, &e);
            proof {
                let segs = self.segs_model();
                assert(segs[i as int] == self.stored@[i as int].entries_model());
                assert forall|k: Seq<u8>| #[trigger] lookup(ev(merged@), k) == freq_of(
                    segs.take(i + 1),
                    k,
                ) by {
                    assert(segs.take(i + 1).drop_last() =~= segs.take(i as int));
                    assert(segs.take(i + 1).last() == segs[i as int]);
                    assert(lookup(ev(merged@), k) == combine(lookup(ev(acc@), k), lookup(ev(e@), k)));
                }
            }
            acc = merged;
            i += 1;
        }
        proof {
            assert(self.segs_model().take(self.segs_model().len() as int) =~= self.segs_model());
        }
        let seg = Segment::build(&acc);
        let segment_data = seg.data();
        let id = random_id();
        let id_copy = copy_bytes(&id);
        let ghost old_segs = self.segs_model();
        self.stored = Vec::new();
        self.stored.push(seg);
        self.metadata = Vec::new();
        self.metadata.push(id_copy);
        proof {
            assert(self.catalog_model() =~= seq![id@]);
            assert(self.segs_model() =~= seq![ev(acc@)]);
            assert(self.datas_model() =~= seq![segment_data@]);
            assert forall|k: Seq<u8>| #[trigger] freq_of(self.segs_model(), k) == freq_of(
                old_segs,
                k,
            ) by {
                let one = self.segs_model();
                assert(one.drop_last() =~= Seq::<Seq<(Seq<u8>, u64)>>::empty());
                assert(freq_of(Seq::<Seq<(Seq<u8>, u64)>>::empty(), k) is None);
                assert(one.last() == ev(acc@));
                assert(lookup(ev(acc@), k) == freq_of(old_segs, k));
            }
            assert forall|i2: int| 0 <= i2 < self.stored@.len() implies (
            #[trigger] self.stored@[i2]).wf() by {}
        }
        let meta_data = encode_meta(&self.metadata);
        Some(MergeOutput { id, segment_data, meta_data })
    }

    /// Take over another dictionary's segments without coalescing keys:
    /// each gets a fresh identifier appended to this catalog, and the
    /// plan says which persisted file to rename to which.  The other
    /// dictionary's uncommitted accumulator is discarded; every
    /// aggregate frequency afterwards is the sum of the two.
    pub fn merge(&mut self, other: TermDict) -> (r: MergeInOutput)
        requires
            old(self).wf(),
            other.wf(),
        ensures
            final(self).wf(),
            final(self).segs_model() == old(self).segs_model() + other.segs_model(),
            final(self).datas_model() == old(self).datas_model() + other.datas_model(),
            final(self).builder_model() == old(self).builder_model(),
            final(self).catalog_model().len() == old(self).catalog_model().len()
                + other.catalog_model().len(),
            final(self).catalog_model().take(old(self).catalog_model().len() as int)
                == old(self).catalog_model(),
            r.renames@.len() == other.segs_model().len(),
            forall|i: int|
                0 <= i < r.renames@.len() ==> (#[trigger] r.renames@[i]).from_id@
                    == other.catalog_model()[i] && r.renames@[i].to_id@
                    == final(self).catalog_model()[old(self).catalog_model().len() + i],
            r.meta_data@ == spec_encode_meta(final(self).catalog_model()),
            forall|k: Seq<u8>| #[trigger]
                final(self).freq_model(k) == combine(
                    old(self).freq_model(k),
                    other.freq_model(k),
                ),
    {
        let ghost osegs = other.segs_model();
        let ghost odatas = other.datas_model();
        let ghost ocat = other.catalog_model();
        let ghost base = old(self).catalog_model().len() as int;
        let TermDict { builder: _, stored: mut os, metadata: mut om } = other;
        let mut renames: Vec<RenamePlan> = Vec::new();
        let mut g: usize = 0;
        let total = os.len();
        while os.len() > 0
            invariant
                old(self).wf(),
                g + os@.len() == total,
                total == osegs.len(),
                om@.len() == os@.len(),
                osegs.len() == ocat.len(),
                odatas.len() == osegs.len(),
                forall|x: int|
                    0 <= x < os@.len() ==> (#[trigger] os@[x]).wf() && os@[x].entries_model()
                        == osegs[g + x] && os@[x].data_model() == odatas[g + x],
                forall|x: int| 0 <= x < om@.len() ==> (#[trigger] om@[x])@ == ocat[g + x],
                self.builder == old(self).builder,
                self.stored@.len() == self.metadata@.len(),
                ids_wf(self.catalog_model()),
                forall|x: int| 0 <= x < self.stored@.len() ==> (#[trigger] self.stored@[x]).wf(),
                self.segs_model() == old(self).segs_model() + osegs.take(g as int),
                self.datas_model() == old(self).datas_model() + odatas.take(g as int),
                self.catalog_model().take(base) == old(self).catalog_model(),
                self.catalog_model().len() == base + g,
                renames@.len() == g,
                forall|x: int|
                    0 <= x < g ==> (#[trigger] renames@[x]).from_id@ == ocat[x]
                        && renames@[x].to_id@ == self.catalog_model()[base + x],
            decreases os@.len(),
        {
            let seg = os.remove(0);
            let from_id = om.remove(0);
            let id = random_id();
            let to_id = copy_bytes(&id);
            let ghost pre_segs = self.segs_model();
            let ghost pre_datas = self.datas_model();
            let ghost pre_cat = self.catalog_model();
            self.stored.push(seg);
            self.metadata.push(id);
            renames.push(RenamePlan { from_id, to_id });
            proof {
                assert(self.segs_model() =~= pre_segs.push(osegs[g as int]));
                assert(self.datas_model() =~= pre_datas.push(odatas[g as int]));
                assert(self.catalog_model() =~= pre_cat.push(to_id@));
                assert(old(self).segs_model() + osegs.take(g + 1) =~= (old(self).segs_model()
                    + osegs.take(g as int)).push(osegs[g as int]));
                assert(old(self).datas_model() + odatas.take(g + 1) =~= (old(self).datas_model()
                    + odatas.take(g as int)).push(odatas[g as int]));
                assert(self.catalog_model().take(base) =~= pre_cat.take(base));
                assert forall|x: int|
                    0 <= x < self.stored@.len() implies (#[trigger] self.stored@[x]).wf() by {
                    if x < self.stored@.len() - 1 {
                        assert(pre_segs == self.segs_model().drop_last());
                    }
                }
            }
            g += 1;
        }
        proof {
            assert(osegs.take(g as int) =~= osegs);
            assert(odatas.take(g as int) =~= odatas);
            lemma_freq_concat(old(self).segs_model(), osegs);
        }
        let meta_data = encode_meta(&self.metadata);
        MergeInOutput { renames, meta_data }
    }

    /// Bound the vocabulary to roughly the `top_n_terms` most frequent
    /// terms: the threshold is the n-th largest per-segment count, and
    /// each segment is rewritten keeping exactly the entries at or above
    /// it, under a fresh identifier.  With fewer counts than `top_n_terms`
    /// nothing changes.
    pub fn prune(&mut self, top_n_terms: usize) -> (r: Option<PruneOutput>)
        requires
            old(self).wf(),
            top_n_terms >= 1,
        ensures
            final(self).wf(),
            r is None <==> all_values(old(self).segs_model()).len() < top_n_terms,
            r is None ==> *final(self) == *old(self),
            r matches Some(out) ==> {
                &&& is_topn_threshold(
                    out.threshold,
                    all_values(old(self).segs_model()),
                    top_n_terms as int,
                )
                &&& final(self).segs_model().len() == old(self).segs_model().len()
                &&& forall|i: int|
                    0 <= i < final(self).segs_model().len()
                        ==> #[trigger] final(self).segs_model()[i]
                        == old(self).segs_model()[i].filter(
                        (|e: (Seq<u8>, u64)| e.1 >= out.threshold),
                    )
                &&& final(self).catalog_model().len() == old(self).catalog_model().len()
                &&& final(self).builder_model() == old(self).builder_model()
                &&& out.files@.len() == final(self).segs_model().len()
                &&& forall|i: int|
                    0 <= i < out.files@.len() ==> (#[trigger] out.files@[i]).id@
                        == final(self).catalog_model()[i] && fst_bytes_ok(
                        out.files@[i].segment_data@,
                    )
                        && fst_decode(out.files@[i].segment_data@) == final(self).segs_model()[i]
                        && final(self).datas_model()[i] == out.files@[i].segment_data@
                &&& out.meta_data@ == spec_encode_meta(final(self).catalog_model())
            },
    {
        let mut vals: Vec<u64> = Vec::new();
        let mut i: usize = 0;
        proof {
            assert(vals@ =~= all_values(self.segs_model().take(0)));
        }
        while i < self.stored.len()
            invariant
                old(self).wf(),
                *self == *old(self),
                0 <= i <= self.stored@.len(),
                vals@ == all_values(self.segs_model().take(i as int)),
            decreases self.stored@.len() - i,
        {
            proof {
                assert(self.stored@[i as int].wf());
            }
            let es = self.stored[i].entries();
            let ghost segv = ev(es@);
            let mut j: usize = 0;
            proof {
                assert(segv == self.segs_model()[i as int]);
                assert(vals@ =~= all_values(self.segs_model().take(i as int)) + values_of(
                    segv,
                ).take(0));
            }
            while j < es.len()
                invariant
                    old(self).wf(),
                    *self == *old(self),
                    0 <= i < self.stored@.len(),
                    0 <= j <= es@.len(),
                    segv == ev(es@),
                    segv == self.segs_model()[i as int],
                    vals@ == all_values(self.segs_model().take(i as int)) + values_of(segv).take(
                        j as int,
                    ),
                decreases es@.len() - j,
            {
                let ghost prevv = vals@;
                vals.push(es[j].1);
                proof {
                    assert(values_of(segv).take(j + 1) =~= values_of(segv).take(j as int).push(
                        segv[j as int].1,
                    ));
                    assert(segv[j as int].1 == es@[j as int].1);
                    assert(vals@ =~= all_values(self.segs_model().take(i as int)) + values_of(
                        segv,
                    ).take(j + 1));
                }
                j += 1;
            }
            proof {
                assert(values_of(segv).take(segv.len() as int) =~= values_of(segv));
                assert(values_of(segv).len() == segv.len());
                assert(es@.len() == segv.len());
                let t1 = self.segs_model().take(i + 1);
                assert(t1.drop_last() =~= self.segs_model().take(i as int));
                assert(t1.last() == self.segs_model()[i as int]);
                assert(vals@ =~= all_values(t1));
            }
            i += 1;
        }
        proof {
            assert(self.segs_model().take(self.segs_model().len() as int) =~= self.segs_model());
        }
        if vals.len() < top_n_terms {
            return None;
        }
        let ghost av = vals@;
        let sorted = sort_desc(vals);
        let t = sorted[top_n_terms - 1];
        proof {
            assert(is_topn_threshold(t, av, top_n_terms as int)) by {
                assert(sorted@.to_multiset() == av.to_multiset() && sorted_desc(sorted@)
                    && sorted@.len() == av.len() && 0 < top_n_terms as int <= sorted@.len()
                    && sorted@[top_n_terms as int - 1] == t);
            }
        }
        let ghost pred = (|e: (Seq<u8>, u64)| e.1 >= t);
        let mut new_stored: Vec<Segment> = Vec::new();
        let mut new_meta: Vec<Vec<u8>> = Vec::new();
        let mut files: Vec<SegmentFile> = Vec::new();
        let mut g: usize = 0;
        while g < self.stored.len()
            invariant
                old(self).wf(),
                *self == *old(self),
                0 <= g <= self.stored@.len(),
                pred == (|e: (Seq<u8>, u64)| e.1 >= t),
                new_stored@.len() == g,
                new_meta@.len() == g,
                files@.len() == g,
                ids_wf(idsv(new_meta@)),
                forall|x: int|
                    0 <= x < g ==> (#[trigger] new_stored@[x]).wf()
                        && new_stored@[x].entries_model() == self.segs_model()[x].filter(pred),
                forall|x: int|
                    0 <= x < g ==> (#[trigger] files@[x]).id@ == idsv(new_meta@)[x]
                        && fst_bytes_ok(files@[x].segment_data@) && fst_decode(
                        files@[x].segment_data@,
                    ) == new_stored@[x].entries_model() && new_stored@[x].data_model()
                        == files@[x].segment_data@,
            decreases self.stored@.len() - g,
        {
            proof {
                assert(self.stored@[g as int].wf());
            }
            let es = self.stored[g].entries();
            let filtered = filter_entries(&es, t);
            let seg = Segment::build(&filtered);
            let segment_data = seg.data();
            let id = random_id();
            let id_copy = copy_bytes(&id);
            let ghost pmeta = idsv(new_meta@);
            new_stored.push(seg);
            new_meta.push(id_copy);
            files.push(SegmentFile { id, segment_data });
            proof {
                assert(idsv(new_meta@) =~= pmeta.push(id_copy@));
                assert(ev(es@) == self.segs_model()[g as int]);
            }
            g += 1;
        }
        let ghost old_segs = self.segs_model();
        self.stored = new_stored;
        self.metadata = new_meta;
        proof {
            assert forall|x: int| 0 <= x < self.segs_model().len() implies #[trigger] self
                .segs_model()[x] == old_segs[x].filter(pred) by {
                assert(self.segs_model()[x] == self.stored@[x].entries_model());
            }
            assert forall|x: int| 0 <= x < files@.len() implies (#[trigger] files@[x]).id@
                == self.catalog_model()[x] && fst_decode(files@[x].segment_data@)
                == self.segs_model()[x] && self.datas_model()[x] == files@[x].segment_data@ by {
                assert(self.segs_model()[x] == self.stored@[x].entries_model());
                assert(self.datas_model()[x] == self.stored@[x].data_model());
            }
        }
        let meta_data = encode_meta(&self.metadata);
        Some(PruneOutput { threshold: t, files, meta_data })
    }

    /// Every key of every listed segment, decoded; a key that is not
    /// valid UTF-8 is passed over.  Order follows the catalog; a term
    /// stored in several segments appears once per segment.
    pub fn terms(&self) -> (r: Vec<String>)
        requires
            self.wf(),
        ensures
            strsv(r@) == all_terms(self.segs_model()),
    {
        let mut r: Vec<String> = Vec::new();
        let mut i: usize = 0;
        proof {
            assert(strsv(r@) =~= all_terms(self.segs_model().take(0)));
        }
        while i < self.stored.len()
            invariant
                self.wf(),
                0 <= i <= self.stored@.len(),
                strsv(r@) == all_terms(self.segs_model().take(i as int)),
            decreases self.stored@.len() - i,
        {
            proof {
                assert(self.stored@[i as int].wf());
            }
            let es = self.stored[i].entries();
            let ghost segv = ev(es@);
            let mut j: usize = 0;
            proof {
                assert(segv == self.segs_model()[i as int]);
                assert(strsv(r@) =~= all_terms(self.segs_model().take(i as int)) + key_strs(
                    segv.take(0),
                ));
            }
            while j < es.len()
                invariant
                    self.wf(),
                    0 <= i < self.stored@.len(),
                    0 <= j <= es@.len(),
                    segv == ev(es@),
                    segv == self.segs_model()[i as int],
                    strsv(r@) == all_terms(self.segs_model().take(i as int)) + key_strs(
                        segv.take(j as int),
                    ),
                decreases es@.len() - j,
            {
                proof {
                    assert(segv.take(j + 1).drop_last() =~= segv.take(j as int));
                    assert(segv.take(j + 1).last() == segv[j as int]);
                    assert(segv[j as int] == (es@[j as int].0@, es@[j as int].1));
                }
                let kb = copy_bytes(&es[j].0);
                match string_from_utf8(kb) {
                    Some(st) => {
                        let ghost prev = r@;
                        let ghost stv = st@;
                        r.push(st);
                        proof {
                            assert(strsv(prev).len() == prev.len());
                            assert(r@ == prev.push(r@[prev.len() as int]));
                            assert forall|q: int| 0 <= q < r@.len() implies strsv(r@)[q] == strsv(
                                prev,
                            ).push(stv)[q] by {
                                if q < prev.len() {
                                    assert(r@[q] == prev[q]);
                                }
                            }
                            assert(strsv(r@) =~= strsv(prev).push(stv));
                            assert(strsv(r@) =~= all_terms(self.segs_model().take(i as int))
                                + key_strs(segv.take(j + 1)));
                        }
                    },
                    None => {
                        proof {
                            assert(key_strs(segv.take(j + 1)) =~= key_strs(segv.take(j as int)));
                        }
                    },
                }
                j += 1;
            }
            proof {
                assert(segv.take(segv.len() as int) =~= segv);
                assert(es@.len() == segv.len());
                let t1 = self.segs_model().take(i + 1);
                assert(t1.drop_last() =~= self.segs_model().take(i as int));
                assert(t1.last() == self.segs_model()[i as int]);
                assert(strsv(r@) =~= all_terms(t1));
            }
            i += 1;
        }
        proof {
            assert(self.segs_model().take(self.segs_model().len() as int) =~= self.segs_model());
        }
        r
    }

    /// Fuzzy lookup: candidate keys within `max_edit_distance` of `term`.
    /// Fuzzy lookup.  The result is exactly the named automaton output
    /// of every segment, decoded and filtered by the verified edit
    /// distance: sound (every returned string is a stored key within the
    /// bound) and, whenever the automaton builds, complete (every stored
    /// UTF-8 key within the bound appears).  A term found in several
    /// segments appears once per segment.
    #[verifier::loop_isolation(false)]
    pub fn search(&self, term: &str, max_edit_distance: u32) -> (r: Vec<String>)
        requires
            self.wf(),
        ensures
            strsv(r@) == search_model(self.segs_model(), term@, max_edit_distance),
            forall|i: int|
                0 <= i < r@.len() ==> edit_dist(term@, (#[trigger] r@[i])@)
                    <= max_edit_distance,
            forall|i: int|
                0 <= i < r@.len() ==> exists|g: int|
                    #![trigger self.segs_model()[g]]
                    0 <= g < self.segs_model().len() && lookup(
                        self.segs_model()[g],
                        encode_utf8((#[trigger] r@[i])@),
                    ) is Some,
            lev_aut_ok(term@, max_edit_distance) ==> forall|g: int, i: int|
                #![trigger self.segs_model()[g][i]]
                (0 <= g < self.segs_model().len() && 0 <= i < self.segs_model()[g].len()
                    && vstd::utf8::valid_utf8(self.segs_model()[g][i].0) && edit_dist(
                    term@,
                    vstd::utf8::decode_utf8(self.segs_model()[g][i].0),
                ) <= max_edit_distance) ==> strsv(r@).contains(
                    vstd::utf8::decode_utf8(self.segs_model()[g][i].0),
                ),
    {
        let mut r: Vec<String> = Vec::new();
        let mut g: usize = 0;
        proof {
            assert(strsv(r@) =~= Seq::<Seq<char>>::empty());
            assert(self.segs_model().take(0) =~= Seq::<Seq<(Seq<u8>, u64)>>::empty());
        }
        while g < self.stored.len()
            invariant
                0 <= g <= self.stored@.len(),
                strsv(r@) == search_model(
                    self.segs_model().take(g as int),
                    term@,
                    max_edit_distance,
                ),
                forall|i: int|
                    0 <= i < r@.len() ==> edit_dist(term@, (#[trigger] r@[i])@)
                        <= max_edit_distance,
                forall|i: int|
                    0 <= i < r@.len() ==> exists|g2: int|
                        #![trigger self.segs_model()[g2]]
                        0 <= g2 < self.segs_model().len() && lookup(
                            self.segs_model()[g2],
                            encode_utf8((#[trigger] r@[i])@),
                        ) is Some,
                forall|gp: int|
                    0 <= gp < g ==> (lev_aut_ok(term@, max_edit_distance)
                        ==> crate::segment::fuzzy_complete(
                        #[trigger] self.segs_model()[gp],
                        term@,
                        max_edit_distance,
                    )),
            decreases self.stored@.len() - g,
        {
            proof {
                assert(self.stored@[g as int].wf());
                assert(self.segs_model()[g as int] == self.stored@[g as int].entries_model());
            }
            match self.stored[g].fuzzy(term, max_edit_distance) {
                None => {
                    proof {
                        assert(!lev_aut_ok(term@, max_edit_distance));
                        assert(self.segs_model().take(g + 1).drop_last() =~= self.segs_model().take(
                            g as int,
                        ));
                        assert(search_model(self.segs_model().take(g + 1), term@, max_edit_distance)
                            == search_model(
                            self.segs_model().take(g as int),
                            term@,
                            max_edit_distance,
                        ));
                    }
                },
                Some(keys) => {
                    let ghost segv = self.segs_model()[g as int];
                    proof {
                        assert(lev_aut_ok(term@, max_edit_distance));
                        assert(bkeys(keys@) == fuzzy_of(segv, term@, max_edit_distance));
                        assert(crate::segment::fuzzy_complete(segv, term@, max_edit_distance));
                    }
                    let found = matches_from_keys(term, &keys, max_edit_distance);
                    proof {
                        lemma_matches_elems(bkeys(keys@), term@, max_edit_distance);
                    }
                    let ghost pre = r@;
                    let mut c: usize = 0;
                    while c < found.len()
                        invariant
                            0 <= c <= found@.len(),
                            strsv(found@) == matches_of(bkeys(keys@), term@, max_edit_distance),
                            strsv(r@) == strsv(pre) + strsv(found@).take(c as int),
                            forall|i: int|
                                0 <= i < r@.len() ==> edit_dist(term@, (#[trigger] r@[i])@)
                                    <= max_edit_distance,
                            forall|i: int|
                                0 <= i < r@.len() ==> exists|g2: int|
                                    #![trigger self.segs_model()[g2]]
                                    0 <= g2 < self.segs_model().len() && lookup(
                                        self.segs_model()[g2],
                                        encode_utf8((#[trigger] r@[i])@),
                                    ) is Some,
                        decreases found@.len() - c,
                    {
                        let kept = found[c].clone();
                        let ghost keptv = kept@;
                        let ghost prev = r@;
                        proof {
                            assert(keptv == strsv(found@)[c as int]);
                            assert(edit_dist(term@, keptv) <= max_edit_distance);
                            let j = choose|j: int|
                                0 <= j < bkeys(keys@).len() && vstd::utf8::valid_utf8(
                                    bkeys(keys@)[j],
                                ) && strsv(found@)[c as int] == vstd::utf8::decode_utf8(
                                    bkeys(keys@)[j],
                                );
                            vstd::utf8::decode_utf8_encode_utf8(bkeys(keys@)[j]);
                            assert(encode_utf8(keptv) == bkeys(keys@)[j]);
                            assert(bkeys(keys@)[j] == keys@[j]@);
                            assert(lookup(segv, encode_utf8(keptv)) is Some);
                        }
                        r.push(kept);
                        proof {
                            lemma_strsv_push(prev, r@, r@[prev.len() as int]);
                            assert(strsv(found@).take(c + 1) =~= strsv(found@).take(
                                c as int,
                            ).push(keptv));
                            assert(strsv(r@) =~= strsv(pre) + strsv(found@).take(c + 1));
                            assert forall|i: int| 0 <= i < r@.len() implies exists|g2: int|
                                #![trigger self.segs_model()[g2]]
                                0 <= g2 < self.segs_model().len() && lookup(
                                    self.segs_model()[g2],
                                    encode_utf8((#[trigger] r@[i])@),
                                ) is Some by {
                                if i < r@.len() - 1 {
                                    assert(r@[i] == prev[i]);
                                    let w = choose|g2: int|
                                        #![trigger self.segs_model()[g2]]
                                        0 <= g2 < self.segs_model().len() && lookup(
                                            self.segs_model()[g2],
                                            encode_utf8(prev[i]@),
                                        ) is Some;
                                    assert(lookup(
                                        self.segs_model()[w],
                                        encode_utf8(r@[i]@),
                                    ) is Some);
                                } else {
                                    assert(r@[i] == kept);
                                    assert(lookup(
                                        self.segs_model()[g as int],
                                        encode_utf8(r@[i]@),
                                    ) is Some);
                                }
                            }
                        }
                        c += 1;
                    }
                    proof {
                        assert(strsv(found@).take(found@.len() as int) =~= strsv(found@));
                        assert(self.segs_model().take(g + 1).drop_last() =~= self.segs_model().take(
                            g as int,
                        ));
                        assert(self.segs_model().take(g + 1).last() == segv);
                        assert(all_matches(self.segs_model().take(g + 1), term@, max_edit_distance)
                            == all_matches(self.segs_model().take(g as int), term@, max_edit_distance)
                            + matches_of(
                            fuzzy_of(segv, term@, max_edit_distance),
                            term@,
                            max_edit_distance,
                        ));
                        assert(strsv(r@) =~= search_model(
                            self.segs_model().take(g + 1),
                            term@,
                            max_edit_distance,
                        ));
                    }
                },
            }
            g += 1;
        }
        proof {
            assert(self.segs_model().take(self.segs_model().len() as int) =~= self.segs_model());
            if lev_aut_ok(term@, max_edit_distance) {
                assert forall|g2: int, i: int|
                    #![trigger self.segs_model()[g2][i]]
                    (0 <= g2 < self.segs_model().len() && 0 <= i < self.segs_model()[g2].len()
                        && vstd::utf8::valid_utf8(self.segs_model()[g2][i].0) && edit_dist(
                        term@,
                        vstd::utf8::decode_utf8(self.segs_model()[g2][i].0),
                    ) <= max_edit_distance) implies strsv(r@).contains(
                    vstd::utf8::decode_utf8(self.segs_model()[g2][i].0),
                ) by {
                    let segv = self.segs_model()[g2];
                    let key = segv[i].0;
                    assert(crate::segment::fuzzy_complete(segv, term@, max_edit_distance));
                    assert(fuzzy_of(segv, term@, max_edit_distance).contains(key));
                    let j = choose|j: int|
                        0 <= j < fuzzy_of(segv, term@, max_edit_distance).len() && fuzzy_of(
                            segv,
                            term@,
                            max_edit_distance,
                        )[j] == key;
                    lemma_matches_contains(
                        fuzzy_of(segv, term@, max_edit_distance),
                        term@,
                        max_edit_distance,
                        j,
                    );
                    lemma_all_matches_mono(
                        self.segs_model(),
                        term@,
                        max_edit_distance,
                        g2,
                        vstd::utf8::decode_utf8(key),
                    );
                }
            }
        }
        r
    }
}


/// Appending one string appends its view.
pub proof fn lemma_strsv_push(prev: Seq<String>, cur: Seq<String>, s: String)
    requires
        cur == prev.push(s),
    ensures
        strsv(cur) == strsv(prev).push(s@),
{
    assert(strsv(prev).len() == prev.len());
    assert forall|q: int| 0 <= q < cur.len() implies strsv(cur)[q] == strsv(prev).push(s@)[q] by {
        if q < prev.len() {
            assert(cur[q] == prev[q]);
        } else {
            assert(cur[q] == s);
        }
    }
    assert(strsv(cur) =~= strsv(prev).push(s@));
}

/// Decode the automaton's keys and keep exactly those within the
/// edit-distance bound of the query, in order.  This is the verified
/// half of fuzzy search: whatever the automaton handed back, only true
/// matches pass.
pub fn matches_from_keys(term: &str, keys: &Vec<Vec<u8>>, max_edit_distance: u32) -> (r: Vec<
    String,
>)
    ensures
        strsv(r@) == matches_of(bkeys(keys@), term@, max_edit_distance),
{
    let tc = chars_vec(term);
    let bound = max_edit_distance as usize;
    let mut r: Vec<String> = Vec::new();
    let mut j: usize = 0;
    proof {
        assert(strsv(r@) =~= matches_of(bkeys(keys@).take(0), term@, max_edit_distance));
    }
    while j < keys.len()
        invariant
            0 <= j <= keys@.len(),
            tc@ == term@,
            bound == max_edit_distance,
            strsv(r@) == matches_of(bkeys(keys@).take(j as int), term@, max_edit_distance),
        decreases keys@.len() - j,
    {
        proof {
            assert(bkeys(keys@).take(j + 1).drop_last() =~= bkeys(keys@).take(j as int));
            assert(bkeys(keys@).take(j + 1).last() == bkeys(keys@)[j as int]);
            assert(bkeys(keys@)[j as int] == keys@[j as int]@);
        }
        let kb = copy_bytes(&keys[j]);
        match crate::text::string_from_utf8(kb) {
            Some(st) => {
                let cv = chars_vec(st.as_str());
                let d = edit_distance(&tc, &cv);
                if d <= bound {
                    let ghost prev = r@;
                    let ghost stv = st@;
                    r.push(st);
                    proof {
                        lemma_strsv_push(prev, r@, r@[prev.len() as int]);
                        assert(strsv(r@) =~= matches_of(
                            bkeys(keys@).take(j + 1),
                            term@,
                            max_edit_distance,
                        ));
                    }
                } else {
                    proof {
                        assert(matches_of(bkeys(keys@).take(j + 1), term@, max_edit_distance)
                            =~= matches_of(bkeys(keys@).take(j as int), term@, max_edit_distance));
                    }
                }
            },
            None => {
                proof {
                    assert(matches_of(bkeys(keys@).take(j + 1), term@, max_edit_distance)
                        =~= matches_of(bkeys(keys@).take(j as int), term@, max_edit_distance));
                }
            },
        }
        j += 1;
    }
    proof {
        assert(bkeys(keys@).take(keys@.len() as int) =~= bkeys(keys@));
    }
    r
}

/// What compaction hands to the storage layer.
pub struct MergeOutput {
    /// The identifier of the merged segment.
    pub id: Vec<u8>,
    /// The serialized merged segment, to be written as `<id>.dict`.
    pub segment_data: Vec<u8>,
    /// The serialized catalog, now listing only the merged segment.
    pub meta_data: Vec<u8>,
}

/// One file transfer of a union-merge: the segment file of the consumed
/// dictionary, and the name it gets in this dictionary's directory.
pub struct RenamePlan {
    /// The identifier the segment had in the consumed dictionary.
    pub from_id: Vec<u8>,
    /// The fresh identifier it carries here.
    pub to_id: Vec<u8>,
}

/// What a union-merge hands to the storage layer.
pub struct MergeInOutput {
    /// The file renames to carry out, in catalog order.
    pub renames: Vec<RenamePlan>,
    /// The serialized catalog after the union.
    pub meta_data: Vec<u8>,
}


/// One rewritten segment file of a prune.
pub struct SegmentFile {
    /// The fresh identifier of the rewritten segment.
    pub id: Vec<u8>,
    /// Its serialized form, to be written as `<id>.dict`.
    pub segment_data: Vec<u8>,
}

/// What a prune hands to the storage layer.
pub struct PruneOutput {
    /// The per-segment count at or above which entries survive.
    pub threshold: u64,
    /// The rewritten segments, in catalog order.
    pub files: Vec<SegmentFile>,
    /// The serialized catalog after the rewrite.
    pub meta_data: Vec<u8>,
}

/// The counts of a segment's entries, in order.
pub open spec fn values_of(s: Seq<(Seq<u8>, u64)>) -> Seq<u64> {
    s.map_values(|e: (Seq<u8>, u64)| e.1)
}

/// All per-segment counts across a list of segments.
pub open spec fn all_values(segs: Seq<Seq<(Seq<u8>, u64)>>) -> Seq<u64>
    decreases segs.len(),
{
    if segs.len() == 0 {
        Seq::empty()
    } else {
        all_values(segs.drop_last()) + values_of(segs.last())
    }
}

/// Weakly descending.
pub open spec fn sorted_desc(s: Seq<u64>) -> bool {
    forall|i: int, j: int| 0 <= i < j < s.len() ==> s[i] >= s[j]
}

/// `t` is the `n`-th largest of `vals`, multiplicity counted.
pub open spec fn is_topn_threshold(t: u64, vals: Seq<u64>, n: int) -> bool {
    exists|sorted: Seq<u64>|
        #![auto]
        sorted.to_multiset() == vals.to_multiset() && sorted_desc(sorted) && sorted.len()
            == vals.len() && 0 < n <= sorted.len() && sorted[n - 1] == t
}

/// Every element of a filtered list stands in the unfiltered one.
pub proof fn lemma_filter_elems<A>(s: Seq<A>, pred: spec_fn(A) -> bool)
    ensures
        forall|i: int|
            0 <= i < s.filter(pred).len() ==> exists|j: int|
                0 <= j < s.len() && #[trigger] s.filter(pred)[i] == s[j],
    decreases s.len(),
{
    reveal(Seq::filter);
    if s.len() > 0 {
        lemma_filter_elems(s.drop_last(), pred);
        let f = s.filter(pred);
        let fd = s.drop_last().filter(pred);
        assert forall|i: int| 0 <= i < f.len() implies exists|j: int|
            0 <= j < s.len() && #[trigger] f[i] == s[j] by {
            if i < fd.len() {
                let j = choose|j: int| 0 <= j < s.drop_last().len() && fd[i] == s.drop_last()[j];
                assert(f[i] == s[j]);
            } else {
                assert(f[i] == s.last());
                assert(f[i] == s[s.len() - 1]);
            }
        }
    }
}

/// Filtering a strictly sorted entry list keeps it strictly sorted.
pub proof fn lemma_filter_sorted(s: Seq<(Seq<u8>, u64)>, pred: spec_fn((Seq<u8>, u64)) -> bool)
    requires
        sorted_strict(s),
    ensures
        sorted_strict(s.filter(pred)),
    decreases s.len(),
{
    reveal(Seq::filter);
    if s.len() > 0 {
        assert(sorted_strict(s.drop_last()));
        lemma_filter_sorted(s.drop_last(), pred);
        lemma_filter_elems(s.drop_last(), pred);
        let fd = s.drop_last().filter(pred);
        if pred(s.last()) {
            let f = fd.push(s.last());
            assert forall|i: int, j: int| 0 <= i < j < f.len() implies crate::order::lex_lt(
                f[i].0,
                f[j].0,
            ) by {
                if j == f.len() - 1 {
                    let w = choose|w: int|
                        0 <= w < s.drop_last().len() && fd[i] == s.drop_last()[w];
                    assert(crate::order::lex_lt(s[w].0, s.last().0));
                }
            }
        }
    }
}

/// Sort a list of counts into weakly descending order.
fn sort_desc(v: Vec<u64>) -> (r: Vec<u64>)
    ensures
        r@.to_multiset() == v@.to_multiset(),
        r@.len() == v@.len(),
        sorted_desc(r@),
{
    let mut rem = v;
    let mut out: Vec<u64> = Vec::new();
    let ghost orig = rem@;
    proof {
        assert(out@.to_multiset().add(rem@.to_multiset()) =~= orig.to_multiset());
    }
    while rem.len() > 0
        invariant
            out@.to_multiset().add(rem@.to_multiset()) == orig.to_multiset(),
            out@.len() + rem@.len() == orig.len(),
            sorted_desc(out@),
            forall|x: int|
                0 <= x < rem@.len() && out@.len() > 0 ==> out@.last() >= #[trigger] rem@[x],
        decreases rem@.len(),
    {
        let mut mi: usize = 0;
        let mut j: usize = 1;
        while j < rem.len()
            invariant
                0 <= mi < j <= rem@.len(),
                forall|x: int| 0 <= x < j ==> rem@[mi as int] >= #[trigger] rem@[x],
            decreases rem@.len() - j,
        {
            if rem[j] > rem[mi] {
                mi = j;
            }
            j += 1;
        }
        let ghost prem = rem@;
        let ghost pout = out@;
        let val = rem.remove(mi);
        out.push(val);
        proof {
            assert(val == prem[mi as int]);
            assert(prem.contains(val));
            assert(prem.to_multiset().contains(val));
            assert(rem@ == prem.remove(mi as int));
            assert(prem.remove(mi as int).to_multiset() =~= prem.to_multiset().remove(
                prem[mi as int],
            ));
            assert(out@ == pout.push(val));
            assert(pout.push(val).to_multiset() =~= pout.to_multiset().insert(val));
            assert(rem@.to_multiset() =~= prem.to_multiset().remove(val));
            assert(out@.to_multiset() =~= pout.to_multiset().insert(val));
            assert(out@.to_multiset().add(rem@.to_multiset()) =~= pout.to_multiset().add(
                prem.to_multiset(),
            ));
            assert forall|x: int| 0 <= x < rem@.len() implies out@.last() >= #[trigger] rem@[x] by {
                if x < mi {
                    assert(rem@[x] == prem[x]);
                } else {
                    assert(rem@[x] == prem[x + 1]);
                }
            }
            assert forall|i: int, j2: int| 0 <= i < j2 < out@.len() implies out@[i] >= out@[j2] by {
                if j2 == out@.len() - 1 && pout.len() > 0 {
                    assert(prem.to_multiset().contains(prem[mi as int]));
                    assert(pout.last() >= prem[mi as int]);
                }
            }
        }
    }
    out
}


/// Keep exactly the entries whose count reaches the threshold.
fn filter_entries(entries: &Vec<(Vec<u8>, u64)>, t: u64) -> (r: Vec<(Vec<u8>, u64)>)
    requires
        sorted_strict(ev(entries@)),
        positive_counts(ev(entries@)),
    ensures
        ev(r@) == ev(entries@).filter(|e: (Seq<u8>, u64)| e.1 >= t),
        sorted_strict(ev(r@)),
        positive_counts(ev(r@)),
{
    let ghost pred = (|e: (Seq<u8>, u64)| e.1 >= t);
    let mut r: Vec<(Vec<u8>, u64)> = Vec::new();
    let mut j: usize = 0;
    proof {
        reveal(Seq::filter);
        assert(ev(r@) =~= ev(entries@).take(0).filter(pred));
    }
    while j < entries.len()
        invariant
            0 <= j <= entries@.len(),
            sorted_strict(ev(entries@)),
            positive_counts(ev(entries@)),
            positive_counts(ev(r@)),
            ev(r@) == ev(entries@).take(j as int).filter(pred),
            pred == (|e: (Seq<u8>, u64)| e.1 >= t),
        decreases entries@.len() - j,
    {
        proof {
            reveal(Seq::filter);
            assert(ev(entries@).take(j + 1).drop_last() =~= ev(entries@).take(j as int));
            assert(ev(entries@).take(j + 1).last() == ev(entries@)[j as int]);
            assert(ev(entries@)[j as int] == (entries@[j as int].0@, entries@[j as int].1));
        }
        if entries[j].1 >= t {
            let ghost prev = r@;
            let e0 = copy_bytes(&entries[j].0);
            let e1 = entries[j].1;
            r.push((e0, e1));
            proof {
                assert(ev(prev).len() == prev.len());
                assert(r@ == prev.push((e0, e1)));
                assert forall|q: int| 0 <= q < r@.len() implies ev(r@)[q] == ev(prev).push(
                    ev(entries@)[j as int],
                )[q] by {
                    if q < prev.len() {
                        assert(r@[q] == prev[q]);
                    } else {
                        assert(r@[q] == (e0, e1));
                    }
                }
                assert(ev(r@) =~= ev(prev).push(ev(entries@)[j as int]));
                assert(ev(entries@)[j as int].1 >= 1);
                assert forall|x: int| 0 <= x < ev(r@).len() implies (#[trigger] ev(r@)[x]).1
                    >= 1 by {
                    if x < ev(prev).len() {
                        assert(ev(r@)[x] == ev(prev)[x]);
                    }
                }
            }
        }
        j += 1;
    }
    proof {
        assert(ev(entries@).take(entries@.len() as int) =~= ev(entries@));
        lemma_filter_sorted(ev(entries@), pred);
    }
    r
}


/// The views of a list of strings.
pub open spec fn strsv(s: Seq<String>) -> Seq<Seq<char>> {
    s.map_values(|x: String| x@)
}

/// The keys within the edit-distance bound of the query, decoded, in
/// the order the automaton yielded them.
pub open spec fn matches_of(keys: Seq<Seq<u8>>, term: Seq<char>, dist: u32) -> Seq<Seq<char>>
    decreases keys.len(),
{
    if keys.len() == 0 {
        Seq::empty()
    } else {
        matches_of(keys.drop_last(), term, dist) + (if vstd::utf8::valid_utf8(keys.last())
            && edit_dist(term, vstd::utf8::decode_utf8(keys.last())) <= dist {
            seq![vstd::utf8::decode_utf8(keys.last())]
        } else {
            Seq::empty()
        })
    }
}

/// The match lists of every segment's automaton output, concatenated in
/// catalog order.
pub open spec fn all_matches(segs: Seq<Seq<(Seq<u8>, u64)>>, term: Seq<char>, dist: u32) -> Seq<
    Seq<char>,
>
    decreases segs.len(),
{
    if segs.len() == 0 {
        Seq::empty()
    } else {
        all_matches(segs.drop_last(), term, dist) + matches_of(
            crate::segment::fuzzy_of(segs.last(), term, dist),
            term,
            dist,
        )
    }
}

/// What fuzzy search returns: nothing when no automaton could be built,
/// else the distance-filtered automaton output of every segment.
pub open spec fn search_model(segs: Seq<Seq<(Seq<u8>, u64)>>, term: Seq<char>, dist: u32) -> Seq<
    Seq<char>,
> {
    if crate::segment::lev_aut_ok(term, dist) {
        all_matches(segs, term, dist)
    } else {
        Seq::empty()
    }
}

/// Every match is within the bound and decodes one of the keys.
pub proof fn lemma_matches_elems(keys: Seq<Seq<u8>>, term: Seq<char>, dist: u32)
    ensures
        forall|i: int|
            0 <= i < matches_of(keys, term, dist).len() ==> edit_dist(
                term,
                #[trigger] matches_of(keys, term, dist)[i],
            ) <= dist && exists|j: int|
                0 <= j < keys.len() && vstd::utf8::valid_utf8(#[trigger] keys[j]) && matches_of(
                    keys,
                    term,
                    dist,
                )[i] == vstd::utf8::decode_utf8(keys[j]),
    decreases keys.len(),
{
    if keys.len() > 0 {
        lemma_matches_elems(keys.drop_last(), term, dist)
;        let md = matches_of(keys.drop_last(), term, dist);
        assert forall|i: int| 0 <= i < matches_of(keys, term, dist).len() implies edit_dist(
            term,
            #[trigger] matches_of(keys, term, dist)[i],
        ) <= dist && exists|j: int|
            0 <= j < keys.len() && vstd::utf8::valid_utf8(#[trigger] keys[j]) && matches_of(
                keys,
                term,
                dist,
            )[i] == vstd::utf8::decode_utf8(keys[j]) by {
            if i < md.len() {
                assert(matches_of(keys, term, dist)[i] == md[i]);
                let j = choose|j: int|
                    0 <= j < keys.drop_last().len() && vstd::utf8::valid_utf8(
                        #[trigger] keys.drop_last()[j],
                    ) && md[i] == vstd::utf8::decode_utf8(keys.drop_last()[j]);
                assert(keys[j] == keys.drop_last()[j]);
            } else {
                assert(matches_of(keys, term, dist)[i] == vstd::utf8::decode_utf8(keys.last()));
                assert(keys[keys.len() - 1] == keys.last());
            }
        }
    }
}

/// A key within the bound contributes its decoding to the match list.
pub proof fn lemma_matches_contains(keys: Seq<Seq<u8>>, term: Seq<char>, dist: u32, j: int)
    requires
        0 <= j < keys.len(),
        vstd::utf8::valid_utf8(keys[j]),
        edit_dist(term, vstd::utf8::decode_utf8(keys[j])) <= dist,
    ensures
        matches_of(keys, term, dist).contains(vstd::utf8::decode_utf8(keys[j])),
    decreases keys.len(),
{
    let md = matches_of(keys.drop_last(), term, dist);
    if j == keys.len() - 1 {
        assert(keys[j] == keys.last());
        assert(matches_of(keys, term, dist)[md.len() as int] == vstd::utf8::decode_utf8(keys[j]));
    } else {
        assert(keys.drop_last()[j] == keys[j]);
        lemma_matches_contains(keys.drop_last(), term, dist, j);
        let w = choose|w: int| 0 <= w < md.len() && md[w] == vstd::utf8::decode_utf8(keys[j]);
        assert(matches_of(keys, term, dist)[w] == vstd::utf8::decode_utf8(keys[j]));
    }
}

/// Anything one segment's match list holds, the concatenation holds.
pub proof fn lemma_all_matches_mono(
    segs: Seq<Seq<(Seq<u8>, u64)>>,
    term: Seq<char>,
    dist: u32,
    g: int,
    x: Seq<char>,
)
    requires
        0 <= g < segs.len(),
        matches_of(crate::segment::fuzzy_of(segs[g], term, dist), term, dist).contains(x),
    ensures
        all_matches(segs, term, dist).contains(x),
    decreases segs.len(),
{
    let md = all_matches(segs.drop_last(), term, dist);
    let tail = matches_of(crate::segment::fuzzy_of(segs.last(), term, dist), term, dist);
    if g == segs.len() - 1 {
        assert(segs[g] == segs.last());
        let w = choose|w: int| 0 <= w < tail.len() && tail[w] == x;
        assert(all_matches(segs, term, dist)[md.len() + w] == x);
    } else {
        assert(segs.drop_last()[g] == segs[g]);
        lemma_all_matches_mono(segs.drop_last(), term, dist, g, x);
        let w = choose|w: int| 0 <= w < md.len() && md[w] == x;
        assert(all_matches(segs, term, dist)[w] == x);
    }
}

/// The decodable keys of an entry list, in order.
pub open spec fn key_strs(s: Seq<(Seq<u8>, u64)>) -> Seq<Seq<char>>
    decreases s.len(),
{
    if s.len() == 0 {
        Seq::empty()
    } else {
        key_strs(s.drop_last()) + (if vstd::utf8::valid_utf8(s.last().0) {
            seq![vstd::utf8::decode_utf8(s.last().0)]
        } else {
            Seq::empty()
        })
    }
}

/// The decodable keys of every segment, in catalog order.
pub open spec fn all_terms(segs: Seq<Seq<(Seq<u8>, u64)>>) -> Seq<Seq<char>>
    decreases segs.len(),
{
    if segs.len() == 0 {
        Seq::empty()
    } else {
        all_terms(segs.drop_last()) + key_strs(segs.last())
    }
}

/// Reopen idempotence.  A dictionary opened from another's persisted
/// images answers every frequency query identically: each reopened
/// segment holds what the stored one's serialized form decodes to
/// (which is what `TermDict::open` promises of the images the commit,
/// compaction and prune operations hand out, with the catalog carried
/// over by the proved codec round trip).
pub proof fn lemma_reopen_preserves_freq(d: &TermDict, d2: &TermDict)
    requires
        d.wf(),
        d2.segs_model().len() == d.segs_model().len(),
        forall|i: int|
            0 <= i < d.segs_model().len() ==> #[trigger] d2.segs_model()[i] == fst_decode(
                d.datas_model()[i],
            ),
    ensures
        forall|k: Seq<u8>| #[trigger] d2.freq_model(k) == d.freq_model(k),
{
    assert forall|i: int| 0 <= i < d.segs_model().len() implies #[trigger] d.segs_model()[i]
        == d2.segs_model()[i] by {
        assert(d.stored@[i].wf());
        d.stored@[i].lemma_wf_decode();
        assert(d.segs_model()[i] == d.stored@[i].entries_model());
        assert(d.datas_model()[i] == d.stored@[i].data_model());
    }
    assert(d.segs_model() =~= d2.segs_model());
}

/// Saturating addition associates.
pub proof fn lemma_combine_assoc(a: Option<u64>, b: Option<u64>, c: Option<u64>)
    ensures
        combine(combine(a, b), c) == combine(a, combine(b, c)),
{
}

/// Over segments whose counts are all positive, a present aggregate is
/// never zero.
pub proof fn lemma_freq_positive(segs: Seq<Seq<(Seq<u8>, u64)>>, k: Seq<u8>)
    requires
        forall|g: int| 0 <= g < segs.len() ==> positive_counts(#[trigger] segs[g]),
    ensures
        freq_of(segs, k) matches Some(v) ==> v >= 1,
    decreases segs.len(),
{
    if segs.len() > 0 {
        assert forall|g: int| 0 <= g < segs.drop_last().len() implies positive_counts(
            #[trigger] segs.drop_last()[g],
        ) by {
            assert(segs.drop_last()[g] == segs[g]);
        }
        lemma_freq_positive(segs.drop_last(), k);
        crate::merge::lemma_lookup_props(segs.last(), k);
        assert(segs[segs.len() - 1] == segs.last());
        if lookup(segs.last(), k) is Some {
            let i = choose|i: int|
                0 <= i < segs.last().len() && segs.last()[i].0 == k && lookup(segs.last(), k)
                    == Some(segs.last()[i].1);
            assert(segs.last()[i].1 >= 1);
        }
    }
}

/// Aggregating over two segment lists in sequence equals combining their
/// aggregates.
pub proof fn lemma_freq_concat(s1: Seq<Seq<(Seq<u8>, u64)>>, s2: Seq<Seq<(Seq<u8>, u64)>>)
    ensures
        forall|k: Seq<u8>| #[trigger]
            freq_of(s1 + s2, k) == combine(freq_of(s1, k), freq_of(s2, k)),
    decreases s2.len(),
{
    if s2.len() == 0 {
        assert(s1 + s2 =~= s1);
        assert forall|k: Seq<u8>| #[trigger] freq_of(s1 + s2, k) == combine(
            freq_of(s1, k),
            freq_of(s2, k),
        ) by {
            assert(freq_of(s2, k) is None);
        }
    } else {
        lemma_freq_concat(s1, s2.drop_last());
        assert forall|k: Seq<u8>| #[trigger] freq_of(s1 + s2, k) == combine(
            freq_of(s1, k),
            freq_of(s2, k),
        ) by {
            assert((s1 + s2).drop_last() =~= s1 + s2.drop_last());
            assert((s1 + s2).last() == s2.last());
            assert(freq_of(s1 + s2, k) == combine(
                freq_of(s1 + s2.drop_last(), k),
                lookup(s2.last(), k),
            ));
            assert(freq_of(s1 + s2.drop_last(), k) == combine(
                freq_of(s1, k),
                freq_of(s2.drop_last(), k),
            ));
            lemma_combine_assoc(freq_of(s1, k), freq_of(s2.drop_last(), k), lookup(s2.last(), k));
        }
    }
}

} // verus!
