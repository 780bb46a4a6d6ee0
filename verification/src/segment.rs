//! Immutable on-disk segments: ordered `term -> count` maps held as
//! finite-state transducers.  The transducer library is trusted only
//! through the narrow contracts stated here; everything around the calls
//! is verified.
//!
//! A serialized segment carries only a header, footer arithmetic and a
//! checksum, so opening validates no more than that: every guarantee
//! about an opened segment's contents is conditional on the bytes being
//! genuine builder output (`fst_bytes_ok`).
use vstd::prelude::*;

use crate::merge::{copy_bytes, ev, lookup, positive_counts, sorted_strict};
use crate::Error;
use fst::IntoStreamer;

verus! {

#[verifier::external_type_specification]
#[verifier::external_body]
#[verifier::reject_recursive_types(D)]
pub struct ExFstMap<D>(fst::Map<D>);

/// The ordered entries a transducer map holds.
pub uninterp spec fn seg_entries(m: fst::Map<Vec<u8>>) -> Seq<(Seq<u8>, u64)>;

/// The map came out of the transducer library's builder, so reading it
/// cannot fault.
pub uninterp spec fn seg_ok(m: fst::Map<Vec<u8>>) -> bool;

/// Whether `bytes` is what the transducer builder serializes from a
/// strictly sorted entry list with positive counts — the only serialized
/// segments this library ever produces.
pub uninterp spec fn fst_bytes_ok(bytes: Seq<u8>) -> bool;

/// The entries such a serialized segment encodes.
pub uninterp spec fn fst_decode(bytes: Seq<u8>) -> Seq<(Seq<u8>, u64)>;

/// Whether a Levenshtein automaton for this query and bound can be
/// built (it fails only when the automaton grows past the library's
/// state limit; the outcome depends on the query and bound alone).
pub uninterp spec fn lev_aut_ok(term: Seq<char>, dist: u32) -> bool;

/// The keys of an entry list that the Levenshtein automaton for
/// `(term, dist)` accepts, in ascending order — a function of the
/// entries and the query alone.
pub uninterp spec fn fuzzy_of(entries: Seq<(Seq<u8>, u64)>, term: Seq<char>, dist: u32) -> Seq<
    Seq<u8>,
>;

/// The views of a list of byte keys.
pub open spec fn bkeys(s: Seq<Vec<u8>>) -> Seq<Seq<u8>> {
    s.map_values(|v: Vec<u8>| v@)
}

/// Every stored key within the edit-distance bound is among the
/// automaton's results.
pub open spec fn fuzzy_complete(entries: Seq<(Seq<u8>, u64)>, term: Seq<char>, dist: u32) -> bool {
    forall|i: int|
        0 <= i < entries.len() ==> ((vstd::utf8::valid_utf8((#[trigger] entries[i]).0)
            && crate::editdist::edit_dist(term, vstd::utf8::decode_utf8(entries[i].0)) <= dist)
            ==> fuzzy_of(entries, term, dist).contains(entries[i].0))
}

/// Relies on fst::MapBuilder building in memory: fed strictly ascending
/// unique keys it cannot fail, and it serializes exactly these entries.
#[verifier::external_body]
fn fst_build(entries: &Vec<(Vec<u8>, u64)>) -> (r: Vec<u8>)
    requires
        sorted_strict(ev(entries@)),
        positive_counts(ev(entries@)),
    ensures
        fst_bytes_ok(r@),
        fst_decode(r@) == ev(entries@),
{
    let mut b = fst::MapBuilder::memory();
    b.extend_iter(entries.iter().map(|e| (&e.0, e.1))).expect("keys ascend strictly");
    b.into_inner().expect("an in-memory writer cannot fail")
}

/// Relies on fst::Map::new and fst::raw::Fst::verify: genuine builder
/// output is accepted (its header and checksum are intact) and decodes
/// back to its entries, sorted and positive.  The validation is only a
/// header check plus the checksum, so acceptance of any other bytes
/// proves nothing about them, and reading such a map may fault.
#[verifier::external_body]
fn fst_open(data: Vec<u8>) -> (r: Option<fst::Map<Vec<u8>>>)
    ensures
        fst_bytes_ok(data@) ==> r is Some,
        r matches Some(m) ==> (fst_bytes_ok(data@) ==> seg_ok(m) && seg_entries(m) == fst_decode(
            data@,
        ) && sorted_strict(seg_entries(m)) && positive_counts(seg_entries(m))),
{
    match fst::Map::new(data) {
        Ok(m) => {
            if m.as_fst().verify().is_ok() {
                Some(m)
            } else {
                None
            }
        },
        Err(_) => None,
    }
}

/// Relies on fst::Map::get: the value stored under the key, if any.
#[verifier::external_body]
fn fst_get(m: &fst::Map<Vec<u8>>, key: &Vec<u8>) -> (r: Option<u64>)
    requires
        seg_ok(*m),
    ensures
        r == lookup(seg_entries(*m), key@),
{
    m.get(key)
}

/// Relies on fst::Map::stream: all entries, in ascending key order.
#[verifier::external_body]
fn fst_entries(m: &fst::Map<Vec<u8>>) -> (r: Vec<(Vec<u8>, u64)>)
    requires
        seg_ok(*m),
    ensures
        ev(r@) == seg_entries(*m),
{
    m.stream().into_byte_vec()
}

/// Relies on fst::automaton::Levenshtein with fst::Map::search: when the
/// automaton builds (a function of query and bound alone), the search
/// yields exactly the keys the automaton accepts, each a key of the map,
/// and the automaton accepts precisely the terms within `max_dist` edit
/// operations (insertions, deletions, substitutions) of the query.
#[verifier::external_body]
fn fst_fuzzy(m: &fst::Map<Vec<u8>>, term: &str, max_dist: u32) -> (r: Option<Vec<Vec<u8>>>)
    requires
        seg_ok(*m),
    ensures
        r is Some <==> lev_aut_ok(term@, max_dist),
        r matches Some(v) ==> bkeys(v@) == fuzzy_of(seg_entries(*m), term@, max_dist),
        r matches Some(v) ==> forall|i: int|
            0 <= i < v@.len() ==> lookup(seg_entries(*m), (#[trigger] v@[i])@) is Some,
        r is Some ==> fuzzy_complete(seg_entries(*m), term@, max_dist),
{
    match fst::automaton::Levenshtein::new(term, max_dist) {
        Ok(aut) => Some(m.search(aut).into_stream().into_byte_keys()),
        Err(_) => None,
    }
}

/// One immutable generation of the dictionary: an ordered `term -> count`
/// map together with its serialized form.
pub struct Segment {
    map: fst::Map<Vec<u8>>,
    data: Vec<u8>,
}

impl Segment {
    /// The entries of this segment, keys as byte sequences.
    pub closed spec fn entries_model(&self) -> Seq<(Seq<u8>, u64)> {
        seg_entries(self.map)
    }

    /// The serialized form of this segment.
    pub closed spec fn data_model(&self) -> Seq<u8> {
        self.data@
    }

    /// The map is genuine builder output mirrored by its serialized
    /// form, sorted, with positive counts, and readable without fault.
    pub closed spec fn wf(&self) -> bool {
        &&& seg_ok(self.map)
        &&& fst_bytes_ok(self.data@)
        &&& seg_entries(self.map) == fst_decode(self.data@)
        &&& sorted_strict(seg_entries(self.map))
        &&& positive_counts(seg_entries(self.map))
    }

    /// A consistent segment's entries are exactly what its serialized
    /// form decodes to.
    pub proof fn lemma_wf_decode(&self)
        requires
            self.wf(),
        ensures
            self.entries_model() == fst_decode(self.data_model()),
            fst_bytes_ok(self.data_model()),
            sorted_strict(self.entries_model()),
            positive_counts(self.entries_model()),
    {
    }

    /// Freeze a sorted entry list into a segment.
    pub fn build(entries: &Vec<(Vec<u8>, u64)>) -> (r: Segment)
        requires
            sorted_strict(ev(entries@)),
            positive_counts(ev(entries@)),
        ensures
            r.wf(),
            r.entries_model() == ev(entries@),
            fst_bytes_ok(r.data_model()),
            fst_decode(r.data_model()) == ev(entries@),
    {
        let data = fst_build(entries);
        let kept = copy_bytes(&data);
        match fst_open(data) {
            Some(map) => Segment { map, data: kept },
            None => vstd::pervasive::unreached(),
        }
    }

    /// Open a segment from its serialized form.  Genuine builder output
    /// is accepted and yields a consistent segment; rejection proves the
    /// bytes are not such output, while acceptance of other bytes
    /// (passing the header and checksum) guarantees nothing about later
    /// reads.
    pub fn open(data: Vec<u8>) -> (r: Result<Segment, Error>)
        ensures
            fst_bytes_ok(data@) ==> r is Ok,
            r matches Ok(s) ==> s.data_model() == data@,
            r matches Ok(s) ==> (fst_bytes_ok(data@) ==> s.wf() && s.entries_model() == fst_decode(
                data@,
            )),
            r matches Err(e) ==> e == Error::FormatError,
    {
        let kept = copy_bytes(&data);
        match fst_open(data) {
            Some(map) => Ok(Segment { map, data: kept }),
            None => Err(Error::FormatError),
        }
    }

    /// The count stored for `key`, if any.
    pub fn get(&self, key: &Vec<u8>) -> (r: Option<u64>)
        requires
            self.wf(),
        ensures
            r == lookup(self.entries_model(), key@),
    {
        fst_get(&self.map, key)
    }

    /// All entries, in ascending key order.
    pub fn entries(&self) -> (r: Vec<(Vec<u8>, u64)>)
        requires
            self.wf(),
        ensures
            ev(r@) == self.entries_model(),
            sorted_strict(ev(r@)),
            positive_counts(ev(r@)),
    {
        fst_entries(&self.map)
    }

    /// A copy of the serialized form, fit to be persisted.
    pub fn data(&self) -> (r: Vec<u8>)
        ensures
            r@ == self.data_model(),
    {
        copy_bytes(&self.data)
    }

    /// The keys the Levenshtein automaton for `(term, max_dist)` accepts
    /// in this segment, or nothing when the automaton cannot be built:
    /// exactly the named result, every element a stored key, and
    /// complete for the stored keys within the bound.
    pub fn fuzzy(&self, term: &str, max_dist: u32) -> (r: Option<Vec<Vec<u8>>>)
        requires
            self.wf(),
        ensures
            r is Some <==> lev_aut_ok(term@, max_dist),
            r matches Some(v) ==> bkeys(v@) == fuzzy_of(self.entries_model(), term@, max_dist),
            r matches Some(v) ==> forall|i: int|
                0 <= i < v@.len() ==> lookup(self.entries_model(), (#[trigger] v@[i])@) is Some,
            r is Some ==> fuzzy_complete(self.entries_model(), term@, max_dist),
    {
        fst_fuzzy(&self.map, term, max_dist)
    }
}

} // verus!
