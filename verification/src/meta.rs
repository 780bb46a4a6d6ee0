//! The catalog: the persisted list of live segment identifiers.
//!
//! An identifier is 16 random bytes, written in the canonical hyphenated
//! 8-4-4-4-12 lowercase-hex form; the catalog is serialized as a JSON
//! object `{"dicts":[...]}` holding the identifiers in order.  The
//! writer emits the compact form; the reader accepts any whitespace
//! between tokens.  Both codecs are verified, with a proved round trip.
use vstd::prelude::*;

use crate::Error;

verus! {

/// The views of a list of identifiers.
pub open spec fn idsv(s: Seq<Vec<u8>>) -> Seq<Seq<u8>> {
    s.map_values(|v: Vec<u8>| v@)
}

/// Every identifier in the list is 16 bytes wide.
pub open spec fn ids_wf(s: Seq<Seq<u8>>) -> bool {
    forall|i: int| 0 <= i < s.len() ==> (#[trigger] s[i]).len() == 16
}

/// Relies on uuid::Uuid::new_v4: a fresh random identifier.  Nothing is
/// assumed of its value beyond its 16-byte width.
#[verifier::external_body]
pub fn random_id() -> (r: Vec<u8>)
    ensures
        r@.len() == 16,
{
    uuid::Uuid::new_v4().as_bytes().to_vec()
}

/// The lowercase hex digit for a nibble.
pub open spec fn spec_hex(n: u8) -> u8 {
    if n < 10 {
        (48 + n) as u8
    } else {
        (87 + n) as u8
    }
}

/// The nibble a hex digit denotes, if it is one.
pub open spec fn spec_unhex(c: u8) -> Option<u8> {
    if 48 <= c <= 57 {
        Some((c - 48) as u8)
    } else if 97 <= c <= 102 {
        Some((c - 87) as u8)
    } else {
        None
    }
}

/// How many hyphens precede position `p` of the rendered identifier.
pub open spec fn hyphens_before(p: int) -> int {
    if p < 8 {
        0
    } else if p < 13 {
        1
    } else if p < 18 {
        2
    } else if p < 23 {
        3
    } else {
        4
    }
}

/// Where the high hex digit of byte `i` stands in the rendered form.
pub open spec fn id_pos(i: int) -> int {
    2 * i + (if i < 4 {
        0int
    } else if i < 6 {
        1int
    } else if i < 8 {
        2int
    } else if i < 10 {
        3int
    } else {
        4int
    })
}

/// The byte at position `p` of the rendered identifier.
pub open spec fn id_char_at(id: Seq<u8>, p: int) -> u8 {
    if p == 8 || p == 13 || p == 18 || p == 23 {
        45
    } else {
        let q = p - hyphens_before(p);
        let b = id[q / 2];
        if q % 2 == 0 {
            spec_hex(b / 16)
        } else {
            spec_hex(b % 16)
        }
    }
}

/// The canonical 36-byte rendering of a 16-byte identifier.
pub open spec fn spec_format_id(id: Seq<u8>) -> Seq<u8> {
    Seq::new(36, |p: int| id_char_at(id, p))
}

/// The identifier a canonical 36-byte rendering denotes, if any.
pub open spec fn spec_parse_id(s: Seq<u8>) -> Option<Seq<u8>> {
    if s.len() == 36 && s[8] == 45 && s[13] == 45 && s[18] == 45 && s[23] == 45 && (forall|i: int|
        0 <= i < 16 ==> spec_unhex(s[#[trigger] id_pos(i)]) is Some && spec_unhex(
            s[id_pos(i) + 1],
        ) is Some) {
        Some(
            Seq::new(
                16,
                |i: int|
                    (spec_unhex(s[id_pos(i)]).unwrap() * 16 + spec_unhex(
                        s[id_pos(i) + 1],
                    ).unwrap()) as u8,
            ),
        )
    } else {
        None
    }
}

/// Rendering then reading an identifier gives it back.
pub proof fn lemma_id_round_trip(id: Seq<u8>)
    requires
        id.len() == 16,
    ensures
        spec_parse_id(spec_format_id(id)) == Some(id),
{
    let s = spec_format_id(id);
    assert forall|i: int| 0 <= i < 16 implies spec_unhex(s[#[trigger] id_pos(i)]) == Some(
        (id[i] / 16) as u8,
    ) && spec_unhex(s[id_pos(i) + 1]) == Some((id[i] % 16) as u8) by {
        assert(s[id_pos(i)] == id_char_at(id, id_pos(i)));
        assert(s[id_pos(i) + 1] == id_char_at(id, id_pos(i) + 1));
    }
    assert(spec_parse_id(s) is Some);
    let back = spec_parse_id(s).unwrap();
    assert forall|i: int| 0 <= i < 16 implies back[i] == id[i] by {
        assert(back[i] == ((id[i] / 16) * 16 + (id[i] % 16)) as u8);
    }
    assert(back =~= id);
}

/// A reading names the only identifier with that rendering.
pub proof fn lemma_parse_id_sound(s: Seq<u8>)
    requires
        spec_parse_id(s) is Some,
    ensures
        spec_parse_id(s).unwrap().len() == 16,
        s == spec_format_id(spec_parse_id(s).unwrap()),
{
    let id = spec_parse_id(s).unwrap();
    assert forall|p: int| 0 <= p < 36 implies spec_format_id(id)[p] == s[p] by {
        if p == 8 || p == 13 || p == 18 || p == 23 {
        } else {
            let q = p - hyphens_before(p);
            let i = q / 2;
            assert(0 <= i < 16);
            assert(id_pos(i) + (q % 2) == p);
            let hi = spec_unhex(s[id_pos(i)]).unwrap();
            let lo = spec_unhex(s[id_pos(i) + 1]).unwrap();
            assert(hi < 16 && lo < 16);
            assert(id[i] == (hi * 16 + lo) as u8);
            assert(id[i] / 16 == hi && id[i] % 16 == lo);
        }
    }
    assert(spec_format_id(id) =~= s);
}

/// Render an identifier in the canonical hyphenated lowercase-hex form.
pub fn format_id(id: &Vec<u8>) -> (r: Vec<u8>)
    requires
        id@.len() == 16,
    ensures
        r@ == spec_format_id(id@),
{
    let mut r: Vec<u8> = Vec::new();
    let mut p: usize = 0;
    while p < 36
        invariant
            0 <= p <= 36,
            id@.len() == 16,
            r@.len() == p,
            forall|x: int| 0 <= x < p ==> r@[x] == id_char_at(id@, x),
        decreases 36 - p,
    {
        if p == 8 || p == 13 || p == 18 || p == 23 {
            r.push(45);
        } else {
            let h: usize = if p < 8 {
                0
            } else if p < 13 {
                1
            } else if p < 18 {
                2
            } else if p < 23 {
                3
            } else {
                4
            };
            let q = p - h;
            let b = id[q / 2];
            let nib = if q % 2 == 0 {
                b / 16
            } else {
                b % 16
            };
            let c = if nib < 10 {
                48 + nib
            } else {
                87 + nib
            };
            r.push(c);
        }
        p += 1;
    }
    proof {
        assert(r@ =~= spec_format_id(id@));
    }
    r
}

/// Read a canonical rendering back into an identifier; rejects anything
/// else.
pub fn parse_id(s: &Vec<u8>) -> (r: Option<Vec<u8>>)
    ensures
        r matches Some(id) ==> spec_parse_id(s@) == Some(id@),
        r is None ==> spec_parse_id(s@) is None,
{
    if s.len() != 36 {
        return None;
    }
    if s[8] != 45 || s[13] != 45 || s[18] != 45 || s[23] != 45 {
        return None;
    }
    let mut id: Vec<u8> = Vec::new();
    let mut i: usize = 0;
    while i < 16
        invariant
            0 <= i <= 16,
            s@.len() == 36,
            s@[8] == 45 && s@[13] == 45 && s@[18] == 45 && s@[23] == 45,
            id@.len() == i,
            forall|x: int|
                0 <= x < i ==> spec_unhex(s@[#[trigger] id_pos(x)]) is Some && spec_unhex(
                    s@[id_pos(x) + 1],
                ) is Some && id@[x] == (spec_unhex(s@[id_pos(x)]).unwrap() * 16 + spec_unhex(
                    s@[id_pos(x) + 1],
                ).unwrap()) as u8,
        decreases 16 - i,
    {
        let pos: usize = 2 * i + (if i < 4 {
            0
        } else if i < 6 {
            1
        } else if i < 8 {
            2
        } else if i < 10 {
            3
        } else {
            4
        });
        proof {
            assert(pos == id_pos(i as int));
        }
        let hi_c = s[pos];
        let lo_c = s[pos + 1];
        let hi: u8 = if 48 <= hi_c && hi_c <= 57 {
            hi_c - 48
        } else if 97 <= hi_c && hi_c <= 102 {
            hi_c - 87
        } else {
            return None;
        };
        let lo: u8 = if 48 <= lo_c && lo_c <= 57 {
            lo_c - 48
        } else if 97 <= lo_c && lo_c <= 102 {
            lo_c - 87
        } else {
            return None;
        };
        id.push(hi * 16 + lo);
        i += 1;
    }
    proof {
        assert(spec_parse_id(s@) is Some);
        let back = spec_parse_id(s@).unwrap();
        assert(id@ =~= back);
    }
    Some(id)
}

/// A rendered identifier between double quotes.
pub open spec fn quoted(id: Seq<u8>) -> Seq<u8> {
    seq![34u8] + spec_format_id(id) + seq![34u8]
}

/// The quoted identifiers joined by commas.
pub open spec fn body_of(ids: Seq<Seq<u8>>) -> Seq<u8>
    decreases ids.len(),
{
    if ids.len() == 0 {
        Seq::empty()
    } else if ids.len() == 1 {
        quoted(ids[0])
    } else {
        quoted(ids[0]) + seq![44u8] + body_of(ids.drop_first())
    }
}

/// The opening bytes of the catalog: `{"dicts":[`.
pub open spec fn meta_header() -> Seq<u8> {
    seq![123u8, 34u8, 100u8, 105u8, 99u8, 116u8, 115u8, 34u8, 58u8, 91u8]
}

/// The canonical serialized catalog.
pub open spec fn spec_encode_meta(ids: Seq<Seq<u8>>) -> Seq<u8> {
    meta_header() + body_of(ids) + seq![93u8, 125u8]
}

/// Appending one identifier extends the body with a comma and its
/// quoted form.
pub proof fn lemma_body_push(ids: Seq<Seq<u8>>, id: Seq<u8>)
    ensures
        body_of(ids.push(id)) == if ids.len() == 0 {
            quoted(id)
        } else {
            body_of(ids) + seq![44u8] + quoted(id)
        },
    decreases ids.len(),
{
    let p = ids.push(id);
    if ids.len() == 0 {
        assert(p.len() == 1 && p[0] == id);
    } else {
        assert(p.drop_first() =~= ids.drop_first().push(id));
        lemma_body_push(ids.drop_first(), id);
        if ids.len() == 1 {
            assert(body_of(p) =~= quoted(ids[0]) + seq![44u8] + quoted(id));
            assert(body_of(ids) + seq![44u8] + quoted(id) =~= quoted(ids[0]) + seq![44u8]
                + quoted(id));
        } else {
            assert(body_of(p) == quoted(p[0]) + seq![44u8] + body_of(p.drop_first()));
            assert(body_of(p) =~= body_of(ids) + seq![44u8] + quoted(id));
        }
    }
}

/// The body of a non-empty list is at least one quoted identifier wide.
pub proof fn lemma_body_len(ids: Seq<Seq<u8>>)
    ensures
        ids.len() == 0 ==> body_of(ids).len() == 0,
        ids.len() >= 1 ==> body_of(ids).len() >= 38,
    decreases ids.len(),
{
    if ids.len() > 1 {
        lemma_body_len(ids.drop_first());
    }
}

/// Whether a byte is JSON whitespace.
pub open spec fn is_ws_byte(b: u8) -> bool {
    b == 32 || b == 9 || b == 10 || b == 13
}

/// The first position at or after `p` holding a non-whitespace byte, or
/// the end.
pub open spec fn skip_ws(s: Seq<u8>, p: int) -> int
    decreases s.len() - p,
{
    if p < 0 || p >= s.len() {
        s.len() as int
    } else if is_ws_byte(s[p]) {
        skip_ws(s, p + 1)
    } else {
        p
    }
}

/// Skipping whitespace never moves backwards nor past the end.
pub proof fn lemma_skip_ws_bounds(s: Seq<u8>, p: int)
    requires
        0 <= p <= s.len(),
    ensures
        p <= skip_ws(s, p) <= s.len(),
    decreases s.len() - p,
{
    if p < s.len() && is_ws_byte(s[p]) {
        lemma_skip_ws_bounds(s, p + 1);
    }
}

/// Skipping whitespace, clamped so it never moves backwards; it agrees
/// with `skip_ws` wherever `p` is in range.
pub open spec fn ws_from(s: Seq<u8>, p: int) -> int {
    if skip_ws(s, p) < p {
        p
    } else {
        skip_ws(s, p)
    }
}

/// The literal `"dicts"`.
pub open spec fn dicts_lit() -> Seq<u8> {
    seq![34u8, 100u8, 105u8, 99u8, 116u8, 115u8, 34u8]
}

/// The identifiers a catalog's bracketed list denotes from position `p`
/// on, with the position after the closing bracket: quoted identifiers
/// separated by commas, whitespace allowed around the separators.
pub open spec fn spec_parse_items(s: Seq<u8>, p: int) -> Option<(Seq<Seq<u8>>, int)>
    decreases s.len() - p,
    via spec_parse_items_dec
{
    if p < 0 || p + 38 > s.len() {
        None
    } else if s[p] != 34 || s[p + 37] != 34 {
        None
    } else {
        match spec_parse_id(s.subrange(p + 1, p + 37)) {
            None => None,
            Some(id) => {
                let q = ws_from(s, p + 38);
                if q >= s.len() {
                    None
                } else if s[q] == 93 {
                    Some((seq![id], q + 1))
                } else if s[q] == 44 {
                    let q2 = ws_from(s, q + 1);
                    match spec_parse_items(s, q2) {
                        None => None,
                        Some((rest, e)) => Some((seq![id] + rest, e)),
                    }
                } else {
                    None
                }
            },
        }
    }
}

#[via_fn]
proof fn spec_parse_items_dec(s: Seq<u8>, p: int) {
    if !(p < 0 || p + 38 > s.len()) {
        lemma_skip_ws_bounds(s, p + 38);
        let q = ws_from(s, p + 38);
        assert(p + 38 <= q <= s.len());
        if q < s.len() {
            lemma_skip_ws_bounds(s, q + 1);
            assert(q + 1 <= ws_from(s, q + 1) <= s.len());
        }
    }
}

/// After the identifier list: optional whitespace, the closing brace,
/// optional trailing whitespace, then the end.
pub open spec fn spec_finish(s: Seq<u8>, ids: Seq<Seq<u8>>, e: int) -> Option<Seq<Seq<u8>>> {
    let p5 = ws_from(s, e);
    if p5 >= s.len() || s[p5] != 125 {
        None
    } else if ws_from(s, p5 + 1) == s.len() {
        Some(ids)
    } else {
        None
    }
}

/// The identifiers a serialized catalog denotes, if it is a JSON object
/// with the single member `dicts` holding an array of canonically
/// rendered identifiers (whitespace between tokens allowed).
pub open spec fn spec_parse_meta(bytes: Seq<u8>) -> Option<Seq<Seq<u8>>> {
    let p0 = ws_from(bytes, 0);
    if p0 >= bytes.len() || bytes[p0] != 123 {
        None
    } else {
        let p1 = ws_from(bytes, p0 + 1);
        if p1 + 7 > bytes.len() || bytes.subrange(p1, p1 + 7) != dicts_lit() {
            None
        } else {
            let p2 = ws_from(bytes, p1 + 7);
            if p2 >= bytes.len() || bytes[p2] != 58 {
                None
            } else {
                let p3 = ws_from(bytes, p2 + 1);
                if p3 >= bytes.len() || bytes[p3] != 91 {
                    None
                } else {
                    let p4 = ws_from(bytes, p3 + 1);
                    if p4 < bytes.len() && bytes[p4] == 93 {
                        spec_finish(bytes, Seq::empty(), p4 + 1)
                    } else {
                        match spec_parse_items(bytes, p4) {
                            None => None,
                            Some((ids, e)) => spec_finish(bytes, ids, e),
                        }
                    }
                }
            }
        }
    }
}

/// Reading back a serialized body gives the identifiers it was built
/// from: within canonical bytes, the list at `p` parses to `ids` and
/// ends just past the closing bracket.
pub proof fn lemma_quoted_at(s: Seq<u8>, p: int, id: Seq<u8>)
    requires
        id.len() == 16,
        0 <= p,
        p + 38 <= s.len(),
        s.subrange(p, p + 38) == quoted(id),
    ensures
        s[p] == 34,
        s[p + 37] == 34,
        spec_parse_id(s.subrange(p + 1, p + 37)) == Some(id),
{
    assert(s[p] == s.subrange(p, p + 38)[0]);
    assert(quoted(id)[0] == 34);
    assert(s[p + 37] == s.subrange(p, p + 38)[37]);
    assert(quoted(id)[37] == 34);
    assert forall|x: int| 0 <= x < 36 implies s.subrange(p + 1, p + 37)[x] == spec_format_id(
        id,
    )[x] by {
        assert(s.subrange(p + 1, p + 37)[x] == s[p + 1 + x]);
        assert(s[p + 1 + x] == s.subrange(p, p + 38)[1 + x]);
        assert(quoted(id)[1 + x] == spec_format_id(id)[x]);
    }
    assert(s.subrange(p + 1, p + 37) =~= spec_format_id(id));
    lemma_id_round_trip(id);
}

/// Reading back a serialized body gives the identifiers it was built
/// from: within canonical bytes, the list at `p` parses to `ids` and
/// ends just past the closing bracket.
pub proof fn lemma_items_round_trip(s: Seq<u8>, p: int, ids: Seq<Seq<u8>>)
    requires
        ids.len() >= 1,
        ids_wf(ids),
        0 <= p,
        p + body_of(ids).len() < s.len(),
        s.subrange(p, p + body_of(ids).len()) == body_of(ids),
        s[p + body_of(ids).len()] == 93,
    ensures
        spec_parse_items(s, p) == Some((ids, p + body_of(ids).len() + 1)),
    decreases ids.len(),
{
    let body = body_of(ids);
    let bl = body.len() as int;
    let q0 = quoted(ids[0]);
    lemma_body_len(ids);
    assert(q0.len() == 38);
    assert(s.subrange(p, p + 38) =~= q0) by {
        assert forall|x: int| 0 <= x < 38 implies s.subrange(p, p + 38)[x] == q0[x] by {
            assert(s.subrange(p, p + 38)[x] == s[p + x]);
            assert(s.subrange(p, p + bl)[x] == s[p + x]);
            assert(body[x] == q0[x]);
        }
    }
    lemma_quoted_at(s, p, ids[0]);
    if ids.len() == 1 {
        assert(body == q0);
        assert(bl == 38);
        assert(!is_ws_byte(s[p + 38]));
        assert(ws_from(s, p + 38) == p + 38);
        assert(spec_parse_items(s, p) == Some((seq![ids[0]], p + 38 + 1)));
        assert(seq![ids[0]] =~= ids);
    } else {
        let rest = ids.drop_first();
        assert(ids_wf(rest));
        lemma_body_len(rest);
        let bl2 = body_of(rest).len() as int;
        assert(body == q0 + seq![44u8] + body_of(rest));
        assert(bl == 39 + bl2);
        assert(s[p + 38] == s.subrange(p, p + bl)[38]);
        assert(body[38] == 44);
        assert(!is_ws_byte(s[p + 38]));
        assert(ws_from(s, p + 38) == p + 38);
        assert(s.subrange(p + 39, p + 39 + bl2) =~= body_of(rest)) by {
            assert forall|x: int| 0 <= x < bl2 implies s.subrange(p + 39, p + 39 + bl2)[x]
                == body_of(rest)[x] by {
                assert(s.subrange(p + 39, p + 39 + bl2)[x] == s[p + 39 + x]);
                assert(s[p + 39 + x] == s.subrange(p, p + bl)[39 + x]);
                assert(body[39 + x] == body_of(rest)[x]);
            }
        }
        assert(s[p + 39] == body_of(rest)[0]) by {
            assert(s[p + 39] == s.subrange(p + 39, p + 39 + bl2)[0]);
        }
        assert(body_of(rest)[0] == quoted(rest[0])[0]);
        assert(!is_ws_byte(s[p + 39]));
        assert(ws_from(s, p + 39) == p + 39);
        assert(s[p + 39 + bl2] == 93);
        lemma_items_round_trip(s, p + 39, rest);
        assert(spec_parse_items(s, p) == Some((seq![ids[0]] + rest, p + 39 + bl2 + 1)));
        assert(seq![ids[0]] + rest =~= ids);
    }
}

/// Reading back a serialized catalog gives the identifiers it was built
/// from.
pub proof fn lemma_meta_round_trip(ids: Seq<Seq<u8>>)
    requires
        ids_wf(ids),
    ensures
        spec_parse_meta(spec_encode_meta(ids)) == Some(ids),
{
    let bytes = spec_encode_meta(ids);
    lemma_body_len(ids);
    let bl = body_of(ids).len() as int;
    assert(bytes.len() == 12 + bl);
    assert forall|x: int| 0 <= x < 10 implies bytes[x] == meta_header()[x] by {}
    assert(bytes[0] == 123 && !is_ws_byte(bytes[0]));
    assert(ws_from(bytes, 0) == 0);
    assert(bytes[1] == 34 && !is_ws_byte(bytes[1]));
    assert(ws_from(bytes, 1) == 1);
    assert(bytes.subrange(1, 8) =~= dicts_lit());
    assert(bytes[8] == 58 && !is_ws_byte(bytes[8]));
    assert(ws_from(bytes, 8) == 8);
    assert(bytes[9] == 91 && !is_ws_byte(bytes[9]));
    assert(ws_from(bytes, 9) == 9);
    assert(bytes[10 + bl] == 93 && bytes[11 + bl] == 125);
    if ids.len() == 0 {
        assert(bytes[10] == 93 && !is_ws_byte(bytes[10]));
        assert(ws_from(bytes, 10) == 10);
        assert(bytes[11] == 125 && !is_ws_byte(bytes[11]));
        assert(ws_from(bytes, 11) == 11);
        assert(skip_ws(bytes, 12) == 12);
        assert(ws_from(bytes, 12) == 12);
        assert(spec_parse_meta(bytes) == Some(Seq::<Seq<u8>>::empty()));
        assert(ids =~= Seq::<Seq<u8>>::empty());
    } else {
        assert(bytes.subrange(10, 10 + bl) =~= body_of(ids));
        assert(bytes[10] == body_of(ids)[0]);
        assert(body_of(ids)[0] == quoted(ids[0])[0]);
        assert(bytes[10] == 34 && !is_ws_byte(bytes[10]));
        assert(ws_from(bytes, 10) == 10);
        lemma_items_round_trip(bytes, 10, ids);
        assert(!is_ws_byte(bytes[11 + bl]));
        assert(ws_from(bytes, 11 + bl) == 11 + bl);
        assert(skip_ws(bytes, 12 + bl) == 12 + bl);
        assert(ws_from(bytes, 12 + bl) == 12 + bl);
        assert(spec_parse_meta(bytes) == Some(ids));
    }
}

/// Serialize a catalog in the canonical form.
pub fn encode_meta(ids: &Vec<Vec<u8>>) -> (r: Vec<u8>)
    requires
        ids_wf(idsv(ids@)),
    ensures
        r@ == spec_encode_meta(idsv(ids@)),
{
    let mut r: Vec<u8> = Vec::new();
    r.push(123);
    r.push(34);
    r.push(100);
    r.push(105);
    r.push(99);
    r.push(116);
    r.push(115);
    r.push(34);
    r.push(58);
    r.push(91);
    proof {
        assert(r@ =~= meta_header() + body_of(idsv(ids@).take(0)));
    }
    let mut k: usize = 0;
    while k < ids.len()
        invariant
            0 <= k <= ids.len(),
            ids_wf(idsv(ids@)),
            r@ == meta_header() + body_of(idsv(ids@).take(k as int)),
        decreases ids.len() - k,
    {
        let ghost pre = idsv(ids@).take(k as int);
        proof {
            assert(idsv(ids@)[k as int] == ids@[k as int]@);
        }
        if k > 0 {
            r.push(44);
        }
        r.push(34);
        let mut f = format_id(&ids[k]);
        r.append(&mut f);
        r.push(34);
        proof {
            assert(idsv(ids@)[k as int] == ids@[k as int]@);
            lemma_body_push(pre, ids@[k as int]@);
            assert(idsv(ids@).take(k + 1) =~= pre.push(ids@[k as int]@));
            if k == 0 {
                assert(r@ =~= meta_header() + quoted(ids@[k as int]@));
            } else {
                assert(r@ =~= meta_header() + (body_of(pre) + seq![44u8] + quoted(
                    ids@[k as int]@,
                )));
            }
            assert(r@ =~= meta_header() + body_of(idsv(ids@).take(k + 1)));
        }
        k += 1;
    }
    r.push(93);
    r.push(125);
    proof {
        assert(idsv(ids@).take(ids@.len() as int) =~= idsv(ids@));
        assert(r@ =~= spec_encode_meta(idsv(ids@)));
    }
    r
}

/// A copy of `v[from..to]`.
pub fn copy_range(v: &Vec<u8>, from: usize, to: usize) -> (r: Vec<u8>)
    requires
        0 <= from <= to <= v@.len(),
    ensures
        r@ == v@.subrange(from as int, to as int),
{
    let mut r: Vec<u8> = Vec::new();
    let mut k: usize = from;
    while k < to
        invariant
            from <= k <= to <= v@.len(),
            r@ =~= v@.subrange(from as int, k as int),
        decreases to - k,
    {
        r.push(v[k]);
        proof {
            assert(r@ =~= v@.subrange(from as int, k + 1));
        }
        k += 1;
    }
    r
}

/// Find the first non-whitespace byte at or after `p`.
fn skip_ws_exec(bytes: &Vec<u8>, p: usize) -> (r: usize)
    requires
        p <= bytes@.len(),
    ensures
        r == skip_ws(bytes@, p as int),
        r == ws_from(bytes@, p as int),
        p <= r <= bytes@.len(),
{
    let mut k: usize = p;
    while k < bytes.len()
        invariant
            p <= k <= bytes@.len(),
            skip_ws(bytes@, p as int) == skip_ws(bytes@, k as int),
        decreases bytes@.len() - k,
    {
        let b = bytes[k];
        if !(b == 32 || b == 9 || b == 10 || b == 13) {
            return k;
        }
        k += 1;
    }
    k
}

/// Read a serialized catalog: a JSON object with the single member
/// `dicts` holding an array of canonically rendered identifiers, with
/// whitespace between tokens allowed.
pub fn parse_meta(bytes: &Vec<u8>) -> (r: Result<Vec<Vec<u8>>, Error>)
    ensures
        r matches Ok(ids) ==> spec_parse_meta(bytes@) == Some(idsv(ids@)) && ids_wf(idsv(ids@)),
        r is Err ==> spec_parse_meta(bytes@) is None && (r matches Err(e) && e
            == Error::SerializationError),
{
    let n = bytes.len();
    let p0 = skip_ws_exec(bytes, 0);
    if p0 >= n || bytes[p0] != 123 {
        return Err(Error::SerializationError);
    }
    let p1 = skip_ws_exec(bytes, p0 + 1);
    if n - p1 < 7 {
        return Err(Error::SerializationError);
    }
    let lit: [u8; 7] = [34, 100, 105, 99, 116, 115, 34];
    let mut t: usize = 0;
    while t < 7
        invariant
            0 <= t <= 7,
            p1 + 7 <= n == bytes@.len(),
            lit@ == dicts_lit(),
            p0 == ws_from(bytes@, 0),
            p0 < n && bytes@[p0 as int] == 123,
            p1 == ws_from(bytes@, p0 + 1),
            forall|x: int| 0 <= x < t ==> bytes@[p1 + x] == dicts_lit()[x],
        decreases 7 - t,
    {
        if bytes[p1 + t] != lit[t] {
            proof {
                assert(bytes@.subrange(p1 as int, p1 + 7)[t as int] != dicts_lit()[t as int]);
            }
            return Err(Error::SerializationError);
        }
        t += 1;
    }
    proof {
        assert(bytes@.subrange(p1 as int, p1 + 7) =~= dicts_lit());
    }
    let p2 = skip_ws_exec(bytes, p1 + 7);
    if p2 >= n || bytes[p2] != 58 {
        return Err(Error::SerializationError);
    }
    let p3 = skip_ws_exec(bytes, p2 + 1);
    if p3 >= n || bytes[p3] != 91 {
        return Err(Error::SerializationError);
    }
    let p4 = skip_ws_exec(bytes, p3 + 1);
    if p4 < n && bytes[p4] == 93 {
        let p5 = skip_ws_exec(bytes, p4 + 1);
        if p5 >= n || bytes[p5] != 125 {
            return Err(Error::SerializationError);
        }
        if skip_ws_exec(bytes, p5 + 1) != n {
            return Err(Error::SerializationError);
        }
        proof {
            assert(spec_parse_meta(bytes@) == Some(Seq::<Seq<u8>>::empty()));
            assert(idsv(Seq::<Vec<u8>>::empty()) =~= Seq::<Seq<u8>>::empty());
        }
        return Ok(Vec::new());
    }
    let mut acc: Vec<Vec<u8>> = Vec::new();
    let mut pos: usize = p4;
    proof {
        assert(spec_parse_meta(bytes@) == (match spec_parse_items(bytes@, pos as int) {
            None => None::<Seq<Seq<u8>>>,
            Some((rest, e)) => spec_finish(bytes@, idsv(acc@) + rest, e),
        })) by {
            let tmp = spec_parse_items(bytes@, pos as int);
            if tmp is Some {
                assert(idsv(acc@) + tmp.unwrap().0 =~= tmp.unwrap().0);
            }
        }
        assert(idsv(acc@) =~= Seq::<Seq<u8>>::empty());
    }
    loop
        invariant
            0 <= pos <= n,
            n == bytes@.len(),
            ids_wf(idsv(acc@)),
            spec_parse_meta(bytes@) == (match spec_parse_items(bytes@, pos as int) {
                None => None::<Seq<Seq<u8>>>,
                Some((rest, e)) => spec_finish(bytes@, idsv(acc@) + rest, e),
            }),
        decreases n - pos,
    {
        if n - pos < 38 {
            return Err(Error::SerializationError);
        }
        if bytes[pos] != 34 || bytes[pos + 37] != 34 {
            return Err(Error::SerializationError);
        }
        let idtext = copy_range(bytes, pos + 1, pos + 37);
        let id = match parse_id(&idtext) {
            Some(id) => id,
            None => {
                return Err(Error::SerializationError);
            },
        };
        proof {
            lemma_parse_id_sound(idtext@);
        }
        let ghost accv0 = acc@;
        acc.push(id);
        proof {
            assert(id@.len() == 16);
            assert(acc@ == accv0.push(id));
            assert(idsv(acc@) =~= idsv(accv0).push(id@));
            assert forall|x: int| 0 <= x < idsv(acc@).len() implies (#[trigger] idsv(
                acc@,
            )[x]).len() == 16 by {
                if x < idsv(acc@).len() - 1 {
                    assert(idsv(acc@)[x] == idsv(accv0)[x]);
                    assert(idsv(accv0)[x].len() == 16);
                }
            }
        }
        let q = skip_ws_exec(bytes, pos + 38);
        if q >= n {
            return Err(Error::SerializationError);
        }
        if bytes[q] == 93 {
            proof {
                assert(spec_parse_items(bytes@, pos as int) == Some((seq![id@], q + 1)));
                assert(idsv(accv0) + seq![id@] =~= idsv(acc@));
            }
            let p5 = skip_ws_exec(bytes, q + 1);
            if p5 >= n || bytes[p5] != 125 {
                return Err(Error::SerializationError);
            }
            if skip_ws_exec(bytes, p5 + 1) != n {
                return Err(Error::SerializationError);
            }
            proof {
                assert(spec_parse_meta(bytes@) == Some(idsv(acc@)));
            }
            return Ok(acc);
        }
        if bytes[q] != 44 {
            return Err(Error::SerializationError);
        }
        let q2 = skip_ws_exec(bytes, q + 1);
        proof {
            assert(spec_parse_items(bytes@, pos as int) == (match spec_parse_items(
                bytes@,
                q2 as int,
            ) {
                None => None::<(Seq<Seq<u8>>, int)>,
                Some((rest, e)) => Some((seq![id@] + rest, e)),
            }));
            let tmp = spec_parse_items(bytes@, q2 as int);
            if tmp is Some {
                assert(idsv(accv0) + (seq![id@] + tmp.unwrap().0) =~= idsv(acc@)
                    + tmp.unwrap().0);
            }
        }
        pos = q2;
    }
}

} // verus!
