//! The search-query parser: a query string is lowercased, curly double
//! quotes are straightened, and the text is split into phrases (between
//! double quotes) and whitespace-separated terms, each classified by its
//! operator prefix (`-`, `site:`, `intitle:`, `inbody:`, `inurl:`, or a
//! leading bang).
//!
//! The tokenizer walks byte positions of the normalized text, so a
//! multi-byte whitespace character starts the following term at its own
//! first byte; the model below mirrors that faithfully.
use vstd::prelude::*;

use crate::text::{char_is_whitespace, chars_vec, is_whitespace_char, lower_of, str_to_lowercase};

verus! {

/// A plain word of a query.
#[derive(Debug, Clone)]
pub struct SimpleTerm(pub String);

/// Several adjacent words treated as one compound.
#[derive(Debug, Clone)]
pub struct TermCompound {
    /// The words of the compound, in order.
    pub terms: Vec<SimpleTerm>,
}

/// A parsed term together with the compounds it may take part in.
#[derive(Debug)]
pub struct CompoundAwareTerm {
    /// The term itself.
    pub term: Term,
    /// Compounds formed with its neighbours.
    pub adjacent_terms: Vec<TermCompound>,
}

/// One parsed term of a query.
#[derive(Debug)]
pub enum Term {
    Simple(SimpleTerm),
    Phrase(String),
    Not(Box<Term>),
    Site(String),
    Title(String),
    Body(String),
    Url(String),
    PossibleBang(String),
}

/// The mathematical shape of a parsed term.
pub enum TermModel {
    Simple(Seq<char>),
    Phrase(Seq<char>),
    Not(Box<TermModel>),
    Site(Seq<char>),
    Title(Seq<char>),
    Body(Seq<char>),
    Url(Seq<char>),
    PossibleBang(Seq<char>),
}

/// The model of a term value.
pub open spec fn term_view(t: Term) -> TermModel
    decreases t,
{
    match t {
        Term::Simple(s) => TermModel::Simple(s.0@),
        Term::Phrase(s) => TermModel::Phrase(s@),
        Term::Not(b) => TermModel::Not(Box::new(term_view(*b))),
        Term::Site(s) => TermModel::Site(s@),
        Term::Title(s) => TermModel::Title(s@),
        Term::Body(s) => TermModel::Body(s@),
        Term::Url(s) => TermModel::Url(s@),
        Term::PossibleBang(s) => TermModel::PossibleBang(s@),
    }
}

/// The models of a parsed term list.
pub open spec fn terms_view(ts: Seq<Box<Term>>) -> Seq<TermModel> {
    ts.map_values(|b: Box<Term>| term_view(*b))
}

impl SimpleTerm {
    /// The word itself.
    pub fn as_str(&self) -> (r: &str)
        ensures
            r@ == self.0@,
    {
        self.0.as_str()
    }

}

impl From<String> for SimpleTerm {
    fn from(value: String) -> (r: Self) {
        SimpleTerm(value)
    }
}

impl vstd::std_specs::convert::FromSpecImpl<String> for SimpleTerm {
    open spec fn obeys_from_spec() -> bool {
        true
    }

    open spec fn from_spec(value: String) -> Self {
        SimpleTerm(value)
    }
}

impl From<SimpleTerm> for String {
    fn from(value: SimpleTerm) -> (r: Self) {
        value.0
    }
}

impl vstd::std_specs::convert::FromSpecImpl<SimpleTerm> for String {
    open spec fn obeys_from_spec() -> bool {
        true
    }

    open spec fn from_spec(value: SimpleTerm) -> Self {
        value.0
    }
}

impl PartialEq for SimpleTerm {
    fn eq(&self, other: &Self) -> (r: bool) {
        self.0 == other.0
    }
}

impl vstd::std_specs::cmp::PartialEqSpecImpl for SimpleTerm {
    open spec fn obeys_eq_spec() -> bool {
        true
    }

    open spec fn eq_spec(&self, other: &Self) -> bool {
        self.0@ == other.0@
    }
}

impl Term {
    /// The text of a plain or phrase term, if it is one.
    pub fn as_simple_text(&self) -> (r: Option<&str>)
        ensures
            match *self {
                Term::Simple(_) | Term::Phrase(_) => r is Some,
                _ => r is None,
            },
            r matches Some(s) ==> match term_view(*self) {
                TermModel::Simple(m) => s@ == m,
                TermModel::Phrase(m) => s@ == m,
                _ => false,
            },
    {
        match self {
            Term::Simple(term) => Some(term.0.as_str()),
            Term::Phrase(p) => Some(p.as_str()),
            _ => None,
        }
    }

    /// Structural equality of two terms.
    fn eq_term(&self, other: &Term) -> (r: bool)
        ensures
            r == (term_view(*self) == term_view(*other)),
        decreases *self,
    {
        match (self, other) {
            (Term::Simple(a), Term::Simple(b)) => a.0 == b.0,
            (Term::Phrase(a), Term::Phrase(b)) => *a == *b,
            (Term::Not(a), Term::Not(b)) => a.eq_term(b),
            (Term::Site(a), Term::Site(b)) => *a == *b,
            (Term::Title(a), Term::Title(b)) => *a == *b,
            (Term::Body(a), Term::Body(b)) => *a == *b,
            (Term::Url(a), Term::Url(b)) => *a == *b,
            (Term::PossibleBang(a), Term::PossibleBang(b)) => *a == *b,
            _ => {
                proof {
                    assert(term_view(*self) != term_view(*other));
                }
                false
            },
        }
    }
}

impl PartialEq for Term {
    fn eq(&self, other: &Self) -> (r: bool) {
        self.eq_term(other)
    }
}

impl vstd::std_specs::cmp::PartialEqSpecImpl for Term {
    open spec fn obeys_eq_spec() -> bool {
        true
    }

    open spec fn eq_spec(&self, other: &Self) -> bool {
        term_view(*self) == term_view(*other)
    }
}

/// Whether `p` is a prefix of `s`.
pub open spec fn has_prefix(s: Seq<char>, p: Seq<char>) -> bool {
    p.len() <= s.len() && s.take(p.len() as int) == p
}

/// How `site:`-style operators read.
pub open spec fn site_p() -> Seq<char> {
    seq!['s', 'i', 't', 'e', ':']
}

pub open spec fn title_p() -> Seq<char> {
    seq!['i', 'n', 't', 'i', 't', 'l', 'e', ':']
}

pub open spec fn body_p() -> Seq<char> {
    seq!['i', 'n', 'b', 'o', 'd', 'y', ':']
}

pub open spec fn url_p() -> Seq<char> {
    seq!['i', 'n', 'u', 'r', 'l', ':']
}

/// How one whitespace-separated token is classified.
pub open spec fn spec_parse_term(s: Seq<char>) -> TermModel
    decreases s.len(),
{
    if s.len() >= 1 && s[0] == '-' && s.len() >= 2 && s[1] != '-' {
        TermModel::Not(Box::new(spec_parse_term(s.drop_first())))
    } else if has_prefix(s, site_p()) && s.len() > site_p().len() {
        TermModel::Site(s.skip(site_p().len() as int))
    } else if has_prefix(s, title_p()) && s.len() > title_p().len() {
        TermModel::Title(s.skip(title_p().len() as int))
    } else if has_prefix(s, body_p()) && s.len() > body_p().len() {
        TermModel::Body(s.skip(body_p().len() as int))
    } else if has_prefix(s, url_p()) && s.len() > url_p().len() {
        TermModel::Url(s.skip(url_p().len() as int))
    } else if s.len() >= 1 && s[0] == '!' {
        TermModel::PossibleBang(s.skip(1))
    } else {
        TermModel::Simple(s)
    }
}

/// Compare a character range against a fixed prefix.
fn check_prefix(cs: &Vec<char>, from: usize, to: usize, p: &Vec<char>) -> (r: bool)
    requires
        0 <= from <= to <= cs@.len(),
    ensures
        r == has_prefix(cs@.subrange(from as int, to as int), p@),
{
    let n = to - from;
    if p.len() > n {
        return false;
    }
    let mut k: usize = 0;
    while k < p.len()
        invariant
            0 <= k <= p@.len() <= to - from,
            0 <= from <= to <= cs@.len(),
            forall|x: int| 0 <= x < k ==> cs@.subrange(from as int, to as int)[x] == p@[x],
        decreases p@.len() - k,
    {
        if cs[from + k] != p[k] {
            proof {
                assert(cs@.subrange(from as int, to as int)[k as int] != p@[k as int]);
            }
            return false;
        }
        k += 1;
    }
    proof {
        assert(cs@.subrange(from as int, to as int).take(p@.len() as int) =~= p@);
    }
    true
}

/// Classify one token of the normalized query.
pub fn parse_term(term: &str) -> (r: Box<Term>)
    ensures
        term_view(*r) == spec_parse_term(term@),
    decreases term@.len(),
{
    let cs = chars_vec(term);
    let n = cs.len();
    proof {
        assert(cs@.subrange(0, n as int) =~= term@);
    }
    if n >= 1 && cs[0] == '-' && n >= 2 && cs[1] != '-' {
        let rest = term.substring_char(1, n);
        proof {
            assert(rest@ =~= term@.drop_first());
        }
        let inner = parse_term(rest);
        return Box::new(Term::Not(inner));
    }
    let sp: Vec<char> = vec!['s', 'i', 't', 'e', ':'];
    let tp: Vec<char> = vec!['i', 'n', 't', 'i', 't', 'l', 'e', ':'];
    let bp: Vec<char> = vec!['i', 'n', 'b', 'o', 'd', 'y', ':'];
    let up: Vec<char> = vec!['i', 'n', 'u', 'r', 'l', ':'];
    proof {
        assert(sp@ =~= site_p());
        assert(tp@ =~= title_p());
        assert(bp@ =~= body_p());
        assert(up@ =~= url_p());
    }
    if check_prefix(&cs, 0, n, &sp) && n > 5 {
        let rest = term.substring_char(5, n);
        proof {
            assert(rest@ =~= term@.skip(5));
        }
        return Box::new(Term::Site(rest.to_owned()));
    }
    if check_prefix(&cs, 0, n, &tp) && n > 8 {
        let rest = term.substring_char(8, n);
        proof {
            assert(rest@ =~= term@.skip(8));
        }
        return Box::new(Term::Title(rest.to_owned()));
    }
    if check_prefix(&cs, 0, n, &bp) && n > 7 {
        let rest = term.substring_char(7, n);
        proof {
            assert(rest@ =~= term@.skip(7));
        }
        return Box::new(Term::Body(rest.to_owned()));
    }
    if check_prefix(&cs, 0, n, &up) && n > 6 {
        let rest = term.substring_char(6, n);
        proof {
            assert(rest@ =~= term@.skip(6));
        }
        return Box::new(Term::Url(rest.to_owned()));
    }
    if n >= 1 && cs[0] == '!' {
        let rest = term.substring_char(1, n);
        proof {
            assert(rest@ =~= term@.skip(1));
        }
        return Box::new(Term::PossibleBang(rest.to_owned()));
    }
    Box::new(Term::Simple(SimpleTerm(term.to_owned())))
}

/// Straighten curly double quotes.
pub open spec fn normalize(s: Seq<char>) -> Seq<char> {
    s.map_values(
        |c: char|
            if c == '\u{201C}' || c == '\u{201D}' {
                '"'
            } else {
                c
            },
    )
}

/// How many bytes a character takes in UTF-8.
pub open spec fn ulen(c: char) -> int {
    if (c as u32) < 0x80 {
        1int
    } else if (c as u32) < 0x800 {
        2int
    } else if (c as u32) < 0x10000 {
        3int
    } else {
        4int
    }
}

/// The first double quote at or after `q`, or the length if none.
pub open spec fn find_quote(s: Seq<char>, q: int) -> int
    decreases s.len() - q,
{
    if q < 0 || q >= s.len() {
        s.len() as int
    } else if s[q] == '"' {
        q
    } else {
        find_quote(s, q + 1)
    }
}

/// The tokenizer, one character position at a time.  `start` is the
/// character index the current term begins at; `mid` says the begin
/// position still sits one byte inside that character (after a
/// multi-byte whitespace character), which the per-step flooring undoes.
pub open spec fn spec_scan(
    s: Seq<char>,
    i: int,
    start: int,
    mid: bool,
    acc: Seq<TermModel>,
) -> Seq<TermModel>
    decreases s.len() - i,
{
    if i < 0 || i >= s.len() {
        if 0 <= start < s.len() {
            acc.push(spec_parse_term(s.subrange(start, s.len() as int)))
        } else {
            acc
        }
    } else if start > i || (start == i && mid) {
        spec_scan(s, i + 1, start, mid, acc)
    } else {
        let fq = find_quote(s, start + 1);
        if s[start] == '"' && fq < s.len() {
            spec_scan(s, i + 1, fq + 1, false, acc.push(TermModel::Phrase(s.subrange(start + 1, fq))))
        } else if is_whitespace_char(s[i]) {
            let acc2 = if i == start {
                acc
            } else {
                acc.push(spec_parse_term(s.subrange(start, i)))
            };
            if ulen(s[i]) == 1 {
                spec_scan(s, i + 1, i + 1, false, acc2)
            } else {
                spec_scan(s, i + 1, i, true, acc2)
            }
        } else {
            spec_scan(s, i + 1, start, false, acc)
        }
    }
}

/// Appending one parsed term appends its model.
pub proof fn lemma_terms_view_push(prev: Seq<Box<Term>>, cur: Seq<Box<Term>>, b: Box<Term>)
    requires
        cur == prev.push(b),
    ensures
        terms_view(cur) == terms_view(prev).push(term_view(*b)),
{
    assert(terms_view(prev).len() == prev.len());
    assert forall|q: int| 0 <= q < cur.len() implies terms_view(cur)[q] == terms_view(prev).push(
        term_view(*b),
    )[q] by {
        if q < prev.len() {
            assert(cur[q] == prev[q]);
        } else {
            assert(cur[q] == b);
        }
    }
    assert(terms_view(cur) =~= terms_view(prev).push(term_view(*b)));
}

/// What parsing a query yields: the lowercased, quote-straightened text,
/// tokenized and classified.
pub open spec fn spec_parse(q: Seq<char>) -> Seq<TermModel> {
    spec_scan(normalize(lower_of(q)), 0, 0, false, Seq::empty())
}

/// Find the first double quote at or after `q`.
fn find_quote_exec(cs: &Vec<char>, q: usize) -> (r: usize)
    requires
        q <= cs@.len(),
    ensures
        r == find_quote(cs@, q as int),
        q <= r <= cs@.len(),
{
    let mut k: usize = q;
    while k < cs.len()
        invariant
            q <= k <= cs@.len(),
            find_quote(cs@, q as int) == find_quote(cs@, k as int),
        decreases cs@.len() - k,
    {
        if cs[k] == '"' {
            return k;
        }
        k += 1;
    }
    k
}

/// Parse a query: lowercase it, straighten curly double quotes, and
/// split it into classified terms and quoted phrases.
pub fn parse(query: &str) -> (r: Vec<Box<Term>>)
    ensures
        terms_view(r@) == spec_parse(query@),
{
    let lowered = str_to_lowercase(query);
    let lcs = chars_vec(lowered.as_str());
    let mut ns: Vec<char> = Vec::new();
    let mut t: usize = 0;
    while t < lcs.len()
        invariant
            0 <= t <= lcs@.len(),
            ns@ =~= normalize(lcs@).take(t as int),
        decreases lcs@.len() - t,
    {
        let c = lcs[t];
        if c == '\u{201C}' || c == '\u{201D}' {
            ns.push('"');
        } else {
            ns.push(c);
        }
        proof {
            assert(ns@ =~= normalize(lcs@).take(t + 1));
        }
        t += 1;
    }
    proof {
        assert(normalize(lcs@).take(lcs@.len() as int) =~= normalize(lcs@));
        assert(ns@ == normalize(lower_of(query@)));
    }
    let text = crate::text::string_from_chars(&ns);
    let ghost sv = ns@;
    let n = ns.len();
    let mut res: Vec<Box<Term>> = Vec::new();
    let mut start: usize = 0;
    let mut mid: bool = false;
    let mut i: usize = 0;
    proof {
        assert(terms_view(res@) =~= Seq::<TermModel>::empty());
    }
    while i < n
        invariant
            n == sv.len(),
            sv == ns@,
            text@ == sv,
            0 <= i <= n,
            0 <= start <= n,
            mid ==> start < n,
            spec_scan(sv, i as int, start as int, mid, terms_view(res@)) == spec_parse(query@),
        decreases n - i,
    {
        if start > i || (start == i && mid) {
            proof {
                assert(spec_scan(sv, i as int, start as int, mid, terms_view(res@)) == spec_scan(
                    sv,
                    i + 1,
                    start as int,
                    mid,
                    terms_view(res@),
                ));
            }
            i += 1;
            continue ;
        }
        let fq = if start < n {
            find_quote_exec(&ns, start + 1)
        } else {
            n
        };
        if start < n && ns[start] == '"' && fq < n {
            let ghost prev = res@;
            let phrase = text.substring_char(start + 1, fq);
            proof {
                assert(phrase@ =~= sv.subrange(start + 1, fq as int));
            }
            let boxed = Box::new(Term::Phrase(phrase.to_owned()));
            let ghost bm = term_view(*boxed);
            res.push(boxed);
            proof {
                lemma_terms_view_push(prev, res@, res@[prev.len() as int]);
                assert(bm == TermModel::Phrase(sv.subrange(start + 1, fq as int)));
            }
            start = fq + 1;
            mid = false;
        } else if char_is_whitespace(ns[i]) {
            if i > start {
                let ghost prev = res@;
                let tokstr = text.substring_char(start, i);
                proof {
                    assert(tokstr@ =~= sv.subrange(start as int, i as int));
                }
                let tok = parse_term(tokstr);
                let ghost tm = term_view(*tok);
                res.push(tok);
                proof {
                    lemma_terms_view_push(prev, res@, res@[prev.len() as int]);
                    assert(tm == spec_parse_term(sv.subrange(start as int, i as int)));
                }
            }
            let c = ns[i];
            let u = c as u32;
            if u < 0x80 {
                start = i + 1;
                mid = false;
            } else {
                start = i;
                mid = true;
            }
        } else {
            mid = false;
        }
        i += 1;
    }
    if start < n {
        let ghost prev = res@;
        let tokstr = text.substring_char(start, n);
        proof {
            assert(tokstr@ =~= sv.subrange(start as int, n as int));
        }
        let tok = parse_term(tokstr);
        let ghost tm = term_view(*tok);
        res.push(tok);
        proof {
            lemma_terms_view_push(prev, res@, res@[prev.len() as int]);
            assert(tm == spec_parse_term(sv.subrange(start as int, sv.len() as int)));
        }
    }
    res
}

} // verus!
