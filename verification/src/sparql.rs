//! A recursive-descent parser for a small SPARQL subset, compiled to a
//! [`TraversalPlan`].
//!
//! ```text
//! query     := prefixes select where solution_mods
//! prefixes  := ('PREFIX' pname_ns ':' '<' iri '>')*
//! select    := 'SELECT' ('*' | var+)
//! where     := 'WHERE' '{' triple ('.' triple)* '.'? '}'
//! triple    := term verb term
//! verb      := 'a' | iri | curie       // 'a' is rdf:type
//! term      := var | iri | curie
//! var       := '?' ident
//! curie     := pname_ns? ':' local
//! iri       := '<' [^>]* '>'
//! solution_mods := ('LIMIT' uint)? ('OFFSET' uint)? in either order
//! ```
//!
//! `?s a :T` constrains `?s` to type `T` (an IRI's local name); `?s :p ?o`
//! adds an outbound hop labelled by `p`'s local name. The first triple's
//! subject seeds the plan.
use vstd::prelude::*;
use vstd::string::StringSliceAdditionalSpecFns;

use crate::lexer::{
    all_ascii, ascii_chars, decimal, digits_end, ident_continue, ident_end, ident_start, is_digit,
    is_ident_continue, is_ident_start, keyword_at, lemma_digits_end_bounds, lemma_ident_end_bounds, lemma_ws_settled, slice_of, text_of, utf8_lossy,
    ws_comment_end, Cursor,
};
use crate::schema::{opt_view, strings_view};
use crate::store::{EdgePattern, NodePattern, TraversalPlan, TraversalStep};

verus! {

/// Errors produced by [`parse`].
#[derive(Clone, Debug)]
pub enum SparqlError {
    /// The input could not be tokenised or parsed.
    Parse(String),
    /// The construct is recognised but not supported by this subset.
    Unsupported(String),
}

impl SparqlError {
    /// The message this error renders as.
    pub fn message(&self) -> (r: String)
        ensures
            r@ == match self {
                SparqlError::Parse(d) => "sparql parse error: "@ + d@,
                SparqlError::Unsupported(d) => "sparql unsupported feature: "@ + d@,
            },
    {
        match self {
            SparqlError::Parse(d) => String::from_str("sparql parse error: ").concat(d.as_str()),
            SparqlError::Unsupported(d) => String::from_str("sparql unsupported feature: ").concat(d.as_str()),
        }
    }
}

fn parse_error(msg: &str) -> (r: SparqlError)
    ensures
        r matches SparqlError::Parse(m) && m@ == msg@,
{
    SparqlError::Parse(String::from_str(msg))
}

fn unsupported(msg: &str) -> (r: SparqlError)
    ensures
        r matches SparqlError::Unsupported(m) && m@ == msg@,
{
    SparqlError::Unsupported(String::from_str(msg))
}

// ---------------------------------------------------------------------
// Local names
// ---------------------------------------------------------------------

/// `c` separates an IRI's namespace from its local name.
pub open spec fn is_separator(c: char) -> bool {
    c == '#' || c == '/' || c == ':'
}

/// Where the local name of `s` starts: just past its last separator, or 0.
pub open spec fn local_start(s: Seq<char>) -> int
    decreases s.len(),
{
    if s.len() == 0 {
        0
    } else if is_separator(s.last()) {
        s.len() as int
    } else {
        local_start(s.drop_last())
    }
}

proof fn lemma_local_start_bounds(s: Seq<char>)
    ensures
        0 <= local_start(s) <= s.len(),
    decreases s.len(),
{
    if s.len() > 0 {
        lemma_local_start_bounds(s.drop_last());
    }
}

/// The local name of an IRI: the suffix after its last `#`, `/` or `:`.
pub fn label_localname(s: &str) -> (r: &str)
    ensures
        0 <= local_start(s@) <= s@.len(),
        r@ == s@.subrange(local_start(s@), s@.len() as int),
{
    let n = s.unicode_len();
    let mut cut: usize = 0;
    let mut i: usize = 0;
    proof {
        lemma_local_start_bounds(s@);
    }
    while i < n
        invariant
            i <= n,
            n == s@.len(),
            cut <= i,
            cut == local_start(s@.subrange(0, i as int)),
        decreases n - i,
    {
        let c = s.get_char(i);
        assert(s@.subrange(0, i + 1).drop_last() =~= s@.subrange(0, i as int));
        if c == '#' || c == '/' || c == ':' {
            cut = i + 1;
        }
        i = i + 1;
    }
    assert(s@.subrange(0, n as int) =~= s@);
    s.substring_char(cut, n)
}

// ---------------------------------------------------------------------
// Terms
// ---------------------------------------------------------------------

/// A term of a triple pattern.
#[derive(Clone, Debug)]
pub enum Term {
    /// A variable (`?x`).
    Var(String),
    /// An IRI in angle brackets, or a CURIE expanded through a known prefix.
    Iri(String),
    /// The local name of a CURIE whose prefix is not declared.
    Local(String),
}

/// Mathematical view of a [`Term`].
pub enum TermV {
    Var(Seq<char>),
    Iri(Seq<char>),
    Local(Seq<char>),
}

/// The view of a term.
pub open spec fn term_view(t: Term) -> TermV {
    match t {
        Term::Var(v) => TermV::Var(v@),
        Term::Iri(i) => TermV::Iri(i@),
        Term::Local(l) => TermV::Local(l@),
    }
}

/// The view of a list of triple patterns.
pub open spec fn triples_view(ts: Seq<(Term, Term, Term)>) -> Seq<(TermV, TermV, TermV)> {
    ts.map_values(|t: (Term, Term, Term)| (term_view(t.0), term_view(t.1), term_view(t.2)))
}

// ---------------------------------------------------------------------
// Grammar
// ---------------------------------------------------------------------

/// The position of the first declaration of prefix `k` in `ps`.
pub open spec fn prefix_index(ps: Seq<(Seq<char>, Seq<char>)>, k: Seq<char>) -> Option<int>
    decreases ps.len(),
{
    if ps.len() == 0 {
        None
    } else if ps[0].0 == k {
        Some(0)
    } else {
        match prefix_index(ps.drop_first(), k) {
            Some(i) => Some(i + 1),
            None => None,
        }
    }
}

/// The base declared for prefix `k`.
pub open spec fn prefix_lookup(ps: Seq<(Seq<char>, Seq<char>)>, k: Seq<char>) -> Option<Seq<char>> {
    match prefix_index(ps, k) {
        Some(i) => Some(ps[i].1),
        None => None,
    }
}

/// `ps` with `k` declared as `b`, replacing an earlier declaration.
pub open spec fn prefix_declared(ps: Seq<(Seq<char>, Seq<char>)>, k: Seq<char>, b: Seq<char>) -> Seq<
    (Seq<char>, Seq<char>),
> {
    match prefix_index(ps, k) {
        Some(i) => ps.update(i, (k, b)),
        None => ps.push((k, b)),
    }
}

proof fn lemma_prefix_index(ps: Seq<(Seq<char>, Seq<char>)>, k: Seq<char>)
    ensures
        prefix_index(ps, k) matches Some(i) ==> 0 <= i < ps.len() && ps[i].0 == k && forall|j: int|
            0 <= j < i ==> ps[j].0 != k,
        prefix_index(ps, k) is None ==> forall|j: int| 0 <= j < ps.len() ==> ps[j].0 != k,
    decreases ps.len(),
{
    if ps.len() > 0 {
        lemma_prefix_index(ps.drop_first(), k);
        assert forall|j: int| 1 <= j < ps.len() implies ps[j] == ps.drop_first()[j - 1] by {}
    }
}

proof fn lemma_prefix_index_at(ps: Seq<(Seq<char>, Seq<char>)>, k: Seq<char>, i: int)
    requires
        0 <= i < ps.len(),
        ps[i].0 == k,
        forall|j: int| 0 <= j < i ==> ps[j].0 != k,
    ensures
        prefix_index(ps, k) == Some(i),
{
    lemma_prefix_index(ps, k);
}

/// The position just past a CURIE local part's continuation bytes
/// (identifier bytes, `.` and `-`) from `p`.
pub open spec fn local_end(s: Seq<u8>, p: int) -> int
    decreases s.len() - p,
{
    if 0 <= p < s.len() && (ident_continue(s[p]) || s[p] == 46 || s[p] == 45) {
        local_end(s, p + 1)
    } else {
        p
    }
}

/// The position of the first `>` at or after `p` (or the end).
pub open spec fn gt_index(s: Seq<u8>, p: int) -> int
    decreases s.len() - p,
{
    if 0 <= p < s.len() && s[p] != 62 {
        gt_index(s, p + 1)
    } else {
        p
    }
}

/// An identifier after whitespace and comments, and the position after it.
pub open spec fn ident_tok(s: Seq<u8>, p: int) -> Result<(Seq<char>, int), Seq<char>> {
    let q = ws_comment_end(s, p);
    if q < s.len() && ident_start(s[q]) {
        Ok((ascii_chars(s.subrange(q, ident_end(s, q + 1))), ident_end(s, q + 1)))
    } else {
        Err("expected identifier"@)
    }
}

/// An unsigned integer after whitespace and comments.
pub open spec fn uint_tok(s: Seq<u8>, p: int) -> Result<(nat, int), Seq<char>> {
    let q = ws_comment_end(s, p);
    let e = digits_end(s, q);
    if e == q {
        Err("expected integer"@)
    } else if decimal(s, q, e) > usize::MAX {
        Err("invalid integer: number too large"@)
    } else {
        Ok((decimal(s, q, e), e))
    }
}

/// A variable `?name` after whitespace and comments.
pub open spec fn var_tok(s: Seq<u8>, p: int) -> Result<(Seq<char>, int), Seq<char>> {
    let q = ws_comment_end(s, p);
    if q < s.len() && s[q] == 63 {
        ident_tok(s, q + 1)
    } else {
        Err("expected `?var`"@)
    }
}

/// An IRI in angle brackets after whitespace and comments.
pub open spec fn iri_tok(s: Seq<u8>, p: int) -> Result<(Seq<char>, int), Seq<char>> {
    let q = ws_comment_end(s, p);
    if !(q < s.len() && s[q] == 60) {
        Err("expected `<iri>`"@)
    } else if gt_index(s, q + 1) >= s.len() {
        Err("unterminated IRI"@)
    } else {
        Ok((utf8_lossy(s.subrange(q + 1, gt_index(s, q + 1))), gt_index(s, q + 1) + 1))
    }
}

/// A CURIE `prefix:local` or `:local` after whitespace and comments: the
/// expanded IRI when the prefix is declared, else the local part.
pub open spec fn curie_tok(s: Seq<u8>, p: int, ps: Seq<(Seq<char>, Seq<char>)>) -> Option<(TermV, int)> {
    let q = ws_comment_end(s, p);
    let pe = if q < s.len() && ident_start(s[q]) {
        ident_end(s, q)
    } else {
        q
    };
    if !(pe < s.len() && s[pe] == 58) {
        None
    } else {
        let ls = pe + 1;
        let le = if ls < s.len() && (ident_start(s[ls]) || is_digit(s[ls])) {
            local_end(s, ls + 1)
        } else {
            ls
        };
        if le == ls {
            None
        } else {
            let local = ascii_chars(s.subrange(ls, le));
            match prefix_lookup(ps, ascii_chars(s.subrange(q, pe))) {
                Some(b) => Some((TermV::Iri(b + local), le)),
                None => Some((TermV::Local(local), le)),
            }
        }
    }
}

/// A term: a variable, an IRI or a CURIE.
pub open spec fn term_tok(s: Seq<u8>, p: int, ps: Seq<(Seq<char>, Seq<char>)>) -> Result<(TermV, int), Seq<char>> {
    let q = ws_comment_end(s, p);
    if q < s.len() && s[q] == 63 {
        match var_tok(s, q) {
            Ok((v, e)) => Ok((TermV::Var(v), e)),
            Err(m) => Err(m),
        }
    } else if q < s.len() && s[q] == 60 {
        match iri_tok(s, q) {
            Ok((i, e)) => Ok((TermV::Iri(i), e)),
            Err(m) => Err(m),
        }
    } else {
        match curie_tok(s, q, ps) {
            Some(x) => Ok(x),
            None => Err("expected term"@),
        }
    }
}

/// A verb: the keyword `a`, or a term.
pub open spec fn verb_tok(s: Seq<u8>, p: int, ps: Seq<(Seq<char>, Seq<char>)>) -> Result<(TermV, int), Seq<char>> {
    let q = ws_comment_end(s, p);
    if keyword_at(s, q, "a".spec_bytes()) {
        Ok((TermV::Local("a"@), q + "a".spec_bytes().len()))
    } else {
        term_tok(s, q, ps)
    }
}

proof fn lemma_ident_tok(s: Seq<u8>, p: int)
    requires
        0 <= p <= s.len(),
    ensures
        ident_tok(s, p) matches Ok((_, e)) ==> p < e <= s.len(),
{
    lemma_ws_settled(s, p);
    let q = ws_comment_end(s, p);
    if q < s.len() && ident_start(s[q]) {
        lemma_ident_end_bounds(s, q + 1);
    }
}


proof fn lemma_local_end_bounds(s: Seq<u8>, p: int)
    requires
        0 <= p <= s.len(),
    ensures
        p <= local_end(s, p) <= s.len(),
    decreases s.len() - p,
{
    if p < s.len() && (ident_continue(s[p]) || s[p] == 46 || s[p] == 45) {
        lemma_local_end_bounds(s, p + 1);
    }
}

proof fn lemma_gt_index_bounds(s: Seq<u8>, p: int)
    requires
        0 <= p <= s.len(),
    ensures
        p <= gt_index(s, p) <= s.len(),
        gt_index(s, p) < s.len() ==> s[gt_index(s, p)] == 62,
    decreases s.len() - p,
{
    if p < s.len() && s[p] != 62 {
        lemma_gt_index_bounds(s, p + 1);
    }
}


/// Each token that is read ends after where its search began.
pub proof fn lemma_tokens_advance(s: Seq<u8>, p: int, ps: Seq<(Seq<char>, Seq<char>)>)
    requires
        0 <= p <= s.len(),
    ensures
        var_tok(s, p) matches Ok((_, e)) ==> p < e <= s.len(),
        iri_tok(s, p) matches Ok((_, e)) ==> p < e <= s.len(),
        uint_tok(s, p) matches Ok((_, e)) ==> p < e <= s.len(),
        curie_tok(s, p, ps) matches Some((_, e)) ==> p < e <= s.len(),
        term_tok(s, p, ps) matches Ok((_, e)) ==> p < e <= s.len(),
        verb_tok(s, p, ps) matches Ok((_, e)) ==> p < e <= s.len(),
{
    lemma_ws_settled(s, p);
    let q = ws_comment_end(s, p);
    lemma_ws_settled(s, q);
    if q < s.len() {
        lemma_ident_tok(s, q + 1);
        lemma_gt_index_bounds(s, q + 1);
        lemma_local_end_bounds(s, q + 1);
        lemma_ident_end_bounds(s, q);
        let pe = if ident_start(s[q]) {
            ident_end(s, q)
        } else {
            q
        };
        if pe + 1 < s.len() {
            lemma_local_end_bounds(s, pe + 2);
        }
    }
    lemma_digits_end_bounds(s, q);
    if keyword_at(s, q, "a".spec_bytes()) {
        reveal_strlit("a");
    }
}

/// The `PREFIX` declarations from `p`: the position after them and the
/// prefixes declared.
pub open spec fn prefixes_tok(s: Seq<u8>, p: int, ps: Seq<(Seq<char>, Seq<char>)>) -> Result<
    (int, Seq<(Seq<char>, Seq<char>)>),
    Seq<char>,
>
    decreases s.len() - p,
{
    let q = ws_comment_end(s, p);
    if !(0 <= p <= s.len()) || !keyword_at(s, q, "PREFIX".spec_bytes()) {
        Ok((q, ps))
    } else {
        let r = ws_comment_end(s, q + "PREFIX".spec_bytes().len());
        let n = ident_end(s, r);
        if !(n < s.len() && s[n] == 58) {
            Ok((q, ps))
        } else {
            match iri_tok(s, n + 1) {
                Err(m) => Err(m),
                Ok((iri, e)) => {
                    proof {
                        lemma_ws_settled(s, p);
                        lemma_ws_settled(s, q + "PREFIX".spec_bytes().len());
                        lemma_ident_end_bounds(s, r);
                        lemma_tokens_advance(s, n + 1, ps);
                    }
                    prefixes_tok(s, e, prefix_declared(ps, ascii_chars(s.subrange(r, n)), iri))
                },
            }
        }
    }
}

/// The variables of a SELECT list from `p`, after `acc`.
pub open spec fn select_vars(s: Seq<u8>, p: int, acc: Seq<Seq<char>>) -> Result<(Seq<Seq<char>>, int), Seq<char>>
    decreases s.len() - p,
{
    let q = ws_comment_end(s, p);
    if 0 <= p <= s.len() && q < s.len() && s[q] == 63 {
        match var_tok(s, q) {
            Err(m) => Err(m),
            Ok((v, e)) => {
                proof {
                    lemma_ws_settled(s, p);
                    lemma_tokens_advance(s, q, seq![]);
                }
                select_vars(s, e, acc.push(v))
            },
        }
    } else {
        Ok((acc, q))
    }
}

/// The triple patterns of a WHERE block from `p`, after `acc`, and the
/// position of its closing `}`.
pub open spec fn triples_tok(s: Seq<u8>, p: int, ps: Seq<(Seq<char>, Seq<char>)>, acc: Seq<(TermV, TermV, TermV)>) -> Result<
    (Seq<(TermV, TermV, TermV)>, int),
    Seq<char>,
>
    decreases s.len() - p,
{
    let q = ws_comment_end(s, p);
    if !(0 <= p <= s.len()) || (q < s.len() && s[q] == 125) {
        Ok((acc, q))
    } else {
        match term_tok(s, q, ps) {
            Err(m) => Err(m),
            Ok((sub, e1)) => match verb_tok(s, e1, ps) {
                Err(m) => Err(m),
                Ok((pr, e2)) => match term_tok(s, e2, ps) {
                    Err(m) => Err(m),
                    Ok((ob, e3)) => {
                        let acc2 = acc.push((sub, pr, ob));
                        let q2 = ws_comment_end(s, e3);
                        if q2 < s.len() && s[q2] == 46 {
                            proof {
                                lemma_ws_settled(s, p);
                                lemma_tokens_advance(s, q, ps);
                                lemma_tokens_advance(s, e1, ps);
                                lemma_tokens_advance(s, e2, ps);
                                lemma_ws_settled(s, e3);
                            }
                            triples_tok(s, q2 + 1, ps, acc2)
                        } else if q2 < s.len() && s[q2] == 125 {
                            Ok((acc2, q2))
                        } else {
                            Err("expected `.` or `}` after triple"@)
                        }
                    },
                },
            },
        }
    }
}

/// The LIMIT and OFFSET clauses from `p`, at most two, in either order.
pub open spec fn paging(s: Seq<u8>, p: int, round: nat, limit: Option<nat>, offset: nat) -> Result<
    (Option<nat>, nat, int),
    Seq<char>,
>
    decreases 2 - round,
{
    if round >= 2 {
        Ok((limit, offset, p))
    } else {
        let q = ws_comment_end(s, p);
        if keyword_at(s, q, "LIMIT".spec_bytes()) {
            match uint_tok(s, q + "LIMIT".spec_bytes().len()) {
                Err(m) => Err(m),
                Ok((n, e)) => paging(s, e, round + 1, Some(n), offset),
            }
        } else if keyword_at(s, q, "OFFSET".spec_bytes()) {
            match uint_tok(s, q + "OFFSET".spec_bytes().len()) {
                Err(m) => Err(m),
                Ok((n, e)) => paging(s, e, round + 1, limit, n),
            }
        } else {
            Ok((limit, offset, q))
        }
    }
}

// ---------------------------------------------------------------------
// Compilation
// ---------------------------------------------------------------------

/// Why a query was refused: malformed, or outside the subset.
pub enum Fault {
    Parse(Seq<char>),
    Unsupported(Seq<char>),
}

/// One hop of a compiled query: its edge label, the variable its target
/// binds, the types its target requires.
pub struct StepShape {
    pub label: Seq<char>,
    pub bind: Option<Seq<char>>,
    pub types: Seq<Seq<char>>,
}

/// A compiled query: the seed variable and its types, the hops, the
/// selected columns (`None` for `*`), and paging.
pub struct PlanShape {
    pub seed: Seq<char>,
    pub seed_types: Seq<Seq<char>>,
    pub steps: Seq<StepShape>,
    pub columns: Option<Seq<Seq<char>>>,
    pub limit: Option<nat>,
    pub skip: nat,
}

/// The state of compilation: the seed's types, the hops so far, and where
/// each variable was introduced (`None` the seed, `Some(i)` hop `i`).
pub struct Lowering {
    pub seed_types: Seq<Seq<char>>,
    pub steps: Seq<StepShape>,
    pub sites: Seq<(Seq<char>, Option<nat>)>,
}

/// Where `v` was first introduced.
pub open spec fn site(sites: Seq<(Seq<char>, Option<nat>)>, v: Seq<char>) -> Option<Option<nat>>
    decreases sites.len(),
{
    if sites.len() == 0 {
        None
    } else if sites[0].0 == v {
        Some(sites[0].1)
    } else {
        site(sites.drop_first(), v)
    }
}

/// The label a term carries: its IRI or local name.
pub open spec fn label_of(t: TermV) -> Option<Seq<char>> {
    match t {
        TermV::Var(_) => None,
        TermV::Iri(i) => Some(i),
        TermV::Local(l) => Some(l),
    }
}

/// The local name of an IRI.
pub open spec fn localname(s: Seq<char>) -> Seq<char> {
    s.subrange(local_start(s), s.len() as int)
}

/// `st` with type `ty` added where `v` was introduced (the seed when unknown).
pub open spec fn attached(st: Lowering, v: Seq<char>, ty: Seq<char>) -> Lowering {
    match site(st.sites, v) {
        Some(Some(i)) => if i < st.steps.len() {
            Lowering {
                steps: st.steps.update(i as int, StepShape { types: st.steps[i as int].types.push(ty), ..st.steps[i as int] }),
                ..st
            }
        } else {
            st
        },
        _ => Lowering { seed_types: st.seed_types.push(ty), ..st },
    }
}

/// Compile one triple pattern: `?s a T` types `?s`; `?s p o` adds a hop.
pub open spec fn compiled(st: Lowering, t: (TermV, TermV, TermV)) -> Result<Lowering, Seq<char>> {
    match t.0 {
        TermV::Var(v) => if site(st.sites, v) is None {
            Err("a triple subject was not introduced by the seed triple"@)
        } else {
            match label_of(t.1) {
                None => Err("predicate may not be a variable in this subset"@),
                Some(pl) => if pl == "a"@ {
                    match label_of(t.2) {
                        None => Err("`rdf:type` object must be an IRI or CURIE"@),
                        Some(ol) => Ok(attached(st, v, localname(ol))),
                    }
                } else {
                    let n = st.steps.len();
                    match t.2 {
                        TermV::Var(w) => Ok(
                            Lowering {
                                steps: st.steps.push(StepShape { label: localname(pl), bind: Some(w), types: seq![] }),
                                sites: if site(st.sites, w) is None {
                                    st.sites.push((w, Some(n)))
                                } else {
                                    st.sites
                                },
                                ..st
                            },
                        ),
                        TermV::Iri(x) => Ok(
                            Lowering {
                                steps: st.steps.push(StepShape { label: localname(pl), bind: None, types: seq![localname(x)] }),
                                ..st
                            },
                        ),
                        TermV::Local(x) => Ok(
                            Lowering {
                                steps: st.steps.push(StepShape { label: localname(pl), bind: None, types: seq![localname(x)] }),
                                ..st
                            },
                        ),
                    }
                },
            }
        },
        _ => Err("triple subjects must be variables in this subset"@),
    }
}

/// Where a variable is first introduced, after one more introduction.
proof fn lemma_site_push(sites: Seq<(Seq<char>, Option<nat>)>, x: (Seq<char>, Option<nat>), v: Seq<char>)
    ensures
        site(sites.push(x), v) == match site(sites, v) {
            Some(w) => Some(w),
            None => if x.0 == v {
                Some(x.1)
            } else {
                None
            },
        },
    decreases sites.len(),
{
    let w = sites.push(x);
    if sites.len() > 0 {
        lemma_site_push(sites.drop_first(), x, v);
        assert(w[0] == sites[0]);
        assert(w.drop_first() =~= sites.drop_first().push(x));
        if sites[0].0 == v {
            assert(site(w, v) == Some(sites[0].1));
        } else {
            assert(site(w, v) == site(w.drop_first(), v));
            assert(site(sites, v) == site(sites.drop_first(), v));
        }
    } else {
        assert(w[0] == x);
        assert(w.drop_first() =~= Seq::<(Seq<char>, Option<nat>)>::empty());
        assert(site(w.drop_first(), v) is None);
    }
}

/// A type constrains the variable it names where that variable was
/// introduced: after `?a p ?b` (with `?a` known and `?b` new) opens a hop
/// to `?b`, a following `?b a T` adds the local name of `T` to that hop's
/// target types, and neither triple touches the seed's types or the hops
/// before.
pub proof fn law_type_constrains_hop_target(
    st: Lowering,
    a: Seq<char>,
    p: TermV,
    b: Seq<char>,
    k: TermV,
    t: TermV,
)
    requires
        site(st.sites, a) is Some,
        site(st.sites, b) is None,
        label_of(p) matches Some(pl) && pl != "a"@,
        label_of(k) == Some("a"@),
        label_of(t) is Some,
    ensures
        ({
            let n = st.steps.len() as int;
            let pl = label_of(p)->Some_0;
            let tl = label_of(t)->Some_0;
            &&& compiled(st, (TermV::Var(a), p, TermV::Var(b))) matches Ok(st1)
            &&& compiled(st1, (TermV::Var(b), k, t)) matches Ok(st2)
            &&& st2.seed_types == st.seed_types
            &&& st2.steps.len() == n + 1
            &&& st2.steps.take(n) == st.steps
            &&& st2.steps[n].label == localname(pl)
            &&& st2.steps[n].bind == Some(b)
            &&& st2.steps[n].types == seq![localname(tl)]
        }),
{
    let n = st.steps.len();
    let st1 = compiled(st, (TermV::Var(a), p, TermV::Var(b)))->Ok_0;
    lemma_site_push(st.sites, (b, Some(n)), b);
    lemma_site_push(st.sites, (b, Some(n)), a);
    assert(site(st1.sites, b) == Some(Some(n)));
    let st2 = compiled(st1, (TermV::Var(b), k, t))->Ok_0;
    assert(seq![].push(localname(label_of(t)->Some_0)) =~= seq![localname(label_of(t)->Some_0)]);
    assert(st2.steps.take(n as int) =~= st.steps);
}

/// A type on a variable that some hop introduced constrains that hop
/// alone: `?v a T`, where `?v` was first bound as the target of hop `i`,
/// adds the local name of `T` to hop `i`'s target types and leaves the
/// seed's types, every other hop, and hop `i`'s label and binding as they
/// were.
pub proof fn law_type_constrains_its_hop(st: Lowering, v: Seq<char>, i: nat, k: TermV, t: TermV)
    requires
        site(st.sites, v) == Some(Some(i)),
        i < st.steps.len(),
        label_of(k) == Some("a"@),
        label_of(t) is Some,
    ensures
        compiled(st, (TermV::Var(v), k, t)) matches Ok(st2) && {
            &&& st2.seed_types == st.seed_types
            &&& st2.steps.len() == st.steps.len()
            &&& forall|j: int| 0 <= j < st.steps.len() && j != i ==> #[trigger] st2.steps[j] == st.steps[j]
            &&& st2.steps[i as int].label == st.steps[i as int].label
            &&& st2.steps[i as int].bind == st.steps[i as int].bind
            &&& st2.steps[i as int].types == st.steps[i as int].types.push(localname(label_of(t)->Some_0))
        },
{
}

/// A type on the seed's variable constrains the seed alone.
pub proof fn law_type_constrains_seed(st: Lowering, v: Seq<char>, k: TermV, t: TermV)
    requires
        site(st.sites, v) == Some(None::<nat>),
        label_of(k) == Some("a"@),
        label_of(t) is Some,
    ensures
        compiled(st, (TermV::Var(v), k, t)) matches Ok(st2) && st2.seed_types == st.seed_types.push(
            localname(label_of(t)->Some_0),
        ) && st2.steps == st.steps,
{
}

/// Compile triple patterns in turn, stopping at the first refused.
pub open spec fn compiled_all(st: Lowering, ts: Seq<(TermV, TermV, TermV)>) -> Result<Lowering, Seq<char>>
    decreases ts.len(),
{
    if ts.len() == 0 {
        Ok(st)
    } else {
        match compiled(st, ts[0]) {
            Err(m) => Err(m),
            Ok(st2) => compiled_all(st2, ts.drop_first()),
        }
    }
}

/// The plan a WHERE block compiles to: seeded by its first subject, which
/// must be a variable.
pub open spec fn lowered(ts: Seq<(TermV, TermV, TermV)>) -> Result<(Seq<char>, Lowering), Fault> {
    if ts.len() == 0 {
        Err(Fault::Parse("WHERE block must contain at least one triple"@))
    } else {
        match ts[0].0 {
            TermV::Var(v) => match compiled_all(Lowering { seed_types: seq![], steps: seq![], sites: seq![(v, None)] }, ts) {
                Ok(st) => Ok((v, st)),
                Err(m) => Err(Fault::Unsupported(m)),
            },
            _ => Err(Fault::Unsupported("the first triple's subject must be a variable in this subset"@)),
        }
    }
}

/// The SELECT list from `q2`: `*` (`None`) or at least one variable, and
/// the position after it.
pub open spec fn select_part(s: Seq<u8>, q2: int) -> Result<(Option<Seq<Seq<char>>>, int), Seq<char>> {
    if q2 < s.len() && s[q2] == 42 {
        Ok((None, q2 + 1))
    } else {
        match select_vars(s, q2, seq![]) {
            Err(m) => Err(m),
            Ok((vs, e)) => if vs.len() == 0 {
                Err("SELECT requires `*` or at least one `?var`"@)
            } else {
                Ok((Some(vs), e))
            },
        }
    }
}

/// What follows the paging clauses: the block compiled, then nothing but
/// whitespace and comments.
pub open spec fn query_after_paging(
    s: Seq<u8>,
    cols: Option<Seq<Seq<char>>>,
    ts: Seq<(TermV, TermV, TermV)>,
    pg: Result<(Option<nat>, nat, int), Seq<char>>,
) -> Result<PlanShape, Fault> {
    match pg {
        Err(m) => Err(Fault::Parse(m)),
        Ok((limit, offset, p6)) => match lowered(ts) {
            Err(f) => Err(f),
            Ok((v, st)) => if ws_comment_end(s, p6) < s.len() {
                Err(Fault::Parse("unexpected trailing input"@))
            } else {
                Ok(PlanShape { seed: v, seed_types: st.seed_types, steps: st.steps, columns: cols, limit, skip: offset })
            },
        },
    }
}

/// What follows the SELECT list: WHERE `{` triples `}`, then paging.
pub open spec fn query_after_select(
    s: Seq<u8>,
    ps: Seq<(Seq<char>, Seq<char>)>,
    sel: Result<(Option<Seq<Seq<char>>>, int), Seq<char>>,
) -> Result<PlanShape, Fault> {
    match sel {
        Err(m) => Err(Fault::Parse(m)),
        Ok((cols, p3)) => {
            let q3 = ws_comment_end(s, p3);
            if !keyword_at(s, q3, "WHERE".spec_bytes()) {
                Err(Fault::Parse("expected keyword `WHERE`"@))
            } else {
                let q4 = ws_comment_end(s, q3 + "WHERE".spec_bytes().len());
                if !(q4 < s.len() && s[q4] == 123) {
                    Err(Fault::Parse("expected `{`"@))
                } else {
                    match triples_tok(s, q4 + 1, ps, seq![]) {
                        Err(m) => Err(Fault::Parse(m)),
                        Ok((ts, p5)) => {
                            let q5 = ws_comment_end(s, p5);
                            if !(q5 < s.len() && s[q5] == 125) {
                                Err(Fault::Parse("expected `}`"@))
                            } else {
                                query_after_paging(s, cols, ts, paging(s, q5 + 1, 0, None, 0))
                            }
                        },
                    }
                }
            }
        },
    }
}

/// What a SPARQL-subset query denotes: its compiled plan, or why it is
/// refused. Prefixes are declared first; then SELECT (`*` or variables),
/// WHERE `{` triples `}`, LIMIT / OFFSET; the block is compiled; nothing
/// but whitespace and comments may follow.
pub open spec fn sparql_parsed(s: Seq<u8>) -> Result<PlanShape, Fault> {
    match prefixes_tok(s, 0, seq![]) {
        Err(m) => Err(Fault::Parse(m)),
        Ok((p1, ps)) => {
            let q = ws_comment_end(s, p1);
            if !keyword_at(s, q, "SELECT".spec_bytes()) {
                Err(Fault::Parse("expected keyword `SELECT`"@))
            } else {
                query_after_select(s, ps, select_part(s, ws_comment_end(s, q + "SELECT".spec_bytes().len())))
            }
        },
    }
}

/// `n` is a plain node pattern binding `bind` and requiring `types`.
pub open spec fn node_is(n: NodePattern, bind: Option<Seq<char>>, types: Seq<Seq<char>>) -> bool {
    &&& opt_view(n.bind) == bind
    &&& strings_view(n.types@) == types
    &&& n.properties@.len() == 0
    &&& n.id is None
    &&& n.or@.len() == 0
    &&& n.not@.len() == 0
}

/// `st` is the outbound one-hop step `sh` describes.
pub open spec fn step_is(st: TraversalStep, sh: StepShape) -> bool {
    &&& opt_view(st.edge.label) == Some(sh.label)
    &&& st.edge.bind is None
    &&& st.edge.properties@.len() == 0
    &&& st.edge.repeat is None
    &&& node_is(st.target, sh.bind, sh.types)
    &&& st.outbound
}

/// `plan` is the traversal plan `sh` describes.
pub open spec fn plan_is(plan: TraversalPlan, sh: PlanShape) -> bool {
    &&& node_is(plan.seed, Some(sh.seed), sh.seed_types)
    &&& plan.steps@.len() == sh.steps.len()
    &&& forall|i: int| 0 <= i < sh.steps.len() ==> step_is(#[trigger] plan.steps@[i], sh.steps[i])
    &&& strings_view(plan.return_columns@) == match sh.columns {
        Some(c) => c,
        None => seq![],
    }
    &&& plan.order@.len() == 0
    &&& plan.skip == sh.skip
    &&& match plan.limit {
        Some(n) => sh.limit == Some(n as nat),
        None => sh.limit is None,
    }
}

/// Where a variable was first introduced.
#[derive(Clone, Copy, Debug, PartialEq, Eq, Structural)]
enum Site {
    Seed,
    Step(usize),
}

spec fn site_view(x: Site) -> Option<nat> {
    match x {
        Site::Seed => None,
        Site::Step(i) => Some(i as nat),
    }
}

spec fn sites_view(v: Seq<(String, Site)>) -> Seq<(Seq<char>, Option<nat>)> {
    v.map_values(|e: (String, Site)| (e.0@, site_view(e.1)))
}

/// The parser state: the cursor and the declared prefixes.
struct Parser<'a> {
    cur: Cursor<'a>,
    prefixes: Vec<(String, String)>,
}

impl<'a> Parser<'a> {
    spec fn wf(&self) -> bool {
        self.cur.wf()
    }

    spec fn pview(&self) -> Seq<(Seq<char>, Seq<char>)> {
        self.prefixes@.map_values(|e: (String, String)| (e.0@, e.1@))
    }

    fn skip_ws(&mut self)
        requires
            old(self).wf(),
        ensures
            final(self).wf(),
            final(self).cur.src == old(self).cur.src,
            final(self).prefixes == old(self).prefixes,
            final(self).cur.pos == ws_comment_end(old(self).cur.src@, old(self).cur.pos as int),
    {
        self.cur.skip_ws_and_comments();
    }

    fn expect_keyword(&mut self, kw: &str, msg: &str) -> (r: Result<(), SparqlError>)
        requires
            old(self).wf(),
        ensures
            final(self).wf(),
            final(self).cur.src == old(self).cur.src,
            final(self).prefixes == old(self).prefixes,
            ({
                let q = ws_comment_end(old(self).cur.src@, old(self).cur.pos as int);
                if keyword_at(old(self).cur.src@, q, kw.spec_bytes()) {
                    r is Ok && final(self).cur.pos == q + kw.spec_bytes().len()
                } else {
                    r matches Err(SparqlError::Parse(m)) && m@ == msg@
                }
            }),
    {
        self.skip_ws();
        if self.cur.try_keyword(kw.as_bytes()) {
            Ok(())
        } else {
            Err(parse_error(msg))
        }
    }

    fn expect_char(&mut self, c: u8, msg: &str) -> (r: Result<(), SparqlError>)
        requires
            old(self).wf(),
        ensures
            final(self).wf(),
            final(self).cur.src == old(self).cur.src,
            final(self).prefixes == old(self).prefixes,
            ({
                let s = old(self).cur.src@;
                let q = ws_comment_end(s, old(self).cur.pos as int);
                if q < s.len() && s[q] == c {
                    r is Ok && final(self).cur.pos == q + 1
                } else {
                    r matches Err(SparqlError::Parse(m)) && m@ == msg@
                }
            }),
    {
        self.skip_ws();
        if self.cur.peek() == Some(c) {
            self.cur.pos = self.cur.pos + 1;
            Ok(())
        } else {
            Err(parse_error(msg))
        }
    }

    fn parse_ident(&mut self) -> (r: Result<String, SparqlError>)
        requires
            old(self).wf(),
        ensures
            final(self).wf(),
            final(self).cur.src == old(self).cur.src,
            final(self).prefixes == old(self).prefixes,
            match ident_tok(old(self).cur.src@, old(self).cur.pos as int) {
                Ok((t, e)) => r matches Ok(x) && x@ == t && final(self).cur.pos == e,
                Err(m) => r matches Err(SparqlError::Parse(x)) && x@ == m,
            },
    {
        self.skip_ws();
        proof {
            lemma_ws_settled(self.cur.src@, old(self).cur.pos as int);
        }
        match self.cur.scan_ident() {
            Some(s) => Ok(s),
            None => Err(parse_error("expected identifier")),
        }
    }

    fn parse_uint(&mut self) -> (r: Result<usize, SparqlError>)
        requires
            old(self).wf(),
        ensures
            final(self).wf(),
            final(self).cur.src == old(self).cur.src,
            final(self).prefixes == old(self).prefixes,
            match uint_tok(old(self).cur.src@, old(self).cur.pos as int) {
                Ok((n, e)) => r matches Ok(x) && x == n && final(self).cur.pos == e,
                Err(m) => r matches Err(SparqlError::Parse(x)) && x@ == m,
            },
    {
        self.skip_ws();
        proof {
            lemma_ws_settled(self.cur.src@, old(self).cur.pos as int);
        }
        match self.cur.scan_uint() {
            Some(Some(n)) => Ok(n),
            Some(None) => Err(parse_error("invalid integer: number too large")),
            None => Err(parse_error("expected integer")),
        }
    }

    fn parse_var(&mut self) -> (r: Result<String, SparqlError>)
        requires
            old(self).wf(),
        ensures
            final(self).wf(),
            final(self).cur.src == old(self).cur.src,
            final(self).prefixes == old(self).prefixes,
            match var_tok(old(self).cur.src@, old(self).cur.pos as int) {
                Ok((t, e)) => r matches Ok(x) && x@ == t && final(self).cur.pos == e,
                Err(m) => r matches Err(SparqlError::Parse(x)) && x@ == m,
            },
    {
        self.skip_ws();
        if self.cur.peek() != Some(63u8) {
            return Err(parse_error("expected `?var`"));
        }
        self.cur.pos = self.cur.pos + 1;
        self.parse_ident()
    }

    fn parse_iri_in_angles(&mut self) -> (r: Result<String, SparqlError>)
        requires
            old(self).wf(),
        ensures
            final(self).wf(),
            final(self).cur.src == old(self).cur.src,
            final(self).prefixes == old(self).prefixes,
            match iri_tok(old(self).cur.src@, old(self).cur.pos as int) {
                Ok((t, e)) => r matches Ok(x) && x@ == t && final(self).cur.pos == e,
                Err(m) => r matches Err(SparqlError::Parse(x)) && x@ == m,
            },
    {
        self.skip_ws();
        if self.cur.peek() != Some(60u8) {
            return Err(parse_error("expected `<iri>`"));
        }
        self.cur.pos = self.cur.pos + 1;
        let start = self.cur.pos;
        while self.cur.pos < self.cur.src.len() && self.cur.src[self.cur.pos] != 62
            invariant
                self.wf(),
                self.cur.src == old(self).cur.src,
                self.prefixes == old(self).prefixes,
                start <= self.cur.pos,
                gt_index(self.cur.src@, self.cur.pos as int) == gt_index(self.cur.src@, start as int),
            decreases self.cur.src@.len() - self.cur.pos,
        {
            self.cur.pos = self.cur.pos + 1;
        }
        if self.cur.pos >= self.cur.src.len() {
            return Err(parse_error("unterminated IRI"));
        }
        let text = text_of(slice_of(self.cur.src, start, self.cur.pos));
        self.cur.pos = self.cur.pos + 1;
        Ok(text)
    }

    /// The base IRI declared for `prefix`, if any.
    fn prefix_base(&self, prefix: &String) -> (r: Option<&String>)
        ensures
            match prefix_lookup(self.pview(), prefix@) {
                Some(b) => r matches Some(x) && x@ == b,
                None => r is None,
            },
    {
        let ghost ps = self.pview();
        let mut i: usize = 0;
        while i < self.prefixes.len()
            invariant
                i <= self.prefixes@.len(),
                ps == self.pview(),
                forall|j: int| 0 <= j < i ==> ps[j].0 != prefix@,
            decreases self.prefixes@.len() - i,
        {
            if self.prefixes[i].0 == *prefix {
                proof {
                    lemma_prefix_index_at(ps, prefix@, i as int);
                }
                return Some(&self.prefixes[i].1);
            }
            i = i + 1;
        }
        proof {
            lemma_prefix_index(ps, prefix@);
            if let Some(k) = prefix_index(ps, prefix@) {
                assert(ps[k].0 == prefix@);
            }
        }
        None
    }

    /// Declare `prefix` as `base`, replacing an earlier declaration.
    fn declare_prefix(&mut self, prefix: String, base: String)
        ensures
            final(self).cur == old(self).cur,
            final(self).pview() == prefix_declared(old(self).pview(), prefix@, base@),
    {
        let ghost ps = self.pview();
        let mut i: usize = 0;
        while i < self.prefixes.len()
            invariant
                i <= self.prefixes@.len(),
                self.cur == old(self).cur,
                self.prefixes == old(self).prefixes,
                ps == old(self).pview(),
                forall|j: int| 0 <= j < i ==> ps[j].0 != prefix@,
            decreases self.prefixes@.len() - i,
        {
            if self.prefixes[i].0 == prefix {
                proof {
                    lemma_prefix_index_at(ps, prefix@, i as int);
                }
                let ghost k = prefix@;
                let ghost b = base@;
                self.prefixes.set(i, (prefix, base));
                assert(self.pview() =~= ps.update(i as int, (k, b)));
                return;
            }
            i = i + 1;
        }
        proof {
            lemma_prefix_index(ps, prefix@);
            if let Some(k) = prefix_index(ps, prefix@) {
                assert(ps[k].0 == prefix@);
            }
        }
        let ghost k = prefix@;
        let ghost b = base@;
        self.prefixes.push((prefix, base));
        assert(self.pview() =~= ps.push((k, b)));
    }

    /// A CURIE `prefix:local` or `:local`; `None` (position restored)
    /// when none stands here.
    fn try_parse_curie(&mut self) -> (r: Option<Term>)
        requires
            old(self).wf(),
        ensures
            final(self).wf(),
            final(self).cur.src == old(self).cur.src,
            final(self).prefixes == old(self).prefixes,
            match curie_tok(old(self).cur.src@, old(self).cur.pos as int, old(self).pview()) {
                Some((t, e)) => r matches Some(x) && term_view(x) == t && final(self).cur.pos == e,
                None => r is None && final(self).cur.pos == old(self).cur.pos,
            },
    {
        let save = self.cur.pos;
        self.skip_ws();
        let prefix_start = self.cur.pos;
        if self.cur.pos < self.cur.src.len() && is_ident_start(self.cur.src[self.cur.pos]) {
            while self.cur.pos < self.cur.src.len() && is_ident_continue(self.cur.src[self.cur.pos])
                invariant
                    self.wf(),
                    self.cur.src == old(self).cur.src,
                    self.prefixes == old(self).prefixes,
                    prefix_start <= self.cur.pos,
                    ident_end(self.cur.src@, self.cur.pos as int) == ident_end(self.cur.src@, prefix_start as int),
                    forall|j: int| prefix_start <= j < self.cur.pos ==> self.cur.src@[j] < 128,
                decreases self.cur.src@.len() - self.cur.pos,
            {
                self.cur.pos = self.cur.pos + 1;
            }
        }
        if self.cur.peek() != Some(58u8) {
            self.cur.pos = save;
            return None;
        }
        let pe = self.cur.pos;
        let prefix_bytes = slice_of(self.cur.src, prefix_start, pe);
        assert(all_ascii(prefix_bytes@));
        let prefix = text_of(prefix_bytes);
        self.cur.pos = self.cur.pos + 1;
        let local_start = self.cur.pos;
        if self.cur.pos < self.cur.src.len() {
            let b = self.cur.src[self.cur.pos];
            if is_ident_start(b) || (48 <= b && b <= 57) {
                self.cur.pos = self.cur.pos + 1;
                while self.cur.pos < self.cur.src.len() && (is_ident_continue(self.cur.src[self.cur.pos])
                    || self.cur.src[self.cur.pos] == 46 || self.cur.src[self.cur.pos] == 45)
                    invariant
                        self.wf(),
                        self.cur.src == old(self).cur.src,
                        self.prefixes == old(self).prefixes,
                        local_start < self.cur.pos,
                        local_end(self.cur.src@, self.cur.pos as int) == local_end(self.cur.src@, local_start + 1),
                        forall|j: int| local_start <= j < self.cur.pos ==> self.cur.src@[j] < 128,
                    decreases self.cur.src@.len() - self.cur.pos,
                {
                    self.cur.pos = self.cur.pos + 1;
                }
            }
        }
        if self.cur.pos == local_start {
            self.cur.pos = save;
            return None;
        }
        let local_bytes = slice_of(self.cur.src, local_start, self.cur.pos);
        assert(all_ascii(local_bytes@));
        let local = text_of(local_bytes);
        match self.prefix_base(&prefix) {
            Some(base) => Some(Term::Iri(base.clone().concat(local.as_str()))),
            None => Some(Term::Local(local)),
        }
    }

    fn parse_term(&mut self) -> (r: Result<Term, SparqlError>)
        requires
            old(self).wf(),
        ensures
            final(self).wf(),
            final(self).cur.src == old(self).cur.src,
            final(self).prefixes == old(self).prefixes,
            match term_tok(old(self).cur.src@, old(self).cur.pos as int, old(self).pview()) {
                Ok((t, e)) => r matches Ok(x) && term_view(x) == t && final(self).cur.pos == e,
                Err(m) => r matches Err(SparqlError::Parse(x)) && x@ == m,
            },
    {
        self.skip_ws();
        proof {
            lemma_ws_settled(self.cur.src@, old(self).cur.pos as int);
        }
        match self.cur.peek() {
            Some(63u8) => Ok(Term::Var(self.parse_var()?)),
            Some(60u8) => Ok(Term::Iri(self.parse_iri_in_angles()?)),
            _ => match self.try_parse_curie() {
                Some(t) => Ok(t),
                None => Err(parse_error("expected term")),
            },
        }
    }

    fn parse_verb(&mut self) -> (r: Result<Term, SparqlError>)
        requires
            old(self).wf(),
        ensures
            final(self).wf(),
            final(self).cur.src == old(self).cur.src,
            final(self).prefixes == old(self).prefixes,
            match verb_tok(old(self).cur.src@, old(self).cur.pos as int, old(self).pview()) {
                Ok((t, e)) => r matches Ok(x) && term_view(x) == t && final(self).cur.pos == e,
                Err(m) => r matches Err(SparqlError::Parse(x)) && x@ == m,
            },
    {
        self.skip_ws();
        proof {
            lemma_ws_settled(self.cur.src@, old(self).cur.pos as int);
        }
        if self.cur.try_keyword("a".as_bytes()) {
            return Ok(Term::Local(String::from_str("a")));
        }
        self.parse_term()
    }

    fn parse_prefixes(&mut self) -> (r: Result<(), SparqlError>)
        requires
            old(self).wf(),
        ensures
            final(self).wf(),
            final(self).cur.src == old(self).cur.src,
            match prefixes_tok(old(self).cur.src@, old(self).cur.pos as int, old(self).pview()) {
                Ok((e, ps)) => r is Ok && final(self).cur.pos == e && final(self).pview() == ps,
                Err(m) => r matches Err(SparqlError::Parse(x)) && x@ == m,
            },
    {
        loop
            invariant
                self.wf(),
                self.cur.src == old(self).cur.src,
                prefixes_tok(old(self).cur.src@, old(self).cur.pos as int, old(self).pview()) == prefixes_tok(
                    self.cur.src@,
                    self.cur.pos as int,
                    self.pview(),
                ),
            decreases self.cur.src@.len() - self.cur.pos,
        {
            let ghost p0 = self.cur.pos as int;
            let ghost ps0 = self.pview();
            self.skip_ws();
            proof {
                lemma_ws_settled(self.cur.src@, p0);
            }
            let save = self.cur.pos;
            if !self.cur.try_keyword("PREFIX".as_bytes()) {
                return Ok(());
            }
            let ghost after_kw = self.cur.pos as int;
            self.skip_ws();
            proof {
                lemma_ws_settled(self.cur.src@, after_kw);
            }
            let name_start = self.cur.pos;
            while self.cur.pos < self.cur.src.len() && is_ident_continue(self.cur.src[self.cur.pos])
                invariant
                    self.wf(),
                    self.cur.src == old(self).cur.src,
                    self.pview() == ps0,
                    save <= name_start <= self.cur.pos,
                    ident_end(self.cur.src@, self.cur.pos as int) == ident_end(self.cur.src@, name_start as int),
                    forall|j: int| name_start <= j < self.cur.pos ==> self.cur.src@[j] < 128,
                decreases self.cur.src@.len() - self.cur.pos,
            {
                self.cur.pos = self.cur.pos + 1;
            }
            let name_bytes = slice_of(self.cur.src, name_start, self.cur.pos);
            assert(all_ascii(name_bytes@));
            let prefix = text_of(name_bytes);
            if self.cur.peek() != Some(58u8) {
                self.cur.pos = save;
                return Ok(());
            }
            let ghost n = self.cur.pos as int;
            self.cur.pos = self.cur.pos + 1;
            proof {
                lemma_tokens_advance(self.cur.src@, n + 1, ps0);
            }
            let iri = self.parse_iri_in_angles()?;
            self.declare_prefix(prefix, iri);
            if self.cur.pos <= save {
                return Ok(());
            }
        }
    }

    fn parse_triple_block(&mut self) -> (r: Result<Vec<(Term, Term, Term)>, SparqlError>)
        requires
            old(self).wf(),
        ensures
            final(self).wf(),
            final(self).cur.src == old(self).cur.src,
            final(self).prefixes == old(self).prefixes,
            match triples_tok(old(self).cur.src@, old(self).cur.pos as int, old(self).pview(), seq![]) {
                Ok((ts, e)) => r matches Ok(v) && triples_view(v@) == ts && final(self).cur.pos == e,
                Err(m) => r matches Err(SparqlError::Parse(x)) && x@ == m,
            },
    {
        let mut triples: Vec<(Term, Term, Term)> = Vec::new();
        let ghost ps = self.pview();
        assert(triples_view(triples@) =~= seq![]);
        loop
            invariant
                self.wf(),
                self.cur.src == old(self).cur.src,
                self.prefixes == old(self).prefixes,
                ps == self.pview(),
                triples_tok(old(self).cur.src@, old(self).cur.pos as int, ps, seq![]) == triples_tok(
                    self.cur.src@,
                    self.cur.pos as int,
                    ps,
                    triples_view(triples@),
                ),
            decreases self.cur.src@.len() - self.cur.pos,
        {
            let ghost p0 = self.cur.pos as int;
            self.skip_ws();
            proof {
                lemma_ws_settled(self.cur.src@, p0);
            }
            let start = self.cur.pos;
            if self.cur.peek() == Some(125u8) {
                return Ok(triples);
            }
            let s = self.parse_term()?;
            let e1 = self.cur.pos;
            let p = self.parse_verb()?;
            let e2 = self.cur.pos;
            let o = self.parse_term()?;
            proof {
                lemma_tokens_advance(self.cur.src@, start as int, ps);
                lemma_tokens_advance(self.cur.src@, e1 as int, ps);
                lemma_tokens_advance(self.cur.src@, e2 as int, ps);
            }
            let ghost before = triples_view(triples@);
            let ghost t = (term_view(s), term_view(p), term_view(o));
            triples.push((s, p, o));
            assert(triples_view(triples@) =~= before.push(t));
            let ghost e3 = self.cur.pos as int;
            self.skip_ws();
            proof {
                lemma_ws_settled(self.cur.src@, e3);
            }
            if self.cur.peek() == Some(46u8) {
                self.cur.pos = self.cur.pos + 1;
                if self.cur.pos <= start {
                    return Err(parse_error("expected `.` or `}` after triple"));
                }
            } else if self.cur.peek() == Some(125u8) {
                return Ok(triples);
            } else {
                return Err(parse_error("expected `.` or `}` after triple"));
            }
        }
    }
}

/// The label a term carries: its IRI or local name (a variable has none).
fn term_label(t: &Term) -> (r: Option<&String>)
    ensures
        match label_of(term_view(*t)) {
            Some(l) => r matches Some(x) && x@ == l,
            None => r is None,
        },
{
    match t {
        Term::Iri(s) => Some(s),
        Term::Local(s) => Some(s),
        Term::Var(_) => None,
    }
}

/// Where `var` was first introduced, if anywhere.
fn site_of(sites: &Vec<(String, Site)>, var: &String) -> (r: Option<Site>)
    ensures
        match site(sites_view(sites@), var@) {
            Some(x) => r matches Some(y) && site_view(y) == x,
            None => r is None,
        },
{
    let ghost sv = sites_view(sites@);
    let mut i: usize = 0;
    assert(sv.skip(0) =~= sv);
    while i < sites.len()
        invariant
            i <= sites@.len(),
            sv == sites_view(sites@),
            site(sv, var@) == site(sv.skip(i as int), var@),
        decreases sites@.len() - i,
    {
        assert(sv.skip(i as int)[0] == sv[i as int]);
        if sites[i].0 == *var {
            return Some(sites[i].1);
        }
        assert(sv.skip(i as int).drop_first() =~= sv.skip(i + 1));
        i = i + 1;
    }
    None
}

/// The plan and sites of a compilation in progress are `st`.
spec fn lowering_is(plan: TraversalPlan, sites: Seq<(String, Site)>, seed: Seq<char>, st: Lowering) -> bool {
    &&& node_is(plan.seed, Some(seed), st.seed_types)
    &&& plan.steps@.len() == st.steps.len()
    &&& forall|i: int| 0 <= i < st.steps.len() ==> step_is(#[trigger] plan.steps@[i], st.steps[i])
    &&& sites_view(sites) == st.sites
    &&& plan.return_columns@.len() == 0
    &&& plan.order@.len() == 0
    &&& plan.skip == 0
    &&& plan.limit is None
}

/// Add type `ty` to the node pattern where `var` was introduced (the seed
/// when it is unknown).
fn attach_type(
    plan: &mut TraversalPlan,
    sites: &Vec<(String, Site)>,
    var: &String,
    ty: String,
    Ghost(seed): Ghost<Seq<char>>,
    Ghost(st): Ghost<Lowering>,
)
    requires
        lowering_is(*old(plan), sites@, seed, st),
    ensures
        lowering_is(*final(plan), sites@, seed, attached(st, var@, ty@)),
{
    let ghost tv = ty@;
    match site_of(sites, var) {
        Some(Site::Step(idx)) => {
            if idx < plan.steps.len() {
                let ghost old_steps = plan.steps@;
                let mut step = plan.steps.remove(idx);
                step.target.types.push(ty);
                plan.steps.insert(idx, step);
                let ghost st2 = attached(st, var@, tv);
                assert(plan.steps@ =~= old_steps.update(idx as int, plan.steps@[idx as int]));
                assert(strings_view(plan.steps@[idx as int].target.types@) =~= st.steps[idx as int].types.push(tv));
                assert forall|i: int| 0 <= i < st2.steps.len() implies step_is(#[trigger] plan.steps@[i], st2.steps[i]) by {
                    if i != idx {
                        assert(plan.steps@[i] == old_steps[i]);
                    }
                }
            }
        },
        _ => {
            let ghost before = plan.seed.types@;
            plan.seed.types.push(ty);
            assert(strings_view(plan.seed.types@) =~= strings_view(before).push(tv));
        },
    }
}

/// `true` when `s` holds the text `t`.
fn is_text(s: &String, t: &str) -> (r: bool)
    ensures
        r == (s@ == t@),
{
    *s == String::from_str(t)
}

/// Compile one triple into `plan`: a type constraint for `?s a T`, an
/// outbound hop otherwise.
fn compile_triple(
    plan: &mut TraversalPlan,
    sites: &mut Vec<(String, Site)>,
    s: Term,
    p: Term,
    o: Term,
    Ghost(seed): Ghost<Seq<char>>,
    Ghost(st): Ghost<Lowering>,
) -> (r: Result<(), SparqlError>)
    requires
        lowering_is(*old(plan), old(sites)@, seed, st),
    ensures
        match compiled(st, (term_view(s), term_view(p), term_view(o))) {
            Ok(st2) => r is Ok && lowering_is(*final(plan), final(sites)@, seed, st2),
            Err(m) => r matches Err(SparqlError::Unsupported(x)) && x@ == m,
        },
{
    let ghost (sv, pv, ov) = (term_view(s), term_view(p), term_view(o));
    let s_var = match s {
        Term::Var(v) => v,
        _ => {
            return Err(unsupported("triple subjects must be variables in this subset"));
        },
    };
    if site_of(sites, &s_var).is_none() {
        return Err(unsupported("a triple subject was not introduced by the seed triple"));
    }
    let predicate = match term_label(&p) {
        Some(l) => l,
        None => {
            return Err(unsupported("predicate may not be a variable in this subset"));
        },
    };
    if is_text(predicate, "a") {
        let ty = match term_label(&o) {
            Some(l) => String::from_str(label_localname(l.as_str())),
            None => {
                return Err(unsupported("`rdf:type` object must be an IRI or CURIE"));
            },
        };
        attach_type(plan, sites, &s_var, ty, Ghost(seed), Ghost(st));
        return Ok(());
    }
    let label = String::from_str(label_localname(predicate.as_str()));
    let edge = EdgePattern::any().labeled(label);
    let n = plan.steps.len();
    let ghost sites0 = sites@;
    let target = match o {
        Term::Var(v) => {
            if site_of(sites, &v).is_none() {
                let ghost w = v@;
                sites.push((v.clone(), Site::Step(plan.steps.len())));
                assert(sites_view(sites@) =~= sites_view(sites0).push((w, Some(n as nat))));
            }
            NodePattern::any().bind(v)
        },
        Term::Iri(t) => NodePattern::any().typed(String::from_str(label_localname(t.as_str()))),
        Term::Local(t) => NodePattern::any().typed(String::from_str(label_localname(t.as_str()))),
    };
    let ghost old_steps = plan.steps@;
    let step = TraversalStep { edge, target, outbound: true };
    plan.steps.push(step);
    proof {
        let st2 = match compiled(st, (sv, pv, ov)) {
            Ok(x) => x,
            Err(_) => st,
        };
        assert(strings_view(step.target.types@) =~= st2.steps[n as int].types);
        assert forall|i: int| 0 <= i < st2.steps.len() implies step_is(#[trigger] plan.steps@[i], st2.steps[i]) by {
            if i < n {
                assert(plan.steps@[i] == old_steps[i]);
            }
        }
    }
    Ok(())
}

/// Compile a triple block: the first subject (a variable) seeds the plan,
/// then each triple in turn.
fn lower_triples(triples: Vec<(Term, Term, Term)>, Ghost(tv): Ghost<Seq<(TermV, TermV, TermV)>>) -> (r: Result<
    TraversalPlan,
    SparqlError,
>)
    requires
        tv == triples_view(triples@),
    ensures
        match lowered(tv) {
            Ok((v, st)) => r matches Ok(plan) && plan_is(
                plan,
                PlanShape { seed: v, seed_types: st.seed_types, steps: st.steps, columns: None, limit: None, skip: 0 },
            ),
            Err(Fault::Parse(m)) => r matches Err(SparqlError::Parse(x)) && x@ == m,
            Err(Fault::Unsupported(m)) => r matches Err(SparqlError::Unsupported(x)) && x@ == m,
        },
{
    if triples.len() == 0 {
        return Err(parse_error("WHERE block must contain at least one triple"));
    }
    let seed_var = match &triples[0].0 {
        Term::Var(v) => v.clone(),
        _ => {
            return Err(unsupported("the first triple's subject must be a variable in this subset"));
        },
    };
    let ghost seed = seed_var@;
    let mut plan = TraversalPlan::from_seed(NodePattern::any().bind(seed_var.clone()));
    let mut sites: Vec<(String, Site)> = Vec::new();
    sites.push((seed_var, Site::Seed));
    let ghost st0 = Lowering { seed_types: seq![], steps: seq![], sites: seq![(seed, None)] };
    let ghost mut st = st0;
    assert(sites_view(sites@) =~= seq![(seed, None::<nat>)]);
    assert(strings_view(plan.seed.types@) =~= Seq::<Seq<char>>::empty());
    assert(tv[0].0 == TermV::Var(seed));
    let mut rest = triples;
    assert(triples_view(rest@) =~= tv);
    while rest.len() > 0
        invariant
            tv.len() > 0,
            tv[0].0 == TermV::Var(seed),
            st0 == (Lowering { seed_types: seq![], steps: seq![], sites: seq![(seed, None)] }),
            lowering_is(plan, sites@, seed, st),
            compiled_all(st0, tv) == compiled_all(st, triples_view(rest@)),
        decreases rest@.len(),
    {
        let ghost rv = triples_view(rest@);
        let (s, p, o) = rest.remove(0);
        assert(triples_view(rest@) =~= rv.drop_first());
        let ghost t = (term_view(s), term_view(p), term_view(o));
        assert(rv[0] == t);
        assert(compiled_all(st, rv) == match compiled(st, t) {
            Err(m) => Err(m),
            Ok(st2) => compiled_all(st2, rv.drop_first()),
        });
        compile_triple(&mut plan, &mut sites, s, p, o, Ghost(seed), Ghost(st))?;
        proof {
            st = match compiled(st, t) {
                Ok(x) => x,
                Err(_) => st,
            };
        }
    }
    assert(triples_view(rest@) =~= Seq::<(TermV, TermV, TermV)>::empty());
    assert(compiled_all(st0, tv) == Ok::<Lowering, Seq<char>>(st));
    assert(lowered(tv) == Ok::<(Seq<char>, Lowering), Fault>((seed, st)));
    assert(strings_view(plan.return_columns@) =~= Seq::<Seq<char>>::empty());
    Ok(plan)
}

/// Parse a SPARQL-subset query into a traversal plan: the WHERE block
/// compiled from its first subject, the selected variables as returned
/// columns (all for `*`), and LIMIT / OFFSET as paging. Fails with
/// `Parse` on malformed input, including anything after the query, and
/// with `Unsupported` on constructs outside the subset.
pub fn parse(query: &str) -> (r: Result<TraversalPlan, SparqlError>)
    ensures
        match sparql_parsed(query.spec_bytes()) {
            Ok(sh) => r matches Ok(plan) && plan_is(plan, sh),
            Err(Fault::Parse(m)) => r matches Err(SparqlError::Parse(x)) && x@ == m,
            Err(Fault::Unsupported(m)) => r matches Err(SparqlError::Unsupported(x)) && x@ == m,
        },
{
    let mut p = Parser { cur: Cursor::new(query.as_bytes()), prefixes: Vec::new() };
    let ghost s = p.cur.src@;
    assert(p.pview() =~= seq![]);
    p.parse_prefixes()?;
    let ghost ps = p.pview();
    p.expect_keyword("SELECT", "expected keyword `SELECT`")?;
    p.skip_ws();
    let ghost q2 = p.cur.pos as int;
    let mut columns: Vec<String> = Vec::new();
    let mut select_star = false;
    if p.cur.peek() == Some(42u8) {
        p.cur.pos = p.cur.pos + 1;
        select_star = true;
    } else {
        assert(strings_view(columns@) =~= seq![]);
        loop
            invariant_except_break
                p.wf(),
                p.cur.src@ == s,
                p.pview() == ps,
                s == query.spec_bytes(),
                sparql_parsed(s) == query_after_select(s, ps, select_part(s, q2)),
                !(q2 < s.len() && s[q2] == 42),
                select_vars(s, q2, seq![]) == select_vars(s, p.cur.pos as int, strings_view(columns@)),
            ensures
                p.wf(),
                p.cur.src@ == s,
                p.pview() == ps,
                s == query.spec_bytes(),
                sparql_parsed(s) == query_after_select(s, ps, select_part(s, q2)),
                !(q2 < s.len() && s[q2] == 42),
                select_vars(s, q2, seq![]) == Ok::<(Seq<Seq<char>>, int), Seq<char>>((strings_view(columns@), p.cur.pos as int)),
            decreases p.cur.src@.len() - p.cur.pos,
        {
            let ghost p0 = p.cur.pos as int;
            p.skip_ws();
            proof {
                lemma_ws_settled(s, p0);
            }
            let start = p.cur.pos;
            if p.cur.peek() == Some(63u8) {
                let ghost before = strings_view(columns@);
                assert(select_vars(s, p0, before) == match var_tok(s, start as int) {
                    Err(m) => Err(m),
                    Ok((v, e)) => select_vars(s, e, before.push(v)),
                });
                let v = p.parse_var()?;
                proof {
                    lemma_tokens_advance(s, start as int, seq![]);
                }
                let ghost vv = v@;
                columns.push(v);
                assert(strings_view(columns@) =~= before.push(vv));
                if p.cur.pos <= start {
                    break;
                }
            } else {
                break;
            }
        }
        if columns.len() == 0 {
            return Err(parse_error("SELECT requires `*` or at least one `?var`"));
        }
    }
    p.expect_keyword("WHERE", "expected keyword `WHERE`")?;
    p.expect_char(123u8, "expected `{`")?;
    let triples = p.parse_triple_block()?;
    p.expect_char(125u8, "expected `}`")?;
    let ghost q6 = p.cur.pos as int;
    let ghost cols: Option<Seq<Seq<char>>> = if select_star {
        None
    } else {
        Some(strings_view(columns@))
    };
    let ghost tsv = triples_view(triples@);
    assert(sparql_parsed(s) == query_after_paging(s, cols, tsv, paging(s, q6, 0, None, 0)));
    let mut limit: Option<usize> = None;
    let mut offset: usize = 0;
    let mut round: usize = 0;
    while round < 2
        invariant_except_break
            p.wf(),
            p.cur.src@ == s,
            round <= 2,
            s == query.spec_bytes(),
            sparql_parsed(s) == query_after_paging(s, cols, tsv, paging(s, q6, 0, None, 0)),
            paging(s, q6, 0, None, 0) == paging(
                s,
                p.cur.pos as int,
                round as nat,
                match limit {
                    Some(n) => Some(n as nat),
                    None => None,
                },
                offset as nat,
            ),
        ensures
            p.wf(),
            p.cur.src@ == s,
            s == query.spec_bytes(),
            sparql_parsed(s) == query_after_paging(s, cols, tsv, paging(s, q6, 0, None, 0)),
            paging(s, q6, 0, None, 0) == Ok::<(Option<nat>, nat, int), Seq<char>>(
                (
                    match limit {
                        Some(n) => Some(n as nat),
                        None => None,
                    },
                    offset as nat,
                    p.cur.pos as int,
                ),
            ),
        decreases 2 - round,
    {
        let ghost p0 = p.cur.pos as int;
        let ghost lim = match limit {
            Some(n) => Some(n as nat),
            None => None,
        };
        p.skip_ws();
        let ghost q = p.cur.pos as int;
        assert(paging(s, p0, round as nat, lim, offset as nat) == if keyword_at(s, q, "LIMIT".spec_bytes()) {
            match uint_tok(s, q + "LIMIT".spec_bytes().len()) {
                Err(m) => Err(m),
                Ok((n, e)) => paging(s, e, (round + 1) as nat, Some(n), offset as nat),
            }
        } else if keyword_at(s, q, "OFFSET".spec_bytes()) {
            match uint_tok(s, q + "OFFSET".spec_bytes().len()) {
                Err(m) => Err(m),
                Ok((n, e)) => paging(s, e, (round + 1) as nat, lim, n),
            }
        } else {
            Ok((lim, offset as nat, q))
        });
        if p.cur.try_keyword("LIMIT".as_bytes()) {
            limit = Some(p.parse_uint()?);
        } else if p.cur.try_keyword("OFFSET".as_bytes()) {
            offset = p.parse_uint()?;
        } else {
            break;
        }
        round = round + 1;
    }
    let mut plan = lower_triples(triples, Ghost(tsv))?;
    if !select_star {
        plan.return_columns = columns;
    }
    plan.skip = offset;
    plan.limit = limit;
    p.skip_ws();
    if !p.cur.eof() {
        return Err(parse_error("unexpected trailing input"));
    }
    Ok(plan)
}

} // verus!
