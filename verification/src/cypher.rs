//! A recursive-descent parser for a small openCypher subset, compiled to
//! a [`TraversalPlan`].
//!
//! ```text
//! query        := match where? return limit?
//! match        := 'MATCH' path
//! path         := node ( edge node )*
//! node         := '(' ident? (':' label)* prop_map? ')'
//! edge         := '<'? '-' edge_body? '-' '>'?
//! edge_body    := '[' ident? (':' label)? var_len? prop_map? ']'
//! var_len      := '*' int? ('..' int?)?
//! prop_map     := '{' (kv (',' kv)*)? '}'
//! kv           := ident ':' value
//! value        := string | integer | 'true' | 'false'
//! where        := 'WHERE' 'NOT' (node | ident (':' label)*)
//! return       := 'RETURN' ident (',' ident)*
//! limit        := 'LIMIT' int
//! ```
//!
//! Keywords are case-insensitive; identifiers and labels are not.
use vstd::prelude::*;
use vstd::string::StringSliceAdditionalSpecFns;

use crate::lexer::{
    all_ascii, ascii_chars, decimal, digits_end, ident_end, ident_start, is_alpha, is_digit, is_ident_start,
    keyword_at, lemma_digits_end_bounds, lemma_ws_end, ws_end, Cursor,
};
use crate::model::{Property, PropertyValue, ValueView};
use crate::schema::{opt_view, strings_view};
use crate::sparql::Fault;
use crate::store::{EdgePattern, NodePattern, TraversalPlan, TraversalStep};
use crate::text::string_of_chars;

verus! {

/// Errors produced by [`parse`].
#[derive(Clone, Debug)]
pub enum CypherError {
    /// The input could not be tokenised or parsed.
    Parse(String),
    /// The construct is recognised but not supported by this subset.
    Unsupported(String),
}

impl CypherError {
    /// The message this error renders as.
    pub fn message(&self) -> (r: String)
        ensures
            r@ == match self {
                CypherError::Parse(d) => "cypher parse error: "@ + d@,
                CypherError::Unsupported(d) => "cypher unsupported feature: "@ + d@,
            },
    {
        match self {
            CypherError::Parse(d) => String::from_str("cypher parse error: ").concat(d.as_str()),
            CypherError::Unsupported(d) => String::from_str("cypher unsupported feature: ").concat(d.as_str()),
        }
    }
}

fn parse_error(msg: &str) -> (r: CypherError)
    ensures
        r matches CypherError::Parse(m) && m@ == msg@,
{
    CypherError::Parse(String::from_str(msg))
}

/// Set property `key` to `value` in `props`, replacing an earlier entry.
fn set_prop(props: &mut Vec<Property>, key: String, value: PropertyValue)
    ensures
        props_view(final(props)@) == prop_set(props_view(old(props)@), key@, value@),
{
    let ghost ps = props_view(props@);
    let mut i: usize = 0;
    while i < props.len()
        invariant
            i <= props@.len(),
            *props == *old(props),
            ps == props_view(props@),
            forall|j: int| 0 <= j < i ==> ps[j].0 != key@,
        decreases props@.len() - i,
    {
        if props[i].key == key {
            proof {
                lemma_key_position(ps, key@);
                assert(ps[i as int].0 == key@);
                match key_position(ps, key@) {
                    Some(k) => {
                        if k < i {
                            assert(ps[k].0 != key@);
                        }
                        assert(k == i);
                    },
                    None => {
                        assert(ps[i as int].0 != key@);
                    },
                }
                assert(key_position(ps, key@) == Some(i as int));
            }
            let ghost kv = (key@, value@);
            props.set(i, Property { key, value });
            assert(props_view(props@) =~= ps.update(i as int, kv));
            return;
        }
        i = i + 1;
    }
    proof {
        lemma_key_position(ps, key@);
        if let Some(k) = key_position(ps, key@) {
            assert(ps[k].0 == key@);
        }
    }
    let ghost kv = (key@, value@);
    props.push(Property { key, value });
    assert(props_view(props@) =~= ps.push(kv));
}

proof fn lemma_key_position<V>(ps: Seq<(Seq<char>, V)>, k: Seq<char>)
    ensures
        key_position(ps, k) matches Some(i) ==> 0 <= i < ps.len() && ps[i].0 == k && forall|j: int|
            0 <= j < i ==> ps[j].0 != k,
        key_position(ps, k) is None ==> forall|j: int| 0 <= j < ps.len() ==> ps[j].0 != k,
    decreases ps.len(),
{
    if ps.len() > 0 {
        lemma_key_position(ps.drop_first(), k);
        assert forall|j: int| 1 <= j < ps.len() implies ps[j] == ps.drop_first()[j - 1] by {}
    }
}


// ---------------------------------------------------------------------
// Grammar
// ---------------------------------------------------------------------

/// `c` prepended to the text read by `r`.
pub open spec fn cons_text(c: char, r: Result<(Seq<char>, int), Seq<char>>) -> Result<(Seq<char>, int), Seq<char>> {
    match r {
        Ok((t, e)) => Ok((seq![c] + t, e)),
        Err(m) => Err(m),
    }
}

/// An identifier after whitespace, and the position after it.
pub open spec fn c_ident(s: Seq<u8>, p: int) -> Result<(Seq<char>, int), Seq<char>> {
    let q = ws_end(s, p);
    if q < s.len() && ident_start(s[q]) {
        Ok((ascii_chars(s.subrange(q, ident_end(s, q + 1))), ident_end(s, q + 1)))
    } else {
        Err("expected identifier"@)
    }
}

/// An unsigned integer after whitespace.
pub open spec fn c_uint(s: Seq<u8>, p: int) -> Result<(nat, int), Seq<char>> {
    let q = ws_end(s, p);
    let e = digits_end(s, q);
    if e == q {
        Err("expected integer"@)
    } else if decimal(s, q, e) > usize::MAX {
        Err("invalid integer: number too large"@)
    } else {
        Ok((decimal(s, q, e), e))
    }
}

/// An optionally negative integer within `i64`, after whitespace.
pub open spec fn c_int(s: Seq<u8>, p: int) -> Result<(i64, int), Seq<char>> {
    let q = ws_end(s, p);
    let neg = q < s.len() && s[q] == 45;
    let d = if neg {
        q + 1
    } else {
        q
    };
    let e = digits_end(s, d);
    let mag = decimal(s, d, e);
    if e == d {
        Err("expected integer"@)
    } else if neg {
        if mag <= 9223372036854775808 {
            Ok(((0 - mag) as i64, e))
        } else {
            Err("invalid integer: number out of range"@)
        }
    } else if mag <= 9223372036854775807 {
        Ok((mag as i64, e))
    } else {
        Err("invalid integer: number out of range"@)
    }
}

/// The character an escape `\b` stands for.
pub open spec fn unescaped(b: u8) -> char {
    if b == 110 {
        '\n'
    } else if b == 116 {
        '\t'
    } else if b == 114 {
        '\r'
    } else {
        b as char
    }
}

/// The body of a string literal from `i` (just after the opening quote):
/// its text, each byte standing for the character of that code, and the
/// position after the closing quote.
pub open spec fn str_body(s: Seq<u8>, i: int) -> Result<(Seq<char>, int), Seq<char>>
    decreases s.len() - i,
{
    if !(0 <= i < s.len()) {
        Err("unterminated string literal"@)
    } else if s[i] == 34 {
        Ok((seq![], i + 1))
    } else if s[i] == 92 {
        if i + 1 >= s.len() {
            Err("unterminated escape in string literal"@)
        } else {
            cons_text(unescaped(s[i + 1]), str_body(s, i + 2))
        }
    } else {
        cons_text(s[i] as char, str_body(s, i + 1))
    }
}

/// A double-quoted string after whitespace.
pub open spec fn c_string(s: Seq<u8>, p: int) -> Result<(Seq<char>, int), Seq<char>> {
    let q = ws_end(s, p);
    if !(q < s.len() && s[q] == 34) {
        Err("expected string literal"@)
    } else {
        str_body(s, q + 1)
    }
}

/// A property value: a string, an integer, `true` or `false`.
pub open spec fn c_value(s: Seq<u8>, p: int) -> Result<(ValueView, int), Seq<char>> {
    let q = ws_end(s, p);
    if q >= s.len() {
        Err("expected value"@)
    } else if s[q] == 34 {
        match c_string(s, q) {
            Ok((t, e)) => Ok((ValueView::String(t), e)),
            Err(m) => Err(m),
        }
    } else if is_digit(s[q]) || s[q] == 45 {
        match c_int(s, q) {
            Ok((n, e)) => Ok((ValueView::Integer(n), e)),
            Err(m) => Err(m),
        }
    } else if is_alpha(s[q]) {
        if keyword_at(s, q, "true".spec_bytes()) {
            Ok((ValueView::Bool(true), q + "true".spec_bytes().len()))
        } else if keyword_at(s, q, "false".spec_bytes()) {
            Ok((ValueView::Bool(false), q + "false".spec_bytes().len()))
        } else {
            Err("expected value (string, integer, bool)"@)
        }
    } else {
        Err("expected value"@)
    }
}

/// Byte `c` after whitespace, and the position after it; else `msg`.
pub open spec fn c_char(s: Seq<u8>, p: int, c: u8, msg: Seq<char>) -> Result<int, Seq<char>> {
    let q = ws_end(s, p);
    if q < s.len() && s[q] == c {
        Ok(q + 1)
    } else {
        Err(msg)
    }
}

/// The position of the first entry of `ps` with key `k`.
pub open spec fn key_position<V>(ps: Seq<(Seq<char>, V)>, k: Seq<char>) -> Option<int>
    decreases ps.len(),
{
    if ps.len() == 0 {
        None
    } else if ps[0].0 == k {
        Some(0)
    } else {
        match key_position(ps.drop_first(), k) {
            Some(i) => Some(i + 1),
            None => None,
        }
    }
}

/// `ps` with key `k` set to `v`, replacing the first entry of that key.
pub open spec fn prop_set(ps: Seq<(Seq<char>, ValueView)>, k: Seq<char>, v: ValueView) -> Seq<(Seq<char>, ValueView)> {
    match key_position(ps, k) {
        Some(i) => ps.update(i, (k, v)),
        None => ps.push((k, v)),
    }
}



/// The entries of a property map from `p`, into `ps`, through its `}`.
pub open spec fn c_entries(s: Seq<u8>, p: int, ps: Seq<(Seq<char>, ValueView)>) -> Result<
    (Seq<(Seq<char>, ValueView)>, int),
    Seq<char>,
>
    decreases s.len() - p,
{
    match c_ident(s, p) {
        Err(m) => Err(m),
        Ok((k, e1)) => match c_char(s, e1, 58, "expected `:`"@) {
            Err(m) => Err(m),
            Ok(e2) => match c_value(s, e2) {
                Err(m) => Err(m),
                Ok((v, e3)) => {
                    let ps2 = prop_set(ps, k, v);
                    let q = ws_end(s, e3);
                    if q < s.len() && s[q] == 44 && p < q + 1 {
                        c_entries(s, q + 1, ps2)
                    } else if q < s.len() && s[q] == 125 {
                        Ok((ps2, q + 1))
                    } else {
                        Err("expected `,` or `}` in property map"@)
                    }
                },
            },
        },
    }
}

/// A property map `{ key: value, ... }` after whitespace, into `ps`.
pub open spec fn c_prop_map(s: Seq<u8>, p: int, ps: Seq<(Seq<char>, ValueView)>) -> Result<
    (Seq<(Seq<char>, ValueView)>, int),
    Seq<char>,
> {
    match c_char(s, p, 123, "expected `{`"@) {
        Err(m) => Err(m),
        Ok(e) => {
            let q = ws_end(s, e);
            if q < s.len() && s[q] == 125 {
                Ok((ps, q + 1))
            } else {
                c_entries(s, q, ps)
            }
        },
    }
}

/// Labels `:L` from `p`, after `acc`.
pub open spec fn c_labels(s: Seq<u8>, p: int, acc: Seq<Seq<char>>) -> Result<(Seq<Seq<char>>, int), Seq<char>>
    decreases s.len() - p,
{
    let q = ws_end(s, p);
    if q < s.len() && s[q] == 58 {
        match c_ident(s, q + 1) {
            Err(m) => Err(m),
            Ok((l, e)) => if p < e <= s.len() {
                c_labels(s, e, acc.push(l))
            } else {
                Ok((acc.push(l), e))
            },
        }
    } else {
        Ok((acc, q))
    }
}

/// A node pattern as written: its variable, labels and properties.
pub struct NodeShape {
    pub bind: Option<Seq<char>>,
    pub types: Seq<Seq<char>>,
    pub props: Seq<(Seq<char>, ValueView)>,
}

/// An identifier where one starts (after whitespace), else nothing.
pub open spec fn c_opt_ident(s: Seq<u8>, p: int) -> Result<(Option<Seq<char>>, int), Seq<char>> {
    let q = ws_end(s, p);
    if q < s.len() && ident_start(s[q]) {
        match c_ident(s, q) {
            Ok((n, e)) => Ok((Some(n), e)),
            Err(m) => Err(m),
        }
    } else {
        Ok((None, q))
    }
}

/// A node pattern `( var? (:Label)* {props}? )` after whitespace.
pub open spec fn c_node(s: Seq<u8>, p: int) -> Result<(NodeShape, int), Seq<char>> {
    match c_char(s, p, 40, "expected `(`"@) {
        Err(m) => Err(m),
        Ok(e0) => match c_opt_ident(s, e0) {
            Err(m) => Err(m),
            Ok((bind, e1)) => match c_labels(s, e1, seq![]) {
                Err(m) => Err(m),
                Ok((types, e2)) => {
                    let q2 = ws_end(s, e2);
                    let pm = if q2 < s.len() && s[q2] == 123 {
                        c_prop_map(s, q2, seq![])
                    } else {
                        Ok((seq![], q2))
                    };
                    match pm {
                        Err(m) => Err(m),
                        Ok((props, e3)) => match c_char(s, e3, 41, "expected `)`"@) {
                            Err(m) => Err(m),
                            Ok(e4) => Ok((NodeShape { bind, types, props }, e4)),
                        },
                    }
                },
            },
        },
    }
}

/// After `*`: `min? ('..' max?)?`, one hop by default, unbounded above
/// after `..` with no maximum; the range must run upwards.
pub open spec fn c_var_len(s: Seq<u8>, p: int) -> Result<((nat, nat), int), Seq<char>> {
    let q = ws_end(s, p);
    let lo: Result<(nat, nat, int), Seq<char>> = if q < s.len() && is_digit(s[q]) {
        match c_uint(s, q) {
            Ok((n, e)) => Ok((n, n, e)),
            Err(m) => Err(m),
        }
    } else {
        Ok((1, usize::MAX as nat, q))
    };
    match lo {
        Err(m) => Err(m),
        Ok((min, max0, e1)) => {
            let q2 = ws_end(s, e1);
            let hi: Result<(nat, int), Seq<char>> = if q2 + 1 < s.len() && s[q2] == 46 && s[q2 + 1] == 46 {
                let q3 = ws_end(s, q2 + 2);
                if q3 < s.len() && is_digit(s[q3]) {
                    c_uint(s, q3)
                } else {
                    Ok((usize::MAX as nat, q3))
                }
            } else {
                Ok((max0, q2))
            };
            match hi {
                Err(m) => Err(m),
                Ok((max, e2)) => if max < min {
                    Err("variable-length range max < min"@)
                } else {
                    Ok(((min, max), e2))
                },
            }
        },
    }
}

/// `s` holds `..` at `q`.
pub open spec fn dots_at(s: Seq<u8>, q: int) -> bool {
    0 <= q && q + 1 < s.len() && s[q] == 46 && s[q + 1] == 46
}

/// A hop count written alone fixes the range: after `*`, digits denoting
/// `n` (within `usize`) and no `..` after them give exactly `n` hops, both
/// bounds `n`; reading stops after the digits.
pub proof fn law_fixed_hop_count(s: Seq<u8>, p: int)
    requires
        0 <= p <= s.len(),
        ws_end(s, p) < digits_end(s, ws_end(s, p)),
        decimal(s, ws_end(s, p), digits_end(s, ws_end(s, p))) <= usize::MAX,
        !dots_at(s, ws_end(s, digits_end(s, ws_end(s, p)))),
    ensures
        ({
            let q = ws_end(s, p);
            let e = digits_end(s, q);
            let n = decimal(s, q, e);
            c_var_len(s, p) == Ok::<((nat, nat), int), Seq<char>>(((n, n), ws_end(s, e)))
        }),
{
    let q = ws_end(s, p);
    lemma_ws_end(s, p);
    assert(q < s.len() && is_digit(s[q]));
    lemma_digits_end_bounds(s, q);
    let e = digits_end(s, q);
    lemma_ws_end(s, e);
    assert(c_uint(s, q) == Ok::<(nat, int), Seq<char>>((decimal(s, q, e), e)));
}

/// The upper bound is open only when written so: after `*`, with no digits
/// and no `..`, the range is one hop or more; digits denoting `n` followed
/// by `..` and no maximum give `n` hops or more.
pub proof fn law_open_hop_counts(s: Seq<u8>, p: int)
    requires
        0 <= p <= s.len(),
    ensures
        ({
            let q = ws_end(s, p);
            !(q < s.len() && is_digit(s[q])) && !dots_at(s, q) ==> c_var_len(s, p)
                == Ok::<((nat, nat), int), Seq<char>>(((1, usize::MAX as nat), q))
        }),
        ({
            let q = ws_end(s, p);
            let e = digits_end(s, q);
            let q2 = ws_end(s, e);
            let q3 = ws_end(s, q2 + 2);
            q < e && decimal(s, q, e) <= usize::MAX && dots_at(s, q2) && !(q3 < s.len() && is_digit(s[q3]))
                ==> c_var_len(s, p) == Ok::<((nat, nat), int), Seq<char>>(((decimal(s, q, e), usize::MAX as nat), q3))
        }),
{
    let q = ws_end(s, p);
    lemma_ws_end(s, p);
    if !(q < s.len() && is_digit(s[q])) && !dots_at(s, q) {
        assert(ws_end(s, q) == q);
    }
    let e = digits_end(s, q);
    lemma_digits_end_bounds(s, q);
    if q < e {
        assert(q < s.len() && is_digit(s[q]));
        lemma_ws_end(s, e);
        let q2 = ws_end(s, e);
        if dots_at(s, q2) {
            lemma_ws_end(s, q2 + 2);
        }
        if decimal(s, q, e) <= usize::MAX {
            assert(c_uint(s, q) == Ok::<(nat, int), Seq<char>>((decimal(s, q, e), e)));
        }
    }
}

/// An edge pattern as written.
pub struct EdgeShape {
    pub bind: Option<Seq<char>>,
    pub label: Option<Seq<char>>,
    pub props: Seq<(Seq<char>, ValueView)>,
    pub repeat: Option<(nat, nat)>,
}

/// The inside of `[...]` from just after the bracket, through `]`.
pub open spec fn c_edge_body(s: Seq<u8>, p: int) -> Result<(EdgeShape, int), Seq<char>> {
    match c_opt_ident(s, p) {
        Err(m) => Err(m),
        Ok((bind, e1)) => {
            let q2 = ws_end(s, e1);
            let lb: Result<(Option<Seq<char>>, int), Seq<char>> = if q2 < s.len() && s[q2] == 58 {
                match c_ident(s, q2 + 1) {
                    Ok((l, e)) => Ok((Some(l), e)),
                    Err(m) => Err(m),
                }
            } else {
                Ok((None, q2))
            };
            match lb {
                Err(m) => Err(m),
                Ok((label, e2)) => {
                    let q3 = ws_end(s, e2);
                    let rp: Result<(Option<(nat, nat)>, int), Seq<char>> = if q3 < s.len() && s[q3] == 42 {
                        match c_var_len(s, q3 + 1) {
                            Ok((r, e)) => Ok((Some(r), e)),
                            Err(m) => Err(m),
                        }
                    } else {
                        Ok((None, q3))
                    };
                    match rp {
                        Err(m) => Err(m),
                        Ok((repeat, e3)) => {
                            let q4 = ws_end(s, e3);
                            let pm = if q4 < s.len() && s[q4] == 123 {
                                c_prop_map(s, q4, seq![])
                            } else {
                                Ok((seq![], q4))
                            };
                            match pm {
                                Err(m) => Err(m),
                                Ok((props, e4)) => match c_char(s, e4, 93, "expected `]`"@) {
                                    Err(m) => Err(m),
                                    Ok(e5) => Ok((EdgeShape { bind, label, props, repeat }, e5)),
                                },
                            }
                        },
                    }
                },
            }
        },
    }
}

/// One hop as written: its edge, its target node and the exclusions
/// attached to that node, and its direction.
pub struct HopShape {
    pub edge: EdgeShape,
    pub target: NodeShape,
    pub target_nots: Seq<NodeShape>,
    pub outbound: bool,
}

/// An edge segment `<-[..]-`, `-[..]->` or `-[..]-` and the node after it.
pub open spec fn c_hop(s: Seq<u8>, p: int) -> Result<(HopShape, int), Fault> {
    let q = ws_end(s, p);
    let inbound = q < s.len() && s[q] == 60;
    let p1 = if inbound {
        q + 1
    } else {
        q
    };
    match c_char(s, p1, 45, "expected `-`"@) {
        Err(m) => Err(Fault::Parse(m)),
        Ok(e1) => {
            let q2 = ws_end(s, e1);
            let eb = if q2 < s.len() && s[q2] == 91 {
                c_edge_body(s, q2 + 1)
            } else {
                Ok((EdgeShape { bind: None, label: None, props: seq![], repeat: None }, q2))
            };
            match eb {
                Err(m) => Err(Fault::Parse(m)),
                Ok((edge, e2)) => match c_char(s, e2, 45, "expected `-`"@) {
                    Err(m) => Err(Fault::Parse(m)),
                    Ok(e3) => {
                        let arrow = e3 < s.len() && s[e3] == 62;
                        let e4 = if arrow {
                            e3 + 1
                        } else {
                            e3
                        };
                        if inbound && arrow {
                            Err(Fault::Unsupported("bidirectional edge `<-[..]->` not supported"@))
                        } else {
                            match c_node(s, e4) {
                                Err(m) => Err(Fault::Parse(m)),
                                Ok((target, e5)) => Ok(
                                    (HopShape { edge, target, target_nots: seq![], outbound: !inbound }, e5),
                                ),
                            }
                        }
                    },
                },
            }
        },
    }
}


/// A hop's direction is the one written: it is outbound exactly when it
/// does not start with `<` (so `-[..]->` and `-[..]-` go out, `<-[..]-`
/// comes in).
pub proof fn law_hop_direction(s: Seq<u8>, p: int)
    ensures
        ({
            let q = ws_end(s, p);
            let starts_back = q < s.len() && s[q] == 60;
            c_hop(s, p) matches Ok((h, _)) ==> (h.outbound <==> !starts_back)
        }),
{
}

/// Hops from `p`, after `acc`.
pub open spec fn c_hops(s: Seq<u8>, p: int, acc: Seq<HopShape>) -> Result<(Seq<HopShape>, int), Fault>
    decreases s.len() - p,
{
    let q = ws_end(s, p);
    if q < s.len() && (s[q] == 45 || s[q] == 60) {
        match c_hop(s, q) {
            Err(f) => Err(f),
            Ok((h, e)) => if p < e <= s.len() {
                c_hops(s, e, acc.push(h))
            } else {
                Ok((acc.push(h), e))
            },
        }
    } else {
        Ok((acc, q))
    }
}

/// The form `var (:Label)*` a `WHERE NOT` may take.
pub open spec fn c_inline(s: Seq<u8>, p: int) -> Result<(NodeShape, int), Seq<char>> {
    match c_ident(s, p) {
        Err(m) => Err(m),
        Ok((b, e)) => match c_labels(s, e, seq![]) {
            Err(m) => Err(m),
            Ok((types, e2)) => Ok((NodeShape { bind: Some(b), types, props: seq![] }, e2)),
        },
    }
}

/// Further returned columns `, var` from `p`, after `acc`.
pub open spec fn c_columns(s: Seq<u8>, p: int, acc: Seq<Seq<char>>) -> Result<(Seq<Seq<char>>, int), Seq<char>>
    decreases s.len() - p,
{
    let q = ws_end(s, p);
    if q < s.len() && s[q] == 44 {
        match c_ident(s, q + 1) {
            Err(m) => Err(m),
            Ok((c, e)) => if p < e <= s.len() {
                c_columns(s, e, acc.push(c))
            } else {
                Ok((acc.push(c), e))
            },
        }
    } else {
        Ok((acc, q))
    }
}

/// A compiled Cypher query: the seed and its exclusions, the hops, the
/// returned columns and the limit.
pub struct CypherShape {
    pub seed: NodeShape,
    pub seed_nots: Seq<NodeShape>,
    pub hops: Seq<HopShape>,
    pub columns: Seq<Seq<char>>,
    pub limit: Option<nat>,
}

/// The first hop whose target binds `n`.
pub open spec fn hop_index(hops: Seq<HopShape>, n: Seq<char>) -> Option<int>
    decreases hops.len(),
{
    if hops.len() == 0 {
        None
    } else if hops[0].target.bind == Some(n) {
        Some(0)
    } else {
        match hop_index(hops.drop_first(), n) {
            Some(i) => Some(i + 1),
            None => None,
        }
    }
}

/// `sh` with exclusion `neg` (its variable dropped) attached to the node
/// its variable names: the seed, else the first hop target binding it,
/// else (or when it names none) the seed.
pub open spec fn negated(sh: CypherShape, neg: NodeShape) -> CypherShape {
    let plain = NodeShape { bind: None, ..neg };
    let to_seed = CypherShape { seed_nots: sh.seed_nots.push(plain), ..sh };
    match neg.bind {
        None => to_seed,
        Some(n) => if sh.seed.bind == Some(n) {
            to_seed
        } else {
            match hop_index(sh.hops, n) {
                Some(i) => CypherShape {
                    hops: sh.hops.update(i, HopShape { target_nots: sh.hops[i].target_nots.push(plain), ..sh.hops[i] }),
                    ..sh
                },
                None => to_seed,
            }
        },
    }
}

/// What follows the path: `WHERE NOT`, RETURN, LIMIT, then nothing but
/// whitespace.
pub open spec fn cypher_after_path(s: Seq<u8>, base: CypherShape, e2: int) -> Result<CypherShape, Fault> {
    let q = ws_end(s, e2);
    let w: Result<(CypherShape, int), Fault> = if keyword_at(s, q, "WHERE".spec_bytes()) {
        let q2 = ws_end(s, q + "WHERE".spec_bytes().len());
        if !keyword_at(s, q2, "NOT".spec_bytes()) {
            Err(Fault::Unsupported("only `WHERE NOT (...)` is supported in this subset"@))
        } else {
            let q3 = ws_end(s, q2 + "NOT".spec_bytes().len());
            let ng = if q3 < s.len() && s[q3] == 40 {
                c_node(s, q3)
            } else {
                c_inline(s, q3)
            };
            match ng {
                Err(m) => Err(Fault::Parse(m)),
                Ok((neg, e)) => Ok((negated(base, neg), e)),
            }
        }
    } else {
        Ok((base, q))
    };
    match w {
        Err(f) => Err(f),
        Ok((sh, e3)) => {
            let q4 = ws_end(s, e3);
            if !keyword_at(s, q4, "RETURN".spec_bytes()) {
                Err(Fault::Parse("expected keyword `RETURN`"@))
            } else {
                match c_ident(s, q4 + "RETURN".spec_bytes().len()) {
                    Err(m) => Err(Fault::Parse(m)),
                    Ok((c0, e4)) => match c_columns(s, e4, seq![c0]) {
                        Err(m) => Err(Fault::Parse(m)),
                        Ok((cols, e5)) => {
                            let q5 = ws_end(s, e5);
                            let lim: Result<(Option<nat>, int), Seq<char>> = if keyword_at(s, q5, "LIMIT".spec_bytes()) {
                                match c_uint(s, q5 + "LIMIT".spec_bytes().len()) {
                                    Ok((n, e)) => Ok((Some(n), e)),
                                    Err(m) => Err(m),
                                }
                            } else {
                                Ok((None, q5))
                            };
                            match lim {
                                Err(m) => Err(Fault::Parse(m)),
                                Ok((limit, e6)) => if ws_end(s, e6) < s.len() {
                                    Err(Fault::Parse("unexpected trailing input"@))
                                } else {
                                    Ok(CypherShape { columns: cols, limit, ..sh })
                                },
                            }
                        },
                    },
                }
            }
        },
    }
}

/// What a Cypher-subset query denotes: MATCH and a path (the first node
/// the seed, each edge segment a hop), then what [`cypher_after_path`]
/// reads; or why it is refused.
pub open spec fn cypher_parsed(s: Seq<u8>) -> Result<CypherShape, Fault> {
    let q = ws_end(s, 0);
    if !keyword_at(s, q, "MATCH".spec_bytes()) {
        Err(Fault::Parse("expected keyword `MATCH`"@))
    } else {
        match c_node(s, q + "MATCH".spec_bytes().len()) {
            Err(m) => Err(Fault::Parse(m)),
            Ok((seed, e1)) => match c_hops(s, e1, seq![]) {
                Err(f) => Err(f),
                Ok((hops, e2)) => cypher_after_path(
                    s,
                    CypherShape { seed, seed_nots: seq![], hops, columns: seq![], limit: None },
                    e2,
                ),
            },
        }
    }
}

/// The view of a property list: keys and values in order.
pub open spec fn props_view(ps: Seq<Property>) -> Seq<(Seq<char>, ValueView)> {
    ps.map_values(|p: Property| (p.key@, p.value@))
}

/// `n` is the node pattern `sh` describes, with no exclusions.
pub open spec fn node_shaped(n: NodePattern, sh: NodeShape) -> bool {
    &&& opt_view(n.bind) == sh.bind
    &&& strings_view(n.types@) == sh.types
    &&& props_view(n.properties@) == sh.props
    &&& n.id is None
    &&& n.or@.len() == 0
    &&& n.not@.len() == 0
}

/// `n` is the node pattern `sh` describes, with exclusions `nots`.
pub open spec fn node_shaped_with(n: NodePattern, sh: NodeShape, nots: Seq<NodeShape>) -> bool {
    &&& opt_view(n.bind) == sh.bind
    &&& strings_view(n.types@) == sh.types
    &&& props_view(n.properties@) == sh.props
    &&& n.id is None
    &&& n.or@.len() == 0
    &&& n.not@.len() == nots.len()
    &&& forall|i: int| 0 <= i < nots.len() ==> node_shaped(#[trigger] n.not@[i], nots[i])
}

/// `e` is the edge pattern `sh` describes.
pub open spec fn edge_shaped(e: EdgePattern, sh: EdgeShape) -> bool {
    &&& opt_view(e.bind) == sh.bind
    &&& opt_view(e.label) == sh.label
    &&& props_view(e.properties@) == sh.props
    &&& match e.repeat {
        Some(r) => sh.repeat == Some((r.0 as nat, r.1 as nat)),
        None => sh.repeat is None,
    }
}

/// `st` is the hop `h` describes.
pub open spec fn hop_shaped(st: TraversalStep, h: HopShape) -> bool {
    &&& edge_shaped(st.edge, h.edge)
    &&& node_shaped_with(st.target, h.target, h.target_nots)
    &&& st.outbound == h.outbound
}

/// The seed and steps of `plan` are those `sh` describes.
pub open spec fn path_shaped(plan: TraversalPlan, sh: CypherShape) -> bool {
    &&& node_shaped_with(plan.seed, sh.seed, sh.seed_nots)
    &&& plan.steps@.len() == sh.hops.len()
    &&& forall|i: int| 0 <= i < sh.hops.len() ==> hop_shaped(#[trigger] plan.steps@[i], sh.hops[i])
}

/// `plan` is the plan `sh` describes.
pub open spec fn cypher_plan_is(plan: TraversalPlan, sh: CypherShape) -> bool {
    &&& path_shaped(plan, sh)
    &&& strings_view(plan.return_columns@) == sh.columns
    &&& plan.order@.len() == 0
    &&& plan.skip == 0
    &&& match plan.limit {
        Some(n) => sh.limit == Some(n as nat),
        None => sh.limit is None,
    }
}

/// The parser: a cursor over the query's bytes.
struct Parser<'a> {
    cur: Cursor<'a>,
}

impl<'a> Parser<'a> {
    spec fn wf(&self) -> bool {
        self.cur.wf()
    }

    fn skip_ws(&mut self)
        requires
            old(self).wf(),
        ensures
            final(self).wf(),
            final(self).cur.src == old(self).cur.src,
            final(self).cur.pos >= old(self).cur.pos,
            final(self).cur.pos == ws_end(old(self).cur.src@, old(self).cur.pos as int),
    {
        self.cur.skip_ws();
    }

    fn expect_keyword(&mut self, kw: &str, msg: &str) -> (r: Result<(), CypherError>)
        requires
            old(self).wf(),
        ensures
            final(self).wf(),
            final(self).cur.src == old(self).cur.src,
            final(self).cur.pos >= old(self).cur.pos,
            ({
                let q = ws_end(old(self).cur.src@, old(self).cur.pos as int);
                if keyword_at(old(self).cur.src@, q, kw.spec_bytes()) {
                    r is Ok && final(self).cur.pos == q + kw.spec_bytes().len()
                } else {
                    r matches Err(CypherError::Parse(m)) && m@ == msg@
                }
            }),
    {
        self.skip_ws();
        if self.cur.try_keyword(kw.as_bytes()) {
            Ok(())
        } else {
            Err(parse_error(msg))
        }
    }

    fn expect_char(&mut self, c: u8, msg: &str) -> (r: Result<(), CypherError>)
        requires
            old(self).wf(),
        ensures
            final(self).wf(),
            final(self).cur.src == old(self).cur.src,
            final(self).cur.pos >= old(self).cur.pos,
            r is Ok ==> final(self).cur.pos > old(self).cur.pos,
            match c_char(old(self).cur.src@, old(self).cur.pos as int, c, msg@) {
                Ok(e) => r is Ok && final(self).cur.pos == e,
                Err(m) => r matches Err(CypherError::Parse(x)) && x@ == m,
            },
    {
        self.skip_ws();
        if self.cur.peek() == Some(c) {
            self.cur.pos = self.cur.pos + 1;
            Ok(())
        } else {
            Err(parse_error(msg))
        }
    }

    fn parse_ident(&mut self) -> (r: Result<String, CypherError>)
        requires
            old(self).wf(),
        ensures
            final(self).wf(),
            final(self).cur.src == old(self).cur.src,
            final(self).cur.pos >= old(self).cur.pos,
            r is Ok ==> final(self).cur.pos > old(self).cur.pos,
            match c_ident(old(self).cur.src@, old(self).cur.pos as int) {
                Ok((t, e)) => r matches Ok(x) && x@ == t && final(self).cur.pos == e,
                Err(m) => r matches Err(CypherError::Parse(x)) && x@ == m,
            },
    {
        match self.cur.scan_ident() {
            Some(s) => Ok(s),
            None => Err(parse_error("expected identifier")),
        }
    }

    fn parse_uint(&mut self) -> (r: Result<usize, CypherError>)
        requires
            old(self).wf(),
        ensures
            final(self).wf(),
            final(self).cur.src == old(self).cur.src,
            final(self).cur.pos >= old(self).cur.pos,
            match c_uint(old(self).cur.src@, old(self).cur.pos as int) {
                Ok((n, e)) => r matches Ok(x) && x == n && final(self).cur.pos == e,
                Err(m) => r matches Err(CypherError::Parse(x)) && x@ == m,
            },
    {
        match self.cur.scan_uint() {
            Some(Some(n)) => Ok(n),
            Some(None) => Err(parse_error("invalid integer: number too large")),
            None => Err(parse_error("expected integer")),
        }
    }

    /// An optionally negative integer literal within `i64`.
    fn parse_int(&mut self) -> (r: Result<i64, CypherError>)
        requires
            old(self).wf(),
        ensures
            final(self).wf(),
            final(self).cur.src == old(self).cur.src,
            final(self).cur.pos >= old(self).cur.pos,
            r is Ok ==> final(self).cur.pos > old(self).cur.pos,
            match c_int(old(self).cur.src@, old(self).cur.pos as int) {
                Ok((n, e)) => r matches Ok(x) && x == n && final(self).cur.pos == e,
                Err(m) => r matches Err(CypherError::Parse(x)) && x@ == m,
            },
    {
        let ghost s = self.cur.src@;
        self.skip_ws();
        let negative = self.cur.peek() == Some(45u8);
        if negative {
            self.cur.pos = self.cur.pos + 1;
        }
        let d0 = self.cur.pos;
        let mut mag: u64 = 0;
        let mut overflow = false;
        while self.cur.pos < self.cur.src.len() && 48 <= self.cur.src[self.cur.pos] && self.cur.src[self.cur.pos] <= 57
            invariant
                self.wf(),
                self.cur.src == old(self).cur.src,
                s == self.cur.src@,
                d0 <= self.cur.pos,
                digits_end(s, d0 as int) == digits_end(s, self.cur.pos as int),
                !overflow ==> mag == decimal(s, d0 as int, self.cur.pos as int),
                overflow ==> decimal(s, d0 as int, self.cur.pos as int) > u64::MAX,
            decreases self.cur.src@.len() - self.cur.pos,
        {
            let d = (self.cur.src[self.cur.pos] - 48) as u64;
            let ghost before = decimal(s, d0 as int, self.cur.pos as int);
            if !overflow {
                if mag > (u64::MAX - d) / 10 {
                    overflow = true;
                    assert(mag * 10 + d > u64::MAX) by (nonlinear_arith)
                        requires
                            mag > (u64::MAX - d) / 10,
                            d <= 9,
                    ;
                } else {
                    assert(mag * 10 + d <= u64::MAX) by (nonlinear_arith)
                        requires
                            mag <= (u64::MAX - d) / 10,
                            d <= 9,
                    ;
                    mag = mag * 10 + d;
                }
            } else {
                assert(before * 10 + d > u64::MAX) by (nonlinear_arith)
                    requires
                        before > u64::MAX,
                ;
            }
            self.cur.pos = self.cur.pos + 1;
        }
        if self.cur.pos == d0 {
            return Err(parse_error("expected integer"));
        }
        if overflow {
            return Err(parse_error("invalid integer: number out of range"));
        }
        if negative {
            if mag == 9223372036854775808u64 {
                Ok(i64::MIN)
            } else if mag < 9223372036854775808u64 {
                Ok(-(mag as i64))
            } else {
                Err(parse_error("invalid integer: number out of range"))
            }
        } else if mag <= 9223372036854775807u64 {
            Ok(mag as i64)
        } else {
            Err(parse_error("invalid integer: number out of range"))
        }
    }

    /// A double-quoted string with `\"`, `\\`, `\n`, `\t`, `\r` escapes
    /// (any other escaped byte stands for itself).
    fn parse_string_literal(&mut self) -> (r: Result<String, CypherError>)
        requires
            old(self).wf(),
        ensures
            final(self).wf(),
            final(self).cur.src == old(self).cur.src,
            final(self).cur.pos >= old(self).cur.pos,
            r is Ok ==> final(self).cur.pos > old(self).cur.pos,
            match c_string(old(self).cur.src@, old(self).cur.pos as int) {
                Ok((t, e)) => r matches Ok(x) && x@ == t && final(self).cur.pos == e,
                Err(m) => r matches Err(CypherError::Parse(x)) && x@ == m,
            },
    {
        let ghost s = self.cur.src@;
        self.skip_ws();
        if self.cur.peek() != Some(34u8) {
            return Err(parse_error("expected string literal"));
        }
        self.cur.pos = self.cur.pos + 1;
        let ghost start = self.cur.pos as int;
        let mut out: Vec<char> = Vec::new();
        assert(with_text(out@, str_body(s, start)) == str_body(s, start)) by {
            match str_body(s, start) {
                Ok((t, e)) => {
                    assert(Seq::<char>::empty() + t =~= t);
                },
                Err(_) => {},
            }
        }
        loop
            invariant
                self.wf(),
                self.cur.src == old(self).cur.src,
                s == self.cur.src@,
                self.cur.pos >= start,
                start > old(self).cur.pos,
                c_string(s, old(self).cur.pos as int) == str_body(s, start),
                str_body(s, start) == with_text(out@, str_body(s, self.cur.pos as int)),
            decreases self.cur.src@.len() - self.cur.pos,
        {
            let ghost i = self.cur.pos as int;
            if self.cur.pos >= self.cur.src.len() {
                return Err(parse_error("unterminated string literal"));
            }
            let b = self.cur.src[self.cur.pos];
            self.cur.pos = self.cur.pos + 1;
            if b == 34 {
                assert(out@ + Seq::<char>::empty() =~= out@);
                return Ok(string_of_chars(&out));
            } else if b == 92 {
                if self.cur.pos >= self.cur.src.len() {
                    return Err(parse_error("unterminated escape in string literal"));
                }
                let e = self.cur.src[self.cur.pos];
                self.cur.pos = self.cur.pos + 1;
                let c = if e == 110 {
                    '\n'
                } else if e == 116 {
                    '\t'
                } else if e == 114 {
                    '\r'
                } else {
                    byte_char(e)
                };
                assert(c == unescaped(e));
                let ghost before = out@;
                out.push(c);
                assert(with_text(before, cons_text(c, str_body(s, i + 2))) == with_text(out@, str_body(s, i + 2))) by {
                    match str_body(s, i + 2) {
                        Ok((t, e2)) => {
                            assert(before + (seq![c] + t) =~= before.push(c) + t);
                        },
                        Err(_) => {},
                    }
                }
            } else {
                let c = byte_char(b);
                let ghost before = out@;
                out.push(c);
                assert(with_text(before, cons_text(c, str_body(s, i + 1))) == with_text(out@, str_body(s, i + 1))) by {
                    match str_body(s, i + 1) {
                        Ok((t, e2)) => {
                            assert(before + (seq![c] + t) =~= before.push(c) + t);
                        },
                        Err(_) => {},
                    }
                }
            }
        }
    }

    fn parse_value(&mut self) -> (r: Result<PropertyValue, CypherError>)
        requires
            old(self).wf(),
        ensures
            final(self).wf(),
            final(self).cur.src == old(self).cur.src,
            final(self).cur.pos >= old(self).cur.pos,
            r is Ok ==> final(self).cur.pos > old(self).cur.pos,
            match c_value(old(self).cur.src@, old(self).cur.pos as int) {
                Ok((v, e)) => r matches Ok(x) && x@ == v && final(self).cur.pos == e,
                Err(m) => r matches Err(CypherError::Parse(x)) && x@ == m,
            },
    {
        self.skip_ws();
        match self.cur.peek() {
            Some(34u8) => Ok(PropertyValue::String(self.parse_string_literal()?)),
            Some(b) => {
                if (48 <= b && b <= 57) || b == 45 {
                    Ok(PropertyValue::Integer(self.parse_int()?))
                } else if (65 <= b && b <= 90) || (97 <= b && b <= 122) {
                    if self.cur.try_keyword("true".as_bytes()) {
                        proof {
                            reveal_strlit("true");
                        }
                        Ok(PropertyValue::Bool(true))
                    } else if self.cur.try_keyword("false".as_bytes()) {
                        proof {
                            reveal_strlit("false");
                        }
                        Ok(PropertyValue::Bool(false))
                    } else {
                        Err(parse_error("expected value (string, integer, bool)"))
                    }
                } else {
                    Err(parse_error("expected value"))
                }
            },
            None => Err(parse_error("expected value")),
        }
    }

    fn parse_prop_map(&mut self, into: &mut Vec<Property>) -> (r: Result<(), CypherError>)
        requires
            old(self).wf(),
        ensures
            final(self).wf(),
            final(self).cur.src == old(self).cur.src,
            final(self).cur.pos >= old(self).cur.pos,
            match c_prop_map(old(self).cur.src@, old(self).cur.pos as int, props_view(old(into)@)) {
                Ok((ps, e)) => r is Ok && final(self).cur.pos == e && props_view(final(into)@) == ps,
                Err(m) => r matches Err(CypherError::Parse(x)) && x@ == m,
            },
    {
        let ghost s = self.cur.src@;
        self.expect_char(123u8, "expected `{`")?;
        self.skip_ws();
        if self.cur.peek() == Some(125u8) {
            self.cur.pos = self.cur.pos + 1;
            return Ok(());
        }
        let ghost q = self.cur.pos as int;
        let ghost ps0 = props_view(into@);
        assert(c_prop_map(s, old(self).cur.pos as int, props_view(old(into)@)) == c_entries(s, q, ps0));
        loop
            invariant
                self.wf(),
                self.cur.src == old(self).cur.src,
                s == self.cur.src@,
                self.cur.pos >= old(self).cur.pos,
                c_prop_map(s, old(self).cur.pos as int, props_view(old(into)@)) == c_entries(s, q, ps0),
                c_entries(s, q, ps0) == c_entries(s, self.cur.pos as int, props_view(into@)),
            decreases self.cur.src@.len() - self.cur.pos,
        {
            let start = self.cur.pos;
            let ghost ps = props_view(into@);
            let key = self.parse_ident()?;
            self.expect_char(58u8, "expected `:`")?;
            let value = self.parse_value()?;
            set_prop(into, key, value);
            self.skip_ws();
            if self.cur.peek() == Some(44u8) {
                self.cur.pos = self.cur.pos + 1;
            } else if self.cur.peek() == Some(125u8) {
                self.cur.pos = self.cur.pos + 1;
                return Ok(());
            } else {
                return Err(parse_error("expected `,` or `}` in property map"));
            }
            assert(self.cur.pos > start);
        }
    }

    fn parse_node_pattern(&mut self) -> (r: Result<NodePattern, CypherError>)
        requires
            old(self).wf(),
        ensures
            final(self).wf(),
            final(self).cur.src == old(self).cur.src,
            final(self).cur.pos >= old(self).cur.pos,
            r is Ok ==> final(self).cur.pos > old(self).cur.pos,
            match c_node(old(self).cur.src@, old(self).cur.pos as int) {
                Ok((sh, e)) => r matches Ok(n) && node_shaped(n, sh) && final(self).cur.pos == e,
                Err(m) => r matches Err(CypherError::Parse(x)) && x@ == m,
            },
    {
        let ghost s = self.cur.src@;
        self.expect_char(40u8, "expected `(`")?;
        let ghost e0 = self.cur.pos as int;
        let mut node = NodePattern::any();
        self.skip_ws();
        if let Some(b) = self.cur.peek() {
            if is_ident_start(b) {
                proof {
                    lemma_ws_end(s, e0);
                }
                let name = self.parse_ident()?;
                node.bind = Some(name);
            }
        }
        let ghost e1 = self.cur.pos as int;
        let ghost bv = opt_view(node.bind);
        assert(c_opt_ident(s, e0) == Ok::<(Option<Seq<char>>, int), Seq<char>>((bv, e1)));
        assert(strings_view(node.types@) =~= seq![]);
        loop
            invariant_except_break
                self.wf(),
                self.cur.src == old(self).cur.src,
                s == self.cur.src@,
                self.cur.pos > old(self).cur.pos,
                c_char(s, old(self).cur.pos as int, 40, "expected `(`"@) == Ok::<int, Seq<char>>(e0),
                c_opt_ident(s, e0) == Ok::<(Option<Seq<char>>, int), Seq<char>>((bv, e1)),
                opt_view(node.bind) == bv,
                node.or@.len() == 0,
                node.not@.len() == 0,
                node.id is None,
                node.properties@.len() == 0,
                c_labels(s, e1, seq![]) == c_labels(s, self.cur.pos as int, strings_view(node.types@)),
            ensures
                self.wf(),
                self.cur.src == old(self).cur.src,
                s == self.cur.src@,
                self.cur.pos > old(self).cur.pos,
                c_char(s, old(self).cur.pos as int, 40, "expected `(`"@) == Ok::<int, Seq<char>>(e0),
                c_opt_ident(s, e0) == Ok::<(Option<Seq<char>>, int), Seq<char>>((bv, e1)),
                opt_view(node.bind) == bv,
                node.or@.len() == 0,
                node.not@.len() == 0,
                node.id is None,
                node.properties@.len() == 0,
                c_labels(s, e1, seq![]) == Ok::<(Seq<Seq<char>>, int), Seq<char>>((strings_view(node.types@), self.cur.pos as int)),
            decreases self.cur.src@.len() - self.cur.pos,
        {
            self.skip_ws();
            if self.cur.peek() == Some(58u8) {
                self.cur.pos = self.cur.pos + 1;
                let ghost before = strings_view(node.types@);
                let label = self.parse_ident()?;
                let ghost lv = label@;
                node.types.push(label);
                assert(strings_view(node.types@) =~= before.push(lv));
            } else {
                break;
            }
        }
        let ghost e2 = self.cur.pos as int;
        let ghost types = strings_view(node.types@);
        self.skip_ws();
        let ghost q2 = self.cur.pos as int;
        assert(props_view(node.properties@) =~= seq![]);
        if self.cur.peek() == Some(123u8) {
            self.parse_prop_map(&mut node.properties)?;
        }
        let ghost e3 = self.cur.pos as int;
        let ghost props = props_view(node.properties@);
        let ghost pm: Result<(Seq<(Seq<char>, ValueView)>, int), Seq<char>> = if q2 < s.len() && s[q2] == 123 {
            c_prop_map(s, q2, seq![])
        } else {
            Ok((seq![], q2))
        };
        assert(pm == Ok::<(Seq<(Seq<char>, ValueView)>, int), Seq<char>>((props, e3)));
        self.expect_char(41u8, "expected `)`")?;
        assert(node_shaped(node, NodeShape { bind: bv, types, props }));
        Ok(node)
    }

    /// One edge segment and the node after it.
    fn parse_edge_and_node(&mut self) -> (r: Result<TraversalStep, CypherError>)
        requires
            old(self).wf(),
        ensures
            final(self).wf(),
            final(self).cur.src == old(self).cur.src,
            final(self).cur.pos >= old(self).cur.pos,
            r is Ok ==> final(self).cur.pos > old(self).cur.pos,
            match c_hop(old(self).cur.src@, old(self).cur.pos as int) {
                Ok((h, e)) => r matches Ok(st) && hop_shaped(st, h) && final(self).cur.pos == e,
                Err(Fault::Parse(m)) => r matches Err(CypherError::Parse(x)) && x@ == m,
                Err(Fault::Unsupported(m)) => r matches Err(CypherError::Unsupported(x)) && x@ == m,
            },
    {
        self.skip_ws();
        let inbound = self.cur.peek() == Some(60u8);
        if inbound {
            self.cur.pos = self.cur.pos + 1;
        }
        self.expect_char(45u8, "expected `-`")?;
        let mut edge = EdgePattern::any();
        self.skip_ws();
        assert(props_view(edge.properties@) =~= seq![]);
        if self.cur.peek() == Some(91u8) {
            self.cur.pos = self.cur.pos + 1;
            edge = self.parse_edge_body()?;
        }
        self.expect_char(45u8, "expected `-`")?;
        let outbound_arrow = self.cur.peek() == Some(62u8);
        if outbound_arrow {
            self.cur.pos = self.cur.pos + 1;
        }
        if inbound && outbound_arrow {
            return Err(CypherError::Unsupported(String::from_str("bidirectional edge `<-[..]->` not supported")));
        }
        let target = self.parse_node_pattern()?;
        Ok(TraversalStep { edge, target, outbound: !inbound })
    }

    /// The inside of `[...]` after the bracket, and the closing bracket.
    fn parse_edge_body(&mut self) -> (r: Result<EdgePattern, CypherError>)
        requires
            old(self).wf(),
        ensures
            final(self).wf(),
            final(self).cur.src == old(self).cur.src,
            final(self).cur.pos >= old(self).cur.pos,
            match c_edge_body(old(self).cur.src@, old(self).cur.pos as int) {
                Ok((sh, e)) => r matches Ok(ep) && edge_shaped(ep, sh) && final(self).cur.pos == e,
                Err(m) => r matches Err(CypherError::Parse(x)) && x@ == m,
            },
    {
        let mut edge = EdgePattern::any();
        self.skip_ws();
        if let Some(b) = self.cur.peek() {
            if is_ident_start(b) {
                let name = self.parse_ident()?;
                edge.bind = Some(name);
            }
        }
        self.skip_ws();
        if self.cur.peek() == Some(58u8) {
            self.cur.pos = self.cur.pos + 1;
            let label = self.parse_ident()?;
            edge.label = Some(label);
        }
        self.skip_ws();
        if self.cur.peek() == Some(42u8) {
            self.cur.pos = self.cur.pos + 1;
            let (min, max) = self.parse_var_len()?;
            edge.repeat = Some((min, max));
        }
        self.skip_ws();
        assert(props_view(edge.properties@) =~= seq![]);
        if self.cur.peek() == Some(123u8) {
            self.parse_prop_map(&mut edge.properties)?;
        }
        self.expect_char(93u8, "expected `]`")?;
        Ok(edge)
    }

    /// After `*`: `min? ('..' max?)?`; one hop up by default, unbounded
    /// above after `..` with no maximum.
    fn parse_var_len(&mut self) -> (r: Result<(usize, usize), CypherError>)
        requires
            old(self).wf(),
        ensures
            final(self).wf(),
            final(self).cur.src == old(self).cur.src,
            final(self).cur.pos >= old(self).cur.pos,
            match c_var_len(old(self).cur.src@, old(self).cur.pos as int) {
                Ok((rg, e)) => r matches Ok((a, b)) && a == rg.0 && b == rg.1 && final(self).cur.pos == e,
                Err(m) => r matches Err(CypherError::Parse(x)) && x@ == m,
            },
    {
        self.skip_ws();
        let mut min: usize = 1;
        let mut max: usize = usize::MAX;
        if let Some(b) = self.cur.peek() {
            if 48 <= b && b <= 57 {
                min = self.parse_uint()?;
                max = min;
            }
        }
        self.skip_ws();
        if self.cur.peek() == Some(46u8) && self.cur.peek_at(1) == Some(46u8) {
            self.cur.pos = self.cur.pos + 2;
            self.skip_ws();
            max = usize::MAX;
            if let Some(b) = self.cur.peek() {
                if 48 <= b && b <= 57 {
                    max = self.parse_uint()?;
                }
            }
        }
        if max < min {
            return Err(parse_error("variable-length range max < min"));
        }
        Ok((min, max))
    }

    /// `ident (':' label)*`, the form `WHERE NOT n:Label` takes.
    fn parse_inline_node_constraint(&mut self) -> (r: Result<NodePattern, CypherError>)
        requires
            old(self).wf(),
        ensures
            final(self).wf(),
            final(self).cur.src == old(self).cur.src,
            final(self).cur.pos >= old(self).cur.pos,
            match c_inline(old(self).cur.src@, old(self).cur.pos as int) {
                Ok((sh, e)) => r matches Ok(n) && node_shaped(n, sh) && final(self).cur.pos == e,
                Err(m) => r matches Err(CypherError::Parse(x)) && x@ == m,
            },
    {
        let ghost s = self.cur.src@;
        let bind = self.parse_ident()?;
        let ghost bv = bind@;
        let mut node = NodePattern::any().bind(bind);
        let ghost e1 = self.cur.pos as int;
        assert(c_ident(s, old(self).cur.pos as int) == Ok::<(Seq<char>, int), Seq<char>>((bv, e1)));
        assert(strings_view(node.types@) =~= seq![]);
        assert(props_view(node.properties@) =~= seq![]);
        loop
            invariant_except_break
                self.wf(),
                self.cur.src == old(self).cur.src,
                s == self.cur.src@,
                self.cur.pos >= e1,
                e1 >= old(self).cur.pos,
                c_ident(s, old(self).cur.pos as int) == Ok::<(Seq<char>, int), Seq<char>>((bv, e1)),
                node.or@.len() == 0,
                node.not@.len() == 0,
                node.id is None,
                node.properties@.len() == 0,
                opt_view(node.bind) == (match c_ident(s, old(self).cur.pos as int) {
                    Ok((b, _)) => Some(b),
                    Err(_) => None,
                }),
                c_labels(s, e1, seq![]) == c_labels(s, self.cur.pos as int, strings_view(node.types@)),
            ensures
                self.wf(),
                self.cur.src == old(self).cur.src,
                s == self.cur.src@,
                self.cur.pos >= e1,
                c_ident(s, old(self).cur.pos as int) == Ok::<(Seq<char>, int), Seq<char>>((bv, e1)),
                node.or@.len() == 0,
                node.not@.len() == 0,
                node.id is None,
                node.properties@.len() == 0,
                opt_view(node.bind) == (match c_ident(s, old(self).cur.pos as int) {
                    Ok((b, _)) => Some(b),
                    Err(_) => None,
                }),
                c_labels(s, e1, seq![]) == Ok::<(Seq<Seq<char>>, int), Seq<char>>((strings_view(node.types@), self.cur.pos as int)),
            decreases self.cur.src@.len() - self.cur.pos,
        {
            self.skip_ws();
            if self.cur.peek() == Some(58u8) {
                self.cur.pos = self.cur.pos + 1;
                let ghost before = strings_view(node.types@);
                let label = self.parse_ident()?;
                let ghost lv = label@;
                node.types.push(label);
                assert(strings_view(node.types@) =~= before.push(lv));
            } else {
                break;
            }
        }
        assert(props_view(node.properties@) =~= seq![]);
        Ok(node)
    }
}

/// `pre` prepended to the text read by `r`.
pub open spec fn with_text(pre: Seq<char>, r: Result<(Seq<char>, int), Seq<char>>) -> Result<(Seq<char>, int), Seq<char>> {
    match r {
        Ok((t, e)) => Ok((pre + t, e)),
        Err(m) => Err(m),
    }
}

/// The character of code point `b`.
fn byte_char(b: u8) -> (r: char)
    ensures
        r == b as char,
{
    b as char
}

/// `neg` without its binding, added to `node`'s exclusions.
fn attach_not_to(
    node: &mut NodePattern,
    neg: NodePattern,
    Ghost(sh): Ghost<NodeShape>,
    Ghost(nots): Ghost<Seq<NodeShape>>,
    Ghost(nsh): Ghost<NodeShape>,
)
    requires
        node_shaped_with(*old(node), sh, nots),
        node_shaped(neg, nsh),
    ensures
        node_shaped_with(*final(node), sh, nots.push(NodeShape { bind: None, ..nsh })),
{
    let mut neg = neg;
    neg.bind = None;
    let ghost before = node.not@;
    node.not.push(neg);
    let ghost n2 = nots.push(NodeShape { bind: None, ..nsh });
    assert forall|i: int| 0 <= i < n2.len() implies node_shaped(#[trigger] node.not@[i], n2[i]) by {
        if i < nots.len() {
            assert(node.not@[i] == before[i]);
        }
    }
}

/// `true` when `a` is `Some` of the text of `b`.
fn same_binding(a: &Option<String>, b: &String) -> (r: bool)
    ensures
        r == (opt_view(*a) == Some(b@)),
{
    match a {
        Some(s) => *s == *b,
        None => false,
    }
}

proof fn lemma_hop_index(hops: Seq<HopShape>, n: Seq<char>)
    ensures
        hop_index(hops, n) matches Some(i) ==> 0 <= i < hops.len() && hops[i].target.bind == Some(n) && forall|j: int|
            0 <= j < i ==> hops[j].target.bind != Some(n),
        hop_index(hops, n) is None ==> forall|j: int| 0 <= j < hops.len() ==> hops[j].target.bind != Some(n),
    decreases hops.len(),
{
    if hops.len() > 0 {
        lemma_hop_index(hops.drop_first(), n);
        assert forall|j: int| 1 <= j < hops.len() implies hops[j] == hops.drop_first()[j - 1] by {}
    }
}

/// Attach a negative pattern to the node bound to its variable (the seed
/// or a step's target); when it names none, to the seed.
fn apply_negation(plan: &mut TraversalPlan, neg: NodePattern, Ghost(sh): Ghost<CypherShape>, Ghost(nsh): Ghost<NodeShape>)
    requires
        path_shaped(*old(plan), sh),
        node_shaped(neg, nsh),
    ensures
        path_shaped(*final(plan), negated(sh, nsh)),
        final(plan).return_columns == old(plan).return_columns,
        final(plan).order == old(plan).order,
        final(plan).skip == old(plan).skip,
        final(plan).limit == old(plan).limit,
{
    let name = match &neg.bind {
        Some(n) => n.clone(),
        None => {
            attach_not_to(&mut plan.seed, neg, Ghost(sh.seed), Ghost(sh.seed_nots), Ghost(nsh));
            return;
        },
    };
    if same_binding(&plan.seed.bind, &name) {
        attach_not_to(&mut plan.seed, neg, Ghost(sh.seed), Ghost(sh.seed_nots), Ghost(nsh));
        return;
    }
    proof {
        lemma_hop_index(sh.hops, name@);
    }
    let mut i: usize = 0;
    while i < plan.steps.len()
        invariant
            i <= plan.steps@.len(),
            *plan == *old(plan),
            path_shaped(*plan, sh),
            nsh.bind == Some(name@),
            node_shaped(neg, nsh),
            sh.seed.bind != Some(name@),
            forall|j: int| 0 <= j < i ==> sh.hops[j].target.bind != Some(name@),
        decreases plan.steps@.len() - i,
    {
        if same_binding(&plan.steps[i].target.bind, &name) {
            assert(hop_shaped(plan.steps@[i as int], sh.hops[i as int]));
            proof {
                lemma_hop_index(sh.hops, name@);
                if let Some(k) = hop_index(sh.hops, name@) {
                    if k < i {
                        assert(sh.hops[k].target.bind != Some(name@));
                    }
                    assert(k == i);
                } else {
                    assert(sh.hops[i as int].target.bind == Some(name@));
                }
            }
            let ghost s0 = plan.steps@;
            let ghost h = sh.hops[i as int];
            let mut step = plan.steps.remove(i);
            attach_not_to(&mut step.target, neg, Ghost(h.target), Ghost(h.target_nots), Ghost(nsh));
            plan.steps.insert(i, step);
            let ghost sh2 = negated(sh, nsh);
            assert forall|j: int| 0 <= j < sh2.hops.len() implies hop_shaped(#[trigger] plan.steps@[j], sh2.hops[j]) by {
                if j != i {
                    assert(plan.steps@[j] == s0[j]);
                }
            }
            return;
        }
        i = i + 1;
    }
    proof {
        if let Some(k) = hop_index(sh.hops, name@) {
            assert(sh.hops[k].target.bind == Some(name@));
            assert(hop_shaped(plan.steps@[k], sh.hops[k]));
        }
    }
    attach_not_to(&mut plan.seed, neg, Ghost(sh.seed), Ghost(sh.seed_nots), Ghost(nsh));
}

/// Parse a Cypher-subset query into a traversal plan: the path's first
/// node seeds the plan and each edge segment adds a hop (outbound unless
/// written `<-`), `WHERE NOT` adds an exclusion, RETURN lists the
/// returned columns and LIMIT pages. Fails with `Parse` on malformed input,
/// including anything after the query, and with `Unsupported` on
/// constructs outside the subset.
pub fn parse(query: &str) -> (r: Result<TraversalPlan, CypherError>)
    ensures
        match cypher_parsed(query.spec_bytes()) {
            Ok(sh) => r matches Ok(plan) && cypher_plan_is(plan, sh),
            Err(Fault::Parse(m)) => r matches Err(CypherError::Parse(x)) && x@ == m,
            Err(Fault::Unsupported(m)) => r matches Err(CypherError::Unsupported(x)) && x@ == m,
        },
{
    let mut p = Parser { cur: Cursor::new(query.as_bytes()) };
    let ghost s = p.cur.src@;
    p.expect_keyword("MATCH", "expected keyword `MATCH`")?;
    let ghost e0 = p.cur.pos as int;
    let seed = p.parse_node_pattern()?;
    let ghost seed_sh = match c_node(s, e0) {
        Ok((n, _)) => n,
        Err(_) => NodeShape { bind: None, types: seq![], props: seq![] },
    };
    let ghost e1 = p.cur.pos as int;
    let mut plan = TraversalPlan::from_seed(seed);
    let ghost mut hs: Seq<HopShape> = seq![];
    loop
        invariant_except_break
            p.wf(),
            p.cur.src@ == s,
            s == query.spec_bytes(),
            cypher_parsed(s) == match c_hops(s, e1, seq![]) {
                Err(f) => Err(f),
                Ok((hops, e2)) => cypher_after_path(
                    s,
                    CypherShape { seed: seed_sh, seed_nots: seq![], hops, columns: seq![], limit: None },
                    e2,
                ),
            },
            c_hops(s, e1, seq![]) == c_hops(s, p.cur.pos as int, hs),
            path_shaped(plan, CypherShape { seed: seed_sh, seed_nots: seq![], hops: hs, columns: seq![], limit: None }),
            plan.return_columns@.len() == 0,
            plan.order@.len() == 0,
            plan.skip == 0,
            plan.limit is None,
        ensures
            p.wf(),
            p.cur.src@ == s,
            s == query.spec_bytes(),
            cypher_parsed(s) == cypher_after_path(
                s,
                CypherShape { seed: seed_sh, seed_nots: seq![], hops: hs, columns: seq![], limit: None },
                p.cur.pos as int,
            ),
            path_shaped(plan, CypherShape { seed: seed_sh, seed_nots: seq![], hops: hs, columns: seq![], limit: None }),
            plan.return_columns@.len() == 0,
            plan.order@.len() == 0,
            plan.skip == 0,
            plan.limit is None,
        decreases p.cur.src@.len() - p.cur.pos,
    {
        let ghost p0 = p.cur.pos as int;
        p.skip_ws();
        let q = p.cur.pos;
        let b = p.cur.peek();
        if b == Some(45u8) || b == Some(60u8) {
            let ghost h = match c_hop(s, q as int) {
                Ok((h, _)) => h,
                Err(_) => HopShape {
                    edge: EdgeShape { bind: None, label: None, props: seq![], repeat: None },
                    target: NodeShape { bind: None, types: seq![], props: seq![] },
                    target_nots: seq![],
                    outbound: true,
                },
            };
            let step = p.parse_edge_and_node()?;
            let ghost s0 = plan.steps@;
            plan.steps.push(step);
            proof {
                let base = CypherShape { seed: seed_sh, seed_nots: seq![], hops: hs, columns: seq![], limit: None };
                hs = hs.push(h);
                assert forall|i: int| 0 <= i < hs.len() implies hop_shaped(#[trigger] plan.steps@[i], hs[i]) by {
                    if i < s0.len() {
                        assert(plan.steps@[i] == s0[i]);
                        assert(hop_shaped(s0[i], base.hops[i]));
                    }
                }
            }
        } else {
            break;
        }
    }
    p.skip_ws();
    let save = p.cur.pos;
    if p.cur.try_keyword("WHERE".as_bytes()) {
        p.skip_ws();
        if !p.cur.try_keyword("NOT".as_bytes()) {
            p.cur.pos = save;
            return Err(CypherError::Unsupported(String::from_str("only `WHERE NOT (...)` is supported in this subset")));
        }
        p.skip_ws();
        let ghost q3 = p.cur.pos as int;
        let ghost nsh = if q3 < s.len() && s[q3] == 40 {
            match c_node(s, q3) {
                Ok((n, _)) => n,
                Err(_) => NodeShape { bind: None, types: seq![], props: seq![] },
            }
        } else {
            match c_inline(s, q3) {
                Ok((n, _)) => n,
                Err(_) => NodeShape { bind: None, types: seq![], props: seq![] },
            }
        };
        let neg = if p.cur.peek() == Some(40u8) {
            p.parse_node_pattern()?
        } else {
            p.parse_inline_node_constraint()?
        };
        apply_negation(
            &mut plan,
            neg,
            Ghost(CypherShape { seed: seed_sh, seed_nots: seq![], hops: hs, columns: seq![], limit: None }),
            Ghost(nsh),
        );
    }
    let ghost e3 = p.cur.pos as int;
    p.expect_keyword("RETURN", "expected keyword `RETURN`")?;
    let mut cols: Vec<String> = Vec::new();
    cols.push(p.parse_ident()?);
    let ghost e4 = p.cur.pos as int;
    let ghost c0 = cols@[0]@;
    assert(strings_view(cols@) =~= seq![c0]);
    assert(c_columns(s, e4, seq![c0]) matches Err(m) ==> cypher_parsed(s) == Err::<CypherShape, Fault>(Fault::Parse(m)));
    loop
        invariant_except_break
            p.wf(),
            p.cur.src@ == s,
            s == query.spec_bytes(),
            c_columns(s, e4, seq![c0]) matches Err(m) ==> cypher_parsed(s) == Err::<CypherShape, Fault>(Fault::Parse(m)),
            c_columns(s, e4, seq![c0]) == c_columns(s, p.cur.pos as int, strings_view(cols@)),
        ensures
            p.wf(),
            p.cur.src@ == s,
            c_columns(s, e4, seq![c0]) == Ok::<(Seq<Seq<char>>, int), Seq<char>>((strings_view(cols@), p.cur.pos as int)),
        decreases p.cur.src@.len() - p.cur.pos,
    {
        p.skip_ws();
        if p.cur.peek() == Some(44u8) {
            p.cur.pos = p.cur.pos + 1;
            let ghost before = strings_view(cols@);
            let col = p.parse_ident()?;
            let ghost cv = col@;
            cols.push(col);
            assert(strings_view(cols@) =~= before.push(cv));
        } else {
            break;
        }
    }
    plan.return_columns = cols;
    p.skip_ws();
    if p.cur.try_keyword("LIMIT".as_bytes()) {
        let n = p.parse_uint()?;
        plan.limit = Some(n);
    }
    p.skip_ws();
    if !p.cur.eof() {
        return Err(parse_error("unexpected trailing input"));
    }
    Ok(plan)
}

} // verus!
