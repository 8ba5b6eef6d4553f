//! N-Triples writer and parser.
//!
//! The writer prints one triple per line: IRIs in angle brackets, blank
//! nodes as `_:label`, literals quoted with `\\`, `"`, newline, carriage
//! return and tab escaped, then `@lang` or `^^<datatype>`. The parser
//! accepts that form: one triple per line, `#` comment lines and blank
//! lines skipped, and fails on the first malformed triple with its
//! 1-based line number.
use vstd::prelude::*;

use crate::adapter::{from_rdf, imported_classes, imported_properties, rdf_of, schema_declares, to_rdf};
use crate::model::Ontology;
use crate::rdf::{
    decimal, triples_view, AdapterError, Object, ObjectView, Subject, SubjectView, Triple, TripleView,
    RDF_LANG_STRING, XSD_STRING,
};
use crate::text::{chars_of, index_of, is_space, label_end, string_of_chars, trim, trim_end, trim_start};

verus! {

// ---------------------------------------------------------------------
// Writing
// ---------------------------------------------------------------------

/// `s` with `\`, `"`, newline, carriage return and tab backslash-escaped.
pub open spec fn escaped(s: Seq<char>) -> Seq<char>
    decreases s.len(),
{
    if s.len() == 0 {
        seq![]
    } else {
        escaped(s.drop_last()) + escape_char(s.last())
    }
}

/// The escaped form of one character.
pub open spec fn escape_char(c: char) -> Seq<char> {
    if c == '\\' {
        seq!['\\', '\\']
    } else if c == '"' {
        seq!['\\', '"']
    } else if c == '\n' {
        seq!['\\', 'n']
    } else if c == '\r' {
        seq!['\\', 'r']
    } else if c == '\t' {
        seq!['\\', 't']
    } else {
        seq![c]
    }
}

/// `<iri>`.
pub open spec fn bracketed(iri: Seq<char>) -> Seq<char> {
    seq!['<'] + iri + seq!['>']
}

/// The N-Triples text of a subject.
pub open spec fn subject_text(s: SubjectView) -> Seq<char> {
    match s {
        SubjectView::Iri(i) => bracketed(i),
        SubjectView::Blank(l) => "_:"@ + l,
    }
}

/// The N-Triples text of an object.
pub open spec fn object_text(o: ObjectView) -> Seq<char> {
    match o {
        ObjectView::Iri(i) => bracketed(i),
        ObjectView::Blank(l) => "_:"@ + l,
        ObjectView::Literal(lex, dt, lang) => seq!['"'] + escaped(lex) + seq!['"'] + match lang {
            Some(l) => seq!['@'] + l,
            None => "^^"@ + bracketed(dt),
        },
    }
}

/// The N-Triples line of a triple, without its line break.
pub open spec fn triple_line(t: TripleView) -> Seq<char> {
    subject_text(t.subject) + seq![' '] + bracketed(t.predicate) + seq![' '] + object_text(t.object) + " ."@
}

/// The N-Triples document of a list of triples: one line each.
pub open spec fn document(ts: Seq<TripleView>) -> Seq<char>
    decreases ts.len(),
{
    if ts.len() == 0 {
        seq![]
    } else {
        document(ts.drop_last()) + triple_line(ts.last()) + seq!['\n']
    }
}

pub(crate) fn escape_text(s: &String) -> (r: String)
    ensures
        r@ == escaped(s@),
{
    let chars = chars_of(s.as_str());
    let mut out: Vec<char> = Vec::new();
    let mut i: usize = 0;
    assert(chars@.take(0) =~= Seq::<char>::empty());
    while i < chars.len()
        invariant
            i <= chars.len(),
            chars@ == s@,
            out@ == escaped(chars@.take(i as int)),
        decreases chars.len() - i,
    {
        let c = chars[i];
        if c == '\\' {
            out.push('\\');
            out.push('\\');
        } else if c == '"' {
            out.push('\\');
            out.push('"');
        } else if c == '\n' {
            out.push('\\');
            out.push('n');
        } else if c == '\r' {
            out.push('\\');
            out.push('r');
        } else if c == '\t' {
            out.push('\\');
            out.push('t');
        } else {
            out.push(c);
        }
        assert(chars@.take(i + 1).drop_last() =~= chars@.take(i as int));
        assert(out@ =~= escaped(chars@.take(i + 1)));
        i = i + 1;
    }
    assert(chars@.take(i as int) =~= chars@);
    string_of_chars(&out)
}

fn push_bracketed(out: &mut String, iri: &String)
    ensures
        final(out)@ == old(out)@ + bracketed(iri@),
{
    out.append("<");
    out.append(iri.as_str());
    out.append(">");
    assert(final(out)@ =~= old(out)@ + bracketed(iri@)) by {
        reveal_strlit("<");
        reveal_strlit(">");
    }
}

fn push_blank(out: &mut String, label: &String)
    ensures
        final(out)@ == old(out)@ + "_:"@ + label@,
{
    out.append("_:");
    out.append(label.as_str());
    assert(final(out)@ =~= old(out)@ + "_:"@ + label@);
}

fn push_line(out: &mut String, t: &Triple)
    ensures
        final(out)@ == old(out)@ + triple_line(t@),
{
    let ghost start = out@;
    match &t.subject {
        Subject::Iri(i) => push_bracketed(out, i),
        Subject::Blank(l) => push_blank(out, l),
    }
    out.append(" ");
    push_bracketed(out, &t.predicate);
    out.append(" ");
    let ghost before_object = out@;
    match &t.object {
        Object::Iri(i) => push_bracketed(out, i),
        Object::Blank(l) => push_blank(out, l),
        Object::Literal { lexical, datatype, language } => {
            out.append("\"");
            out.append(escape_text(lexical).as_str());
            out.append("\"");
            match language {
                Some(l) => {
                    out.append("@");
                    out.append(l.as_str());
                },
                None => {
                    out.append("^^");
                    push_bracketed(out, datatype);
                },
            }
            assert(out@ =~= before_object + object_text(t.object@)) by {
                reveal_strlit("\"");
                reveal_strlit("@");
            }
        },
    }
    out.append(" .");
    assert(out@ =~= start + triple_line(t@)) by {
        reveal_strlit(" ");
    }
}

/// The N-Triples document of `triples`.
pub fn write_triples(triples: &Vec<Triple>) -> (r: String)
    ensures
        r@ == document(triples_view(triples@)),
{
    let mut out = String::new();
    let ghost tv = triples_view(triples@);
    let mut i: usize = 0;
    assert(tv.take(0) =~= Seq::<TripleView>::empty());
    while i < triples.len()
        invariant
            i <= triples.len(),
            tv == triples_view(triples@),
            out@ == document(tv.take(i as int)),
        decreases triples.len() - i,
    {
        push_line(&mut out, &triples[i]);
        out.append("\n");
        assert(tv.take(i + 1).drop_last() =~= tv.take(i as int));
        assert(out@ =~= document(tv.take(i + 1))) by {
            reveal_strlit("\n");
        }
        i = i + 1;
    }
    assert(tv.take(i as int) =~= tv);
    out
}

/// Serialize an ontology as N-Triples: its RDF projection, one triple per line.
pub fn write(ontology: &Ontology) -> (r: String)
    ensures
        r@ == document(rdf_of(*ontology)),
{
    write_triples(&to_rdf(ontology))
}

// ---------------------------------------------------------------------
// Parsing: terms
// ---------------------------------------------------------------------

/// A parsed term: IRI, blank node or literal.
pub enum TermView {
    Iri(Seq<char>),
    Blank(Seq<char>),
    Literal(Seq<char>, Seq<char>, Option<Seq<char>>),
}

/// The value of a hex digit.
pub open spec fn hex_digit_value(c: char) -> Option<nat> {
    if '0' <= c <= '9' {
        Some((c as nat - 48) as nat)
    } else if 'a' <= c <= 'f' {
        Some((c as nat - 87) as nat)
    } else if 'A' <= c <= 'F' {
        Some((c as nat - 55) as nat)
    } else {
        None
    }
}

/// The value of a run of hex digits, if all are hex digits.
pub open spec fn hex_run(d: Seq<char>) -> Option<nat>
    decreases d.len(),
{
    if d.len() == 0 {
        Some(0)
    } else {
        match (hex_run(d.drop_last()), hex_digit_value(d.last())) {
            (Some(v), Some(h)) => Some(v * 16 + h),
            _ => None,
        }
    }
}

/// `u32::from_str_radix(d, 16)` for a non-empty `d`: an optional `+`, then
/// at least one hex digit.
pub open spec fn hex_number(d: Seq<char>) -> Option<nat> {
    let digits = if d.len() > 0 && d[0] == '+' {
        d.drop_first()
    } else {
        d
    };
    if digits.len() == 0 {
        None
    } else {
        hex_run(digits)
    }
}

/// A Unicode scalar value.
pub open spec fn scalar(v: nat) -> bool {
    v <= 0x10FFFF && !(0xD800 <= v <= 0xDFFF)
}

/// The character with scalar value `v`.
pub open spec fn code_char(v: nat) -> char {
    v as char
}

proof fn lemma_code_char(c: char)
    ensures
        code_char(c as nat) == c,
{
}

/// `lexical` prefixed to the literal read after it.
pub open spec fn prefixed(p: Seq<char>, r: Result<(Seq<char>, Seq<char>), Seq<char>>) -> Result<
    (Seq<char>, Seq<char>),
    Seq<char>,
> {
    match r {
        Ok((lex, rest)) => Ok((p + lex, rest)),
        Err(e) => Err(e),
    }
}

/// The message `u32::from_str_radix` renders for an invalid digit.
pub open spec fn invalid_digit() -> Seq<char> {
    "invalid digit found in string"@
}

/// The body of a quoted literal, `s` starting just after the opening
/// quote: the unescaped lexical form and what follows the closing quote.
pub open spec fn literal_body(s: Seq<char>) -> Result<(Seq<char>, Seq<char>), Seq<char>>
    decreases s.len(),
{
    if s.len() == 0 {
        Err("unterminated literal"@)
    } else if s[0] == '"' {
        Ok((seq![], s.drop_first()))
    } else if s[0] == '\\' {
        if s.len() < 2 {
            Err("dangling escape in literal"@)
        } else if s[1] == 'n' {
            prefixed(seq!['\n'], literal_body(s.skip(2)))
        } else if s[1] == 'r' {
            prefixed(seq!['\r'], literal_body(s.skip(2)))
        } else if s[1] == 't' {
            prefixed(seq!['\t'], literal_body(s.skip(2)))
        } else if s[1] == '"' {
            prefixed(seq!['"'], literal_body(s.skip(2)))
        } else if s[1] == '\\' {
            prefixed(seq!['\\'], literal_body(s.skip(2)))
        } else if s[1] == 'u' || s[1] == 'U' {
            let n: int = if s[1] == 'u' { 4 } else { 8 };
            if s.len() < n + 2 {
                Err(if s[1] == 'u' { "short \\u escape"@ } else { "short \\U escape"@ })
            } else {
                match hex_number(s.subrange(2, n + 2)) {
                    Some(v) => prefixed(
                        if scalar(v) { seq![code_char(v)] } else { seq![] },
                        literal_body(s.skip(n + 2)),
                    ),
                    None => Err(invalid_digit()),
                }
            }
        } else {
            Err("unknown escape \\"@ + seq![s[1]])
        }
    } else {
        prefixed(seq![s[0]], literal_body(s.drop_first()))
    }
}

/// A quoted literal, `s` starting at its opening quote, with its language
/// tag or datatype, and what follows it.
pub open spec fn literal_term(s: Seq<char>) -> Result<(TermView, Seq<char>), Seq<char>> {
    match literal_body(s.drop_first()) {
        Err(e) => Err(e),
        Ok((lex, rest)) => if rest.len() > 0 && rest[0] == '@' {
            let l = rest.drop_first();
            Ok((TermView::Literal(lex, RDF_LANG_STRING@, Some(l.take(label_end(l)))), l.skip(label_end(l))))
        } else if rest.len() >= 2 && rest[0] == '^' && rest[1] == '^' {
            let d = trim_start(rest.skip(2));
            if !(d.len() > 0 && d[0] == '<') {
                Err("expected <iri> after ^^"@)
            } else {
                match index_of(d, '>') {
                    None => Err("unterminated datatype IRI"@),
                    Some(e) => Ok((TermView::Literal(lex, d.subrange(1, e), None), d.skip(e + 1))),
                }
            }
        } else {
            Ok((TermView::Literal(lex, XSD_STRING@, None), rest))
        },
    }
}

/// The term that starts `s` and what follows it.
pub open spec fn term(s: Seq<char>) -> Result<(TermView, Seq<char>), Seq<char>> {
    if s.len() == 0 {
        Err("expected term, got end of input"@)
    } else if s[0] == '<' {
        match index_of(s, '>') {
            None => Err("unterminated IRI"@),
            Some(e) => Ok((TermView::Iri(s.subrange(1, e)), s.skip(e + 1))),
        }
    } else if s[0] == '_' && s.len() > 1 && s[1] == ':' {
        let r = s.skip(2);
        Ok((TermView::Blank(r.take(label_end(r))), r.skip(label_end(r))))
    } else if s[0] == '"' {
        literal_term(s)
    } else {
        Err("unexpected term start: Some('"@ + seq![s[0]] + "')"@)
    }
}

/// The object a term denotes.
pub open spec fn term_object(t: TermView) -> ObjectView {
    match t {
        TermView::Iri(i) => ObjectView::Iri(i),
        TermView::Blank(b) => ObjectView::Blank(b),
        TermView::Literal(l, d, g) => ObjectView::Literal(l, d, g),
    }
}

/// The triple on a (trimmed) line: subject, IRI predicate and object,
/// then the closing `.`.
pub open spec fn line_triple(line: Seq<char>) -> Result<TripleView, Seq<char>> {
    let l = trim_end(line);
    if !(l.len() > 0 && l.last() == '.') {
        Err("missing trailing dot"@)
    } else {
        match term(trim(l.drop_last())) {
            Err(e) => Err(e),
            Ok((subj, r1)) => match term(trim_start(r1)) {
                Err(e) => Err(e),
                Ok((pred, r2)) => match pred {
                    TermView::Iri(p) => match term(trim_start(r2)) {
                        Err(e) => Err(e),
                        Ok((obj, r3)) => if trim(r3).len() > 0 {
                            Err("trailing data after object"@)
                        } else {
                            match subj {
                                TermView::Iri(s) => Ok(
                                    TripleView { subject: SubjectView::Iri(s), predicate: p, object: term_object(obj) },
                                ),
                                TermView::Blank(b) => Ok(
                                    TripleView { subject: SubjectView::Blank(b), predicate: p, object: term_object(obj) },
                                ),
                                TermView::Literal(..) => Err("subject cannot be a literal"@),
                            }
                        },
                    },
                    _ => Err("predicate must be an IRI"@),
                },
            },
        }
    }
}

/// A parsed term.
enum Term {
    Iri(String),
    Blank(String),
    Literal { lexical: String, datatype: String, language: Option<String> },
}

impl View for Term {
    type V = TermView;

    closed spec fn view(&self) -> TermView {
        match self {
            Term::Iri(s) => TermView::Iri(s@),
            Term::Blank(s) => TermView::Blank(s@),
            Term::Literal { lexical, datatype, language } => TermView::Literal(
                lexical@,
                datatype@,
                match language {
                    Some(l) => Some(l@),
                    None => None,
                },
            ),
        }
    }
}

/// Calls `char::from_u32`: the character with scalar value `cp`, or
/// nothing when `cp` is not a Unicode scalar value, as std documents.
#[verifier::external_body]
fn char_from_code(cp: u32) -> (r: Option<char>)
    ensures
        r is Some <==> scalar(cp as nat),
        r matches Some(c) ==> c as nat == cp as nat,
{
    char::from_u32(cp)
}

/// `16^k`.
pub open spec fn pow16(k: nat) -> nat
    decreases k,
{
    if k == 0 {
        1
    } else {
        16 * pow16((k - 1) as nat)
    }
}

proof fn lemma_pow16_bound(k: nat)
    requires
        k <= 8,
    ensures
        pow16(k) <= 4294967296,
    decreases 8 - k,
{
    reveal_with_fuel(pow16, 9);
    if k < 8 {
        lemma_pow16_bound((k + 1) as nat);
        assert(pow16((k + 1) as nat) == 16 * pow16(k));
    }
}

fn hex_digit_exec(c: char) -> (r: Option<u64>)
    ensures
        match r {
            Some(h) => hex_digit_value(c) == Some(h as nat) && h < 16,
            None => hex_digit_value(c) is None,
        },
{
    if '0' <= c && c <= '9' {
        Some((c as u32 - 48) as u64)
    } else if 'a' <= c && c <= 'f' {
        Some((c as u32 - 87) as u64)
    } else if 'A' <= c && c <= 'F' {
        Some((c as u32 - 55) as u64)
    } else {
        None
    }
}

fn hex_number_exec(v: &Vec<char>, a: usize, b: usize) -> (r: Option<u32>)
    requires
        a <= b <= v@.len(),
        b - a <= 8,
    ensures
        match r {
            Some(x) => hex_number(v@.subrange(a as int, b as int)) == Some(x as nat),
            None => hex_number(v@.subrange(a as int, b as int)) is None,
        },
{
    let ghost d = v@.subrange(a as int, b as int);
    let start: usize = if a < b && v[a] == '+' { a + 1 } else { a };
    assert(v@.subrange(start as int, b as int) =~= (if d.len() > 0 && d[0] == '+' { d.drop_first() } else { d }));
    if start == b {
        return None;
    }
    let mut val: u64 = 0;
    let mut i = start;
    assert(v@.subrange(start as int, start as int) =~= Seq::<char>::empty());
    while i < b
        invariant
            start <= i <= b,
            start < b,
            a <= start,
            b <= v@.len(),
            b - start <= 8,
            d == v@.subrange(a as int, b as int),
            v@.subrange(start as int, b as int) == (if d.len() > 0 && d[0] == '+' {
                d.drop_first()
            } else {
                d
            }),
            hex_run(v@.subrange(start as int, i as int)) == Some(val as nat),
            val < pow16((i - start) as nat),
        decreases b - i,
    {
        proof {
            lemma_pow16_bound((i - start) as nat);
        }
        match hex_digit_exec(v[i]) {
            Some(h) => {
                assert(v@.subrange(start as int, i + 1).drop_last() =~= v@.subrange(start as int, i as int));
                assert(pow16((i + 1 - start) as nat) == 16 * pow16((i - start) as nat));
                val = val * 16 + h;
            },
            None => {
                proof {
                    assert(v@.subrange(start as int, b as int)[i - start] == v@[i as int]);
                    lemma_hex_run_fails(v@.subrange(start as int, b as int), (i - start) as int);
                }
                return None;
            },
        }
        i = i + 1;
    }
    proof {
        lemma_pow16_bound((b - start) as nat);
    }
    Some(val as u32)
}

/// A non-digit anywhere makes a run fail.
proof fn lemma_hex_run_fails(d: Seq<char>, k: int)
    requires
        0 <= k < d.len(),
        hex_digit_value(d[k]) is None,
    ensures
        hex_run(d) is None,
    decreases d.len(),
{
    if k < d.len() - 1 {
        lemma_hex_run_fails(d.drop_last(), k);
    }
}

proof fn lemma_prefixed_twice(p: Seq<char>, q: Seq<char>, r: Result<(Seq<char>, Seq<char>), Seq<char>>)
    ensures
        prefixed(p, prefixed(q, r)) == prefixed(p + q, r),
{
    match r {
        Ok((lex, rest)) => {
            assert(p + (q + lex) =~= (p + q) + lex);
        },
        Err(_) => {},
    }
}

fn parse_literal_body(v: &Vec<char>, a: usize, b: usize) -> (r: Result<(String, usize), String>)
    requires
        a <= b <= v@.len(),
    ensures
        match r {
            Ok((lex, p)) => a <= p <= b && literal_body(v@.subrange(a as int, b as int)) == Ok::<
                (Seq<char>, Seq<char>),
                Seq<char>,
            >((lex@, v@.subrange(p as int, b as int))),
            Err(m) => literal_body(v@.subrange(a as int, b as int)) == Err::<(Seq<char>, Seq<char>), Seq<char>>(m@),
        },
{
    let mut acc: Vec<char> = Vec::new();
    let mut i = a;
    assert(prefixed(seq![], literal_body(v@.subrange(a as int, b as int))) == literal_body(
        v@.subrange(a as int, b as int),
    )) by {
        match literal_body(v@.subrange(a as int, b as int)) {
            Ok((lex, rest)) => {
                assert(Seq::<char>::empty() + lex =~= lex);
            },
            Err(_) => {},
        }
    }
    assert(acc@ =~= Seq::<char>::empty());
    loop
        invariant
            a <= i <= b,
            b <= v@.len(),
            literal_body(v@.subrange(a as int, b as int)) == prefixed(acc@, literal_body(v@.subrange(i as int, b as int))),
        decreases b - i,
    {
        let ghost s = v@.subrange(i as int, b as int);
        let ghost before = acc@;
        if i == b {
            return Err(String::from_str("unterminated literal"));
        }
        let c = v[i];
        assert(s[0] == c);
        if c == '"' {
            assert(s.drop_first() =~= v@.subrange(i + 1, b as int));
            return Ok((string_of_chars(&acc), i + 1));
        } else if c == '\\' {
            if b - i < 2 {
                return Err(String::from_str("dangling escape in literal"));
            }
            let e = v[i + 1];
            assert(s[1] == e);
            assert(s.skip(2) =~= v@.subrange(i + 2, b as int));
            if e == 'n' || e == 'r' || e == 't' || e == '"' || e == '\\' {
                let out = if e == 'n' {
                    '\n'
                } else if e == 'r' {
                    '\r'
                } else if e == 't' {
                    '\t'
                } else {
                    e
                };
                acc.push(out);
                proof {
                    lemma_prefixed_twice(before, seq![out], literal_body(v@.subrange(i + 2, b as int)));
                    assert(before + seq![out] =~= acc@);
                }
                i = i + 2;
            } else if e == 'u' || e == 'U' {
                let n: usize = if e == 'u' { 4 } else { 8 };
                if b - i < n + 2 {
                    if e == 'u' {
                        return Err(String::from_str("short \\u escape"));
                    } else {
                        return Err(String::from_str("short \\U escape"));
                    }
                }
                assert(s.subrange(2, n + 2) =~= v@.subrange(i + 2, i + 2 + n));
                assert(s.skip(n + 2) =~= v@.subrange(i + n + 2, b as int));
                match hex_number_exec(v, i + 2, i + 2 + n) {
                    Some(cp) => {
                        let ghost pre: Seq<char> = if scalar(cp as nat) {
                            seq![code_char(cp as nat)]
                        } else {
                            seq![]
                        };
                        match char_from_code(cp) {
                            Some(ch) => {
                                proof {
                                    lemma_code_char(ch);
                                }
                                acc.push(ch);
                            },
                            None => {},
                        }
                        proof {
                            lemma_prefixed_twice(before, pre, literal_body(v@.subrange(i + n + 2, b as int)));
                            assert(before + pre =~= acc@);
                        }
                        i = i + 2 + n;
                    },
                    None => {
                        return Err(String::from_str("invalid digit found in string"));
                    },
                }
            } else {
                let mut one: Vec<char> = Vec::new();
                one.push(e);
                let msg = String::from_str("unknown escape \\").concat(string_of_chars(&one).as_str());
                return Err(msg);
            }
        } else {
            acc.push(c);
            proof {
                assert(s.drop_first() =~= v@.subrange(i + 1, b as int));
                lemma_prefixed_twice(before, seq![c], literal_body(v@.subrange(i + 1, b as int)));
                assert(before + seq![c] =~= acc@);
            }
            i = i + 1;
        }
    }
}

fn parse_literal_term(v: &Vec<char>, a: usize, b: usize) -> (r: Result<(Term, usize), String>)
    requires
        a < b <= v@.len(),
        v@[a as int] == '"',
    ensures
        match r {
            Ok((t, p)) => a <= p <= b && literal_term(v@.subrange(a as int, b as int)) == Ok::<
                (TermView, Seq<char>),
                Seq<char>,
            >((t@, v@.subrange(p as int, b as int))),
            Err(m) => literal_term(v@.subrange(a as int, b as int)) == Err::<(TermView, Seq<char>), Seq<char>>(m@),
        },
{
    let ghost s = v@.subrange(a as int, b as int);
    assert(s.drop_first() =~= v@.subrange(a + 1, b as int));
    let (lexical, p) = match parse_literal_body(v, a + 1, b) {
        Ok(x) => x,
        Err(m) => {
            return Err(m);
        },
    };
    let ghost rest = v@.subrange(p as int, b as int);
    if p < b && v[p] == '@' {
        let q = crate::text::scan_label(v, p + 1, b);
        assert(rest.drop_first() =~= v@.subrange(p + 1, b as int));
        let ghost l = rest.drop_first();
        assert(l.take(label_end(l)) =~= v@.subrange(p + 1, q as int));
        assert(l.skip(label_end(l)) =~= v@.subrange(q as int, b as int));
        let t = Term::Literal {
            lexical,
            datatype: String::from_str(RDF_LANG_STRING),
            language: Some(crate::text::string_of_range(v, p + 1, q)),
        };
        assert(t@ == TermView::Literal(lexical@, RDF_LANG_STRING@, Some(l.take(label_end(l)))));
        return Ok((t, q));
    }
    if b - p >= 2 && v[p] == '^' && v[p + 1] == '^' {
        let d = crate::text::skip_space(v, p + 2, b);
        assert(rest.skip(2) =~= v@.subrange(p + 2, b as int));
        let ghost dd = v@.subrange(d as int, b as int);
        if !(d < b && v[d] == '<') {
            return Err(String::from_str("expected <iri> after ^^"));
        }
        match crate::text::find_char(v, d, b, '>') {
            None => {
                return Err(String::from_str("unterminated datatype IRI"));
            },
            Some(e) => {
                proof {
                    crate::text::lemma_index_of(dd, '>');
                }
                assert(e > d);
                assert(dd.subrange(1, e - d) =~= v@.subrange(d + 1, e as int));
                assert(dd.skip(e - d + 1) =~= v@.subrange(e + 1, b as int));
                let t = Term::Literal { lexical, datatype: crate::text::string_of_range(v, d + 1, e), language: None };
                assert(t@ == TermView::Literal(lexical@, dd.subrange(1, e - d), None));
                return Ok((t, e + 1));
            },
        }
    }
    let t = Term::Literal { lexical, datatype: String::from_str(XSD_STRING), language: None };
    assert(t@ == TermView::Literal(lexical@, XSD_STRING@, None));
    Ok((t, p))
}

fn parse_term(v: &Vec<char>, a: usize, b: usize) -> (r: Result<(Term, usize), String>)
    requires
        a <= b <= v@.len(),
    ensures
        match r {
            Ok((t, p)) => a <= p <= b && term(v@.subrange(a as int, b as int)) == Ok::<(TermView, Seq<char>), Seq<char>>(
                (t@, v@.subrange(p as int, b as int)),
            ),
            Err(m) => term(v@.subrange(a as int, b as int)) == Err::<(TermView, Seq<char>), Seq<char>>(m@),
        },
{
    let ghost s = v@.subrange(a as int, b as int);
    if a == b {
        return Err(String::from_str("expected term, got end of input"));
    }
    let c = v[a];
    assert(s[0] == c);
    if c == '<' {
        match crate::text::find_char(v, a, b, '>') {
            None => Err(String::from_str("unterminated IRI")),
            Some(e) => {
                proof {
                    crate::text::lemma_index_of(s, '>');
                }
                assert(e > a);
                assert(s.subrange(1, e - a) =~= v@.subrange(a + 1, e as int));
                assert(s.skip(e - a + 1) =~= v@.subrange(e + 1, b as int));
                let t = Term::Iri(crate::text::string_of_range(v, a + 1, e));
                assert(t@ == TermView::Iri(s.subrange(1, e - a)));
                Ok((t, e + 1))
            },
        }
    } else if c == '_' && b - a > 1 && v[a + 1] == ':' {
        assert(s[1] == v@[a + 1]);
        let q = crate::text::scan_label(v, a + 2, b);
        let ghost r2 = s.skip(2);
        assert(r2 =~= v@.subrange(a + 2, b as int));
        assert(r2.take(label_end(r2)) =~= v@.subrange(a + 2, q as int));
        assert(r2.skip(label_end(r2)) =~= v@.subrange(q as int, b as int));
        let t = Term::Blank(crate::text::string_of_range(v, a + 2, q));
        assert(t@ == TermView::Blank(r2.take(label_end(r2))));
        Ok((t, q))
    } else if c == '"' {
        parse_literal_term(v, a, b)
    } else {
        let mut one: Vec<char> = Vec::new();
        one.push(c);
        let msg = String::from_str("unexpected term start: Some('").concat(string_of_chars(&one).as_str()).concat("')");
        Err(msg)
    }
}

fn term_to_object(t: Term) -> (r: Object)
    ensures
        r@ == term_object(t@),
{
    match t {
        Term::Iri(i) => Object::Iri(i),
        Term::Blank(b) => Object::Blank(b),
        Term::Literal { lexical, datatype, language } => Object::Literal { lexical, datatype, language },
    }
}

fn parse_line(v: &Vec<char>, a: usize, b: usize) -> (r: Result<Triple, String>)
    requires
        a <= b <= v@.len(),
    ensures
        match r {
            Ok(t) => line_triple(v@.subrange(a as int, b as int)) == Ok::<TripleView, Seq<char>>(t@),
            Err(m) => line_triple(v@.subrange(a as int, b as int)) == Err::<TripleView, Seq<char>>(m@),
        },
{
    let ghost line = v@.subrange(a as int, b as int);
    let e = crate::text::back_space(v, a, b);
    let ghost l = v@.subrange(a as int, e as int);
    if !(e > a && v[e - 1] == '.') {
        return Err(String::from_str("missing trailing dot"));
    }
    assert(l.drop_last() =~= v@.subrange(a as int, e - 1));
    let s0 = crate::text::skip_space(v, a, e - 1);
    let s1 = crate::text::back_space(v, s0, e - 1);
    let (subj, p1) = match parse_term(v, s0, s1) {
        Ok(x) => x,
        Err(m) => {
            return Err(m);
        },
    };
    let q1 = crate::text::skip_space(v, p1, s1);
    let (pred, p2) = match parse_term(v, q1, s1) {
        Ok(x) => x,
        Err(m) => {
            return Err(m);
        },
    };
    let predicate = match pred {
        Term::Iri(p) => p,
        _ => {
            return Err(String::from_str("predicate must be an IRI"));
        },
    };
    let q2 = crate::text::skip_space(v, p2, s1);
    let (obj, p3) = match parse_term(v, q2, s1) {
        Ok(x) => x,
        Err(m) => {
            return Err(m);
        },
    };
    let t3 = crate::text::skip_space(v, p3, s1);
    let t4 = crate::text::back_space(v, t3, s1);
    if t4 > t3 {
        return Err(String::from_str("trailing data after object"));
    }
    let ghost ov = obj@;
    let object = term_to_object(obj);
    match subj {
        Term::Iri(s) => Ok(Triple { subject: Subject::Iri(s), predicate, object }),
        Term::Blank(s) => Ok(Triple { subject: Subject::Blank(s), predicate, object }),
        Term::Literal { .. } => Err(String::from_str("subject cannot be a literal")),
    }
}

// ---------------------------------------------------------------------
// Parsing: documents
// ---------------------------------------------------------------------

/// The lines of `s`: split at each line feed; a final line feed does not
/// start another line. (A carriage return before a line feed stays on the
/// line; every line is trimmed before use.)
pub open spec fn lines(s: Seq<char>) -> Seq<Seq<char>>
    decreases s.len(),
{
    if s.len() == 0 {
        seq![]
    } else {
        match index_of(s, '\n') {
            Some(k) => if 0 <= k < s.len() {
                seq![s.take(k)] + lines(s.skip(k + 1))
            } else {
                seq![]
            },
            None => seq![s],
        }
    }
}

/// The triples of `ls`, numbered from `n + 1`: blank and `#` lines are
/// skipped; the first malformed line fails with `line <number>: <reason>`.
pub open spec fn parse_lines(ls: Seq<Seq<char>>, n: nat) -> Result<Seq<TripleView>, Seq<char>>
    decreases ls.len(),
{
    if ls.len() == 0 {
        Ok(seq![])
    } else {
        let l = trim(ls[0]);
        if l.len() == 0 || l[0] == '#' {
            parse_lines(ls.drop_first(), n + 1)
        } else {
            match line_triple(l) {
                Err(m) => Err("line "@ + decimal(n + 1) + ": "@ + m),
                Ok(t) => match parse_lines(ls.drop_first(), n + 1) {
                    Ok(r) => Ok(seq![t] + r),
                    Err(e) => Err(e),
                },
            }
        }
    }
}

/// The triples of an N-Triples document, or why it is malformed.
pub open spec fn parsed(input: Seq<char>) -> Result<Seq<TripleView>, Seq<char>> {
    parse_lines(lines(input), 0)
}

/// `acc` before the triples of `r`.
pub open spec fn after(acc: Seq<TripleView>, r: Result<Seq<TripleView>, Seq<char>>) -> Result<
    Seq<TripleView>,
    Seq<char>,
> {
    match r {
        Ok(t) => Ok(acc + t),
        Err(e) => Err(e),
    }
}

fn line_number_message(n: usize, m: String) -> (r: String)
    requires
        n < usize::MAX,
    ensures
        r@ == "line "@ + decimal(n as nat + 1) + ": "@ + m@,
{
    let digits = crate::rdf::unsigned_text((n + 1) as u64);
    String::from_str("line ").concat(string_of_chars(&digits).as_str()).concat(": ").concat(m.as_str())
}

/// Parse an N-Triples document. Blank lines and `#` lines are skipped;
/// the first malformed triple fails with its 1-based line number.
pub fn parse(input: &str) -> (r: Result<Vec<Triple>, AdapterError>)
    ensures
        match r {
            Ok(ts) => parsed(input@) == Ok::<Seq<TripleView>, Seq<char>>(triples_view(ts@)),
            Err(e) => e matches AdapterError::Parse(m) && parsed(input@) == Err::<Seq<TripleView>, Seq<char>>(m@),
        },
{
    let v = chars_of(input);
    let n = v.len();
    let mut out: Vec<Triple> = Vec::new();
    let mut pos: usize = 0;
    let mut line_no: usize = 0;
    assert(v@.subrange(0, n as int) =~= input@);
    assert(after(seq![], parsed(input@)) == parsed(input@)) by {
        match parsed(input@) {
            Ok(t) => {
                assert(Seq::<TripleView>::empty() + t =~= t);
            },
            Err(_) => {},
        }
    }
    assert(triples_view(out@) =~= Seq::<TripleView>::empty());
    while pos < n
        invariant
            pos <= n,
            n == v@.len(),
            v@ == input@,
            line_no <= pos,
            parsed(input@) == after(triples_view(out@), parse_lines(lines(v@.subrange(pos as int, n as int)), line_no as nat)),
        decreases n - pos,
    {
        let ghost rest = v@.subrange(pos as int, n as int);
        let ghost acc = triples_view(out@);
        let end = match crate::text::find_char(&v, pos, n, '\n') {
            Some(k) => k,
            None => n,
        };
        let next = if end < n { end + 1 } else { n };
        proof {
            crate::text::lemma_index_of(rest, '\n');
            if end < n {
                assert(rest.take(end - pos) =~= v@.subrange(pos as int, end as int));
                assert(rest.skip(end - pos + 1) =~= v@.subrange(next as int, n as int));
            } else {
                assert(rest =~= v@.subrange(pos as int, end as int));
            }
            assert(lines(rest) == seq![v@.subrange(pos as int, end as int)] + lines(v@.subrange(next as int, n as int))) by {
                if end == n {
                    assert(lines(v@.subrange(next as int, n as int)) =~= Seq::<Seq<char>>::empty());
                    assert(seq![rest] + Seq::<Seq<char>>::empty() =~= seq![rest]);
                }
            }
            let ls = lines(rest);
            assert(ls[0] == v@.subrange(pos as int, end as int));
            assert(ls.drop_first() =~= lines(v@.subrange(next as int, n as int)));
        }
        let a = crate::text::skip_space(&v, pos, end);
        let b = crate::text::back_space(&v, a, end);
        if a == b || v[a] == '#' {
            // blank or comment line
        } else {
            match parse_line(&v, a, b) {
                Ok(t) => {
                    let ghost tv = t@;
                    out.push(t);
                    assert(triples_view(out@) =~= acc.push(tv));
                    proof {
                        match parse_lines(lines(v@.subrange(next as int, n as int)), (line_no + 1) as nat) {
                            Ok(r) => {
                                assert(acc + (seq![tv] + r) =~= acc.push(tv) + r);
                            },
                            Err(_) => {},
                        }
                    }
                },
                Err(m) => {
                    return Err(AdapterError::Parse(line_number_message(line_no, m)));
                },
            }
        }
        pos = next;
        line_no = line_no + 1;
    }
    assert(v@.subrange(pos as int, n as int) =~= Seq::<char>::empty());
    assert(triples_view(out@) + Seq::<TripleView>::empty() =~= triples_view(out@));
    Ok(out)
}

/// Parse an N-Triples document into an ontology through [`from_rdf`].
pub fn read(input: &str) -> (r: Result<Ontology, AdapterError>)
    ensures
        match parsed(input@) {
            Ok(ts) => r matches Ok(o) && o.nodes@.len() == 0 && o.edges@.len() == 0 && o.axioms@.len() == 0
                && schema_declares(o.schema, imported_classes(ts), imported_properties(ts)),
            Err(m) => r matches Err(AdapterError::Parse(e)) && e@ == m,
        },
{
    let triples = match parse(input) {
        Ok(t) => t,
        Err(e) => {
            return Err(e);
        },
    };
    from_rdf(&triples)
}

// ---------------------------------------------------------------------
// Reading back what was written
// ---------------------------------------------------------------------

/// Text that can sit between `<` and `>` on one line.
pub open spec fn iri_ok(s: Seq<char>) -> bool {
    !s.contains('>') && !s.contains('\n')
}

/// Text that can stand as a blank-node label or language tag: no
/// whitespace and no `.`.
pub open spec fn label_ok(s: Seq<char>) -> bool {
    forall|i: int| 0 <= i < s.len() ==> !is_space(#[trigger] s[i]) && s[i] != '.'
}

/// A triple whose N-Triples line reads back as itself: IRIs without `>`
/// or line breaks, labels and language tags without whitespace or `.`,
/// and language-tagged literals typed `rdf:langString`.
pub open spec fn printable(t: TripleView) -> bool {
    &&& match t.subject {
        SubjectView::Iri(i) => iri_ok(i),
        SubjectView::Blank(l) => label_ok(l),
    }
    &&& iri_ok(t.predicate)
    &&& match t.object {
        ObjectView::Iri(i) => iri_ok(i),
        ObjectView::Blank(l) => label_ok(l),
        ObjectView::Literal(_, dt, lang) => match lang {
            Some(l) => label_ok(l) && dt == RDF_LANG_STRING@,
            None => iri_ok(dt),
        },
    }
}

pub proof fn lemma_escaped_front(s: Seq<char>)
    requires
        s.len() > 0,
    ensures
        escaped(s) == escape_char(s[0]) + escaped(s.drop_first()),
    decreases s.len(),
{
    if s.len() == 1 {
        assert(s.drop_last() =~= Seq::<char>::empty());
        assert(s.drop_first() =~= Seq::<char>::empty());
        assert(escape_char(s[0]) + Seq::<char>::empty() =~= escape_char(s[0]));
    } else {
        lemma_escaped_front(s.drop_last());
        assert(s.drop_last().drop_first() =~= s.drop_first().drop_last());
        assert(s.drop_first().last() == s.last());
        assert(escaped(s) =~= escape_char(s[0]) + escaped(s.drop_first()));
    }
}

proof fn lemma_escaped_no_newline(s: Seq<char>)
    ensures
        !escaped(s).contains('\n'),
    decreases s.len(),
{
    if s.len() > 0 {
        lemma_escaped_no_newline(s.drop_last());
        let e = escaped(s);
        assert(e == escaped(s.drop_last()) + escape_char(s.last()));
        if e.contains('\n') {
            let k = choose|k: int| 0 <= k < e.len() && e[k] == '\n';
            if k < escaped(s.drop_last()).len() {
                assert(escaped(s.drop_last())[k] == '\n');
            } else {
                assert(escape_char(s.last())[k - escaped(s.drop_last()).len()] == '\n');
            }
        }
    }
}

proof fn lemma_literal_body_escaped(lex: Seq<char>, rest: Seq<char>)
    ensures
        literal_body(escaped(lex) + seq!['"'] + rest) == Ok::<(Seq<char>, Seq<char>), Seq<char>>((lex, rest)),
    decreases lex.len(),
{
    let input = escaped(lex) + seq!['"'] + rest;
    if lex.len() == 0 {
        assert(escaped(lex) =~= Seq::<char>::empty());
        assert(input =~= seq!['"'] + rest);
        assert(input[0] == '"');
        assert(input.drop_first() =~= rest);
        assert(literal_body(input) == Ok::<(Seq<char>, Seq<char>), Seq<char>>((seq![], rest)));
        assert(lex =~= Seq::<char>::empty());
    } else {
        let c = lex[0];
        let tail = lex.drop_first();
        lemma_escaped_front(lex);
        lemma_literal_body_escaped(tail, rest);
        let later = escaped(tail) + seq!['"'] + rest;
        assert(input =~= escape_char(c) + later);
        if c == '\\' || c == '"' || c == '\n' || c == '\r' || c == '\t' {
            assert(input[0] == '\\');
            assert(input[1] == escape_char(c)[1]);
            assert(input.len() >= 2);
            assert(input.skip(2) =~= later);
            assert(literal_body(input) == prefixed(seq![c], literal_body(later)));
        } else {
            assert(input[0] == c);
            assert(input.drop_first() =~= later);
            assert(literal_body(input) == prefixed(seq![c], literal_body(later)));
        }
        assert(seq![c] + tail =~= lex);
    }
}

/// The last character of an object's text is not whitespace.
proof fn lemma_object_text_last(o: ObjectView)
    requires
        match o {
            ObjectView::Blank(l) => label_ok(l),
            ObjectView::Literal(_, _, Some(l)) => label_ok(l),
            _ => true,
        },
    ensures
        object_text(o).len() > 0,
        !is_space(object_text(o).last()),
        !is_space(object_text(o)[0]),
{
    reveal_strlit("_:");
    reveal_strlit("^^");
    match o {
        ObjectView::Iri(i) => {
            assert(object_text(o).last() == '>');
            assert(object_text(o)[0] == '<');
        },
        ObjectView::Blank(l) => {
            assert(object_text(o)[0] == '_');
            if l.len() > 0 {
                assert(object_text(o).last() == l.last());
            } else {
                assert(object_text(o).last() == ':');
            }
        },
        ObjectView::Literal(lex, dt, lang) => {
            assert(object_text(o)[0] == '"');
            match lang {
                Some(l) => {
                    if l.len() > 0 {
                        assert(object_text(o).last() == l.last());
                    } else {
                        assert(object_text(o).last() == '@');
                    }
                },
                None => {
                    assert(object_text(o).last() == '>');
                },
            }
        },
    }
}

/// A printable object's text reads back as that object, with nothing after it.
proof fn lemma_object_reads_back(o: ObjectView)
    requires
        match o {
            ObjectView::Iri(i) => iri_ok(i),
            ObjectView::Blank(l) => label_ok(l),
            ObjectView::Literal(_, dt, lang) => match lang {
                Some(l) => label_ok(l) && dt == RDF_LANG_STRING@,
                None => iri_ok(dt),
            },
        },
    ensures
        term(object_text(o)) matches Ok((t, rest)) && term_object(t) == o && trim(rest).len() == 0,
{
    let s = object_text(o);
    reveal_strlit("_:");
    match o {
        ObjectView::Iri(i) => {
            crate::text::lemma_index_of_at(seq!['<'] + i, seq![], '>');
            assert(!(seq!['<'] + i).contains('>')) by {
                if (seq!['<'] + i).contains('>') {
                    let k = choose|k: int| 0 <= k < (seq!['<'] + i).len() && (seq!['<'] + i)[k] == '>';
                    assert(i[k - 1] == '>');
                }
            }
            assert(s =~= seq!['<'] + i + seq!['>'] + Seq::<char>::empty());
            assert(s.subrange(1, i.len() as int + 1) =~= i);
            assert(s.skip(i.len() as int + 2) =~= Seq::<char>::empty());
        },
        ObjectView::Blank(l) => {
            assert(s.skip(2) =~= l + Seq::<char>::empty());
            crate::text::lemma_label_end_at(l, seq![]);
            assert(l + Seq::<char>::empty() =~= l);
            assert(s.skip(2).take(l.len() as int) =~= l);
            assert(s.skip(2).skip(l.len() as int) =~= Seq::<char>::empty());
        },
        ObjectView::Literal(lex, dt, lang) => {
            let suffix = match lang {
                Some(l) => seq!['@'] + l,
                None => "^^"@ + bracketed(dt),
            };
            assert(s =~= seq!['"'] + (escaped(lex) + seq!['"'] + suffix));
            assert(s.drop_first() =~= escaped(lex) + seq!['"'] + suffix);
            lemma_literal_body_escaped(lex, suffix);
            match lang {
                Some(l) => {
                    assert(suffix.drop_first() =~= l);
                    crate::text::lemma_label_end_at(l, seq![]);
                    assert(l + Seq::<char>::empty() =~= l);
                    assert(l.take(l.len() as int) =~= l);
                    assert(l.skip(l.len() as int) =~= Seq::<char>::empty());
                },
                None => {
                    reveal_strlit("^^");
                    assert(suffix[0] == '^' && suffix[1] == '^');
                    let d = suffix.skip(2);
                    assert(d =~= seq!['<'] + dt + seq!['>'] + Seq::<char>::empty());
                    crate::text::lemma_trim_start_none(d);
                    assert(!(seq!['<'] + dt).contains('>')) by {
                        if (seq!['<'] + dt).contains('>') {
                            let k = choose|k: int| 0 <= k < (seq!['<'] + dt).len() && (seq!['<'] + dt)[k] == '>';
                            assert(dt[k - 1] == '>');
                        }
                    }
                    crate::text::lemma_index_of_at(seq!['<'] + dt, seq![], '>');
                    assert(d.subrange(1, dt.len() as int + 1) =~= dt);
                    assert(d.skip(dt.len() as int + 2) =~= Seq::<char>::empty());
                },
            }
        },
    }
}

proof fn lemma_lacks_after_bracket(i: Seq<char>)
    requires
        iri_ok(i),
    ensures
        !(seq!['<'] + i).contains('>'),
{
    if (seq!['<'] + i).contains('>') {
        let k = choose|k: int| 0 <= k < (seq!['<'] + i).len() && (seq!['<'] + i)[k] == '>';
        assert(i[k - 1] == '>');
    }
}

/// `<i>` followed by anything reads back as the IRI `i`.
proof fn lemma_iri_reads_back(i: Seq<char>, rest: Seq<char>)
    requires
        iri_ok(i),
    ensures
        term(bracketed(i) + rest) == Ok::<(TermView, Seq<char>), Seq<char>>((TermView::Iri(i), rest)),
{
    let s = bracketed(i) + rest;
    lemma_lacks_after_bracket(i);
    assert(s =~= seq!['<'] + i + seq!['>'] + rest);
    crate::text::lemma_index_of_at(seq!['<'] + i, rest, '>');
    assert(s[0] == '<');
    assert(s.subrange(1, i.len() as int + 1) =~= i);
    assert(s.skip(i.len() as int + 2) =~= rest);
}

/// `_:l` followed by a stop or nothing reads back as the blank node `l`.
proof fn lemma_blank_reads_back(l: Seq<char>, rest: Seq<char>)
    requires
        label_ok(l),
        rest.len() == 0 || is_space(rest[0]) || rest[0] == '.',
    ensures
        term("_:"@ + l + rest) == Ok::<(TermView, Seq<char>), Seq<char>>((TermView::Blank(l), rest)),
{
    reveal_strlit("_:");
    let s = "_:"@ + l + rest;
    assert(s[0] == '_' && s[1] == ':');
    assert(s.skip(2) =~= l + rest);
    crate::text::lemma_label_end_at(l, rest);
    assert((l + rest).take(l.len() as int) =~= l);
    assert((l + rest).skip(l.len() as int) =~= rest);
}

/// The term a subject reads back as.
pub open spec fn subject_term(s: SubjectView) -> TermView {
    match s {
        SubjectView::Iri(i) => TermView::Iri(i),
        SubjectView::Blank(l) => TermView::Blank(l),
    }
}

proof fn lemma_subject_reads_back(sv: SubjectView, rest: Seq<char>)
    requires
        match sv {
            SubjectView::Iri(i) => iri_ok(i),
            SubjectView::Blank(l) => label_ok(l),
        },
        rest.len() > 0 && rest[0] == ' ',
    ensures
        term(subject_text(sv) + rest) == Ok::<(TermView, Seq<char>), Seq<char>>((subject_term(sv), rest)),
{
    match sv {
        SubjectView::Iri(i) => lemma_iri_reads_back(i, rest),
        SubjectView::Blank(l) => lemma_blank_reads_back(l, rest),
    }
}

/// What is left of a triple's line once the closing dot and the
/// whitespace around it are dropped.
proof fn lemma_line_body(t: TripleView)
    requires
        printable(t),
    ensures
        trim_end(triple_line(t)) == triple_line(t),
        triple_line(t).len() > 0 && triple_line(t).last() == '.',
        trim(triple_line(t).drop_last()) == subject_text(t.subject) + (seq![' '] + bracketed(t.predicate) + seq![' ']
            + object_text(t.object)),
        trim(triple_line(t)) == triple_line(t),
        triple_line(t)[0] != '#',
{
    let subj = subject_text(t.subject);
    let pred = bracketed(t.predicate);
    let obj = object_text(t.object);
    let line = triple_line(t);
    let rest1 = seq![' '] + pred + seq![' '] + obj;
    let body = subj + rest1;
    reveal_strlit(" .");
    reveal_strlit("_:");
    assert(line =~= body + seq![' ', '.']);
    assert(subj[0] == '<' || subj[0] == '_');
    assert(line[0] == subj[0]);
    crate::text::lemma_trim_start_none(line);
    crate::text::lemma_trim_end_none(line);
    lemma_object_text_last(t.object);
    assert(line.drop_last() =~= body + seq![' ']);
    crate::text::lemma_trim_end_space(body);
    assert(body.last() == obj.last());
    crate::text::lemma_trim_end_none(body);
    assert((body + seq![' '])[0] == subj[0]);
    crate::text::lemma_trim_start_none(body + seq![' ']);
}

/// A printable triple's line reads back as the triple.
proof fn lemma_line_reads_back(t: TripleView)
    requires
        printable(t),
    ensures
        line_triple(triple_line(t)) == Ok::<TripleView, Seq<char>>(t),
        trim(triple_line(t)) == triple_line(t),
        triple_line(t).len() > 0,
        triple_line(t)[0] != '#',
        !triple_line(t).contains('\n'),
{
    let pred = bracketed(t.predicate);
    let obj = object_text(t.object);
    let rest2 = seq![' '] + obj;
    let rest1 = seq![' '] + pred + rest2;
    lemma_line_body(t);
    assert(seq![' '] + pred + seq![' '] + obj =~= rest1);
    lemma_subject_reads_back(t.subject, rest1);
    crate::text::lemma_trim_start_space(pred + rest2);
    assert(rest1 =~= seq![' '] + (pred + rest2));
    crate::text::lemma_trim_start_none(pred + rest2);
    lemma_iri_reads_back(t.predicate, rest2);
    crate::text::lemma_trim_start_space(obj);
    lemma_object_text_last(t.object);
    crate::text::lemma_trim_start_none(obj);
    lemma_object_reads_back(t.object);
    lemma_line_no_newline(t);
}

proof fn lemma_concat_lacks(a: Seq<char>, b: Seq<char>, c: char)
    requires
        !a.contains(c),
        !b.contains(c),
    ensures
        !(a + b).contains(c),
{
    if (a + b).contains(c) {
        let k = choose|k: int| 0 <= k < (a + b).len() && (a + b)[k] == c;
        if k < a.len() {
            assert(a[k] == c);
        } else {
            assert(b[k - a.len()] == c);
        }
    }
}

proof fn lemma_label_lacks_newline(l: Seq<char>)
    requires
        label_ok(l),
    ensures
        !l.contains('\n'),
{
    if l.contains('\n') {
        let k = choose|k: int| 0 <= k < l.len() && l[k] == '\n';
        assert(!is_space(l[k]));
    }
}

proof fn lemma_line_no_newline(t: TripleView)
    requires
        printable(t),
    ensures
        !triple_line(t).contains('\n'),
{
    reveal_strlit(" .");
    reveal_strlit("_:");
    reveal_strlit("^^");
    let nl = '\n';
    assert(!seq!['<'].contains(nl) && !seq!['>'].contains(nl) && !seq![' '].contains(nl) && !seq!['"'].contains(nl)
        && !seq!['@'].contains(nl) && !"_:"@.contains(nl) && !"^^"@.contains(nl) && !" ."@.contains(nl));
    let subj = subject_text(t.subject);
    match t.subject {
        SubjectView::Iri(i) => {
            lemma_concat_lacks(seq!['<'], i, nl);
            lemma_concat_lacks(seq!['<'] + i, seq!['>'], nl);
        },
        SubjectView::Blank(l) => {
            lemma_label_lacks_newline(l);
            lemma_concat_lacks("_:"@, l, nl);
        },
    }
    let pred = bracketed(t.predicate);
    lemma_concat_lacks(seq!['<'], t.predicate, nl);
    lemma_concat_lacks(seq!['<'] + t.predicate, seq!['>'], nl);
    let obj = object_text(t.object);
    match t.object {
        ObjectView::Iri(i) => {
            lemma_concat_lacks(seq!['<'], i, nl);
            lemma_concat_lacks(seq!['<'] + i, seq!['>'], nl);
        },
        ObjectView::Blank(l) => {
            lemma_label_lacks_newline(l);
            lemma_concat_lacks("_:"@, l, nl);
        },
        ObjectView::Literal(lex, dt, lang) => {
            lemma_escaped_no_newline(lex);
            lemma_concat_lacks(seq!['"'], escaped(lex), nl);
            lemma_concat_lacks(seq!['"'] + escaped(lex), seq!['"'], nl);
            match lang {
                Some(l) => {
                    lemma_label_lacks_newline(l);
                    lemma_concat_lacks(seq!['@'], l, nl);
                    lemma_concat_lacks(seq!['"'] + escaped(lex) + seq!['"'], seq!['@'] + l, nl);
                },
                None => {
                    lemma_concat_lacks(seq!['<'], dt, nl);
                    lemma_concat_lacks(seq!['<'] + dt, seq!['>'], nl);
                    lemma_concat_lacks("^^"@, bracketed(dt), nl);
                    lemma_concat_lacks(seq!['"'] + escaped(lex) + seq!['"'], "^^"@ + bracketed(dt), nl);
                },
            }
        },
    }
    lemma_concat_lacks(subj, seq![' '], nl);
    lemma_concat_lacks(subj + seq![' '], pred, nl);
    lemma_concat_lacks(subj + seq![' '] + pred, seq![' '], nl);
    lemma_concat_lacks(subj + seq![' '] + pred + seq![' '], obj, nl);
    lemma_concat_lacks(subj + seq![' '] + pred + seq![' '] + obj, " ."@, nl);
}

proof fn lemma_document_front(ts: Seq<TripleView>)
    requires
        ts.len() > 0,
    ensures
        document(ts) == triple_line(ts[0]) + seq!['\n'] + document(ts.drop_first()),
    decreases ts.len(),
{
    if ts.len() == 1 {
        assert(ts.drop_last() =~= Seq::<TripleView>::empty());
        assert(ts.drop_first() =~= Seq::<TripleView>::empty());
        assert(document(ts.drop_last()) == Seq::<char>::empty());
        assert(document(ts.drop_first()) == Seq::<char>::empty());
        assert(ts.last() == ts[0]);
        assert(document(ts) =~= Seq::<char>::empty() + triple_line(ts[0]) + seq!['\n']);
        assert(document(ts) =~= triple_line(ts[0]) + seq!['\n'] + Seq::<char>::empty());
    } else {
        lemma_document_front(ts.drop_last());
        assert(ts.drop_last().drop_first() =~= ts.drop_first().drop_last());
        assert(ts.drop_first().last() == ts.last());
        assert(document(ts) =~= triple_line(ts[0]) + seq!['\n'] + document(ts.drop_first()));
    }
}

/// The line of each triple, in order.
pub open spec fn lines_of(ts: Seq<TripleView>) -> Seq<Seq<char>> {
    ts.map_values(|t: TripleView| triple_line(t))
}

proof fn lemma_lines_of_document(ts: Seq<TripleView>)
    requires
        forall|i: int| 0 <= i < ts.len() ==> printable(#[trigger] ts[i]),
    ensures
        lines(document(ts)) == lines_of(ts),
    decreases ts.len(),
{
    if ts.len() == 0 {
        assert(lines_of(ts) =~= Seq::<Seq<char>>::empty());
    } else {
        let l = triple_line(ts[0]);
        let rest = ts.drop_first();
        assert forall|i: int| 0 <= i < rest.len() implies printable(#[trigger] rest[i]) by {
            assert(rest[i] == ts[i + 1]);
        }
        lemma_document_front(ts);
        lemma_lines_of_document(rest);
        lemma_line_reads_back(ts[0]);
        let d = document(ts);
        crate::text::lemma_index_of_at(l, document(rest), '\n');
        assert(d.take(l.len() as int) =~= l);
        assert(d.skip(l.len() as int + 1) =~= document(rest));
        assert(lines(d) =~= seq![l] + lines(document(rest)));
        assert(lines_of(ts) =~= seq![l] + lines_of(rest));
    }
}

proof fn lemma_parse_lines_of(ts: Seq<TripleView>, n: nat)
    requires
        forall|i: int| 0 <= i < ts.len() ==> printable(#[trigger] ts[i]),
    ensures
        parse_lines(lines_of(ts), n) == Ok::<Seq<TripleView>, Seq<char>>(ts),
    decreases ts.len(),
{
    if ts.len() == 0 {
        assert(lines_of(ts) =~= Seq::<Seq<char>>::empty());
        assert(ts =~= Seq::<TripleView>::empty());
    } else {
        let rest = ts.drop_first();
        assert forall|i: int| 0 <= i < rest.len() implies printable(#[trigger] rest[i]) by {
            assert(rest[i] == ts[i + 1]);
        }
        lemma_parse_lines_of(rest, n + 1);
        lemma_line_reads_back(ts[0]);
        let ls = lines_of(ts);
        assert(ls[0] == triple_line(ts[0]));
        assert(ls.drop_first() =~= lines_of(rest));
        let l = trim(ls[0]);
        assert(l == triple_line(ts[0]));
        assert(!(l.len() == 0 || l[0] == '#'));
        assert(line_triple(l) == Ok::<TripleView, Seq<char>>(ts[0]));
        assert(parse_lines(ls.drop_first(), n + 1) == Ok::<Seq<TripleView>, Seq<char>>(rest));
        assert(seq![ts[0]] + rest =~= ts);
        assert(parse_lines(ls, n) == Ok::<Seq<TripleView>, Seq<char>>(seq![ts[0]] + rest));
    }
}

/// Reading back what was written: the N-Triples document of printable
/// triples parses to exactly those triples, in order.
pub proof fn law_ntriples_round_trip(ts: Seq<TripleView>)
    requires
        forall|i: int| 0 <= i < ts.len() ==> printable(#[trigger] ts[i]),
    ensures
        parsed(document(ts)) == Ok::<Seq<TripleView>, Seq<char>>(ts),
{
    lemma_lines_of_document(ts);
    lemma_parse_lines_of(ts, 0);
}

} // verus!
