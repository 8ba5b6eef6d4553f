//! Turtle writer and parser.
//!
//! The writer prints an `@prefix` line per binding, a blank line, then one
//! triple per line with IRIs compacted to `prefix:local` where a binding's
//! base starts them and the rest holds no space or `/`. The parser reads
//! that subset: `@prefix` directives, IRI, CURIE and blank-node terms,
//! `a` for `rdf:type`, quoted literals with `@lang` or `^^datatype`,
//! predicate lists (`;`), object lists (`,`) and `#` comments.
use vstd::prelude::*;

use crate::adapter::{from_rdf, imported_classes, imported_properties, rdf_of, schema_declares, to_rdf};
use crate::model::Ontology;
use crate::ntriples::{escape_text, escaped, prefixed};
use crate::rdf::{
    triples_view, AdapterError, Object, ObjectView, Subject, SubjectView, Triple, TripleView, RDF_LANG_STRING, RDF_TYPE,
    XSD_STRING,
};
use crate::schema::{bindings_view, standard_bindings, Namespace, Vocabulary};
use crate::text::{chars_of, index_of, is_space, string_of_chars, trim};

verus! {

// ---------------------------------------------------------------------
// Writing
// ---------------------------------------------------------------------

/// The bindings an ontology's Turtle uses: its own, or the standard ones
/// when it has none.
pub open spec fn effective_bindings(o: Ontology) -> Seq<(Seq<char>, Seq<char>)> {
    if o.vocabulary.bindings@.len() > 0 {
        bindings_view(o.vocabulary.bindings@)
    } else {
        standard_bindings()
    }
}

/// The `@prefix` lines of a list of bindings.
pub open spec fn prefix_lines(vs: Seq<(Seq<char>, Seq<char>)>) -> Seq<char>
    decreases vs.len(),
{
    if vs.len() == 0 {
        seq![]
    } else {
        prefix_lines(vs.drop_last()) + "@prefix "@ + vs.last().0 + ": <"@ + vs.last().1 + "> .\n"@
    }
}

/// `iri` compacted by the first binding whose base starts it and leaves a
/// local part without space or `/`; else `<iri>`.
pub open spec fn compact(vs: Seq<(Seq<char>, Seq<char>)>, iri: Seq<char>) -> Seq<char>
    decreases vs.len(),
{
    if vs.len() == 0 {
        seq!['<'] + iri + seq!['>']
    } else {
        let b = vs[0].1;
        let local = iri.skip(b.len() as int);
        if b.is_prefix_of(iri) && !local.contains(' ') && !local.contains('/') {
            vs[0].0 + seq![':'] + local
        } else {
            compact(vs.drop_first(), iri)
        }
    }
}

/// The Turtle text of a subject.
pub open spec fn subject_turtle(vs: Seq<(Seq<char>, Seq<char>)>, s: SubjectView) -> Seq<char> {
    match s {
        SubjectView::Iri(i) => compact(vs, i),
        SubjectView::Blank(l) => "_:"@ + l,
    }
}

/// The Turtle text of an object; `xsd:string` literals carry no datatype.
pub open spec fn object_turtle(vs: Seq<(Seq<char>, Seq<char>)>, o: ObjectView) -> Seq<char> {
    match o {
        ObjectView::Iri(i) => compact(vs, i),
        ObjectView::Blank(l) => "_:"@ + l,
        ObjectView::Literal(lex, dt, lang) => seq!['"'] + escaped(lex) + seq!['"'] + match lang {
            Some(l) => seq!['@'] + l,
            None => if dt == XSD_STRING@ {
                seq![]
            } else {
                "^^"@ + compact(vs, dt)
            },
        },
    }
}

/// The Turtle lines of a list of triples.
pub open spec fn turtle_lines(vs: Seq<(Seq<char>, Seq<char>)>, ts: Seq<TripleView>) -> Seq<char>
    decreases ts.len(),
{
    if ts.len() == 0 {
        seq![]
    } else {
        let t = ts.last();
        turtle_lines(vs, ts.drop_last()) + subject_turtle(vs, t.subject) + seq![' '] + compact(vs, t.predicate)
            + seq![' '] + object_turtle(vs, t.object) + " .\n"@
    }
}

/// The Turtle document of an ontology: the prefix lines, a blank line when
/// there are any, then its RDF projection.
pub open spec fn turtle_document(o: Ontology) -> Seq<char> {
    let vs = effective_bindings(o);
    let header = prefix_lines(vs);
    header + (if header.len() > 0 {
        seq!['\n']
    } else {
        seq![]
    }) + turtle_lines(vs, rdf_of(o))
}

fn starts_with_chars(s: &Vec<char>, p: &Vec<char>) -> (r: bool)
    ensures
        r == p@.is_prefix_of(s@),
{
    if p.len() > s.len() {
        return false;
    }
    let mut i: usize = 0;
    while i < p.len()
        invariant
            i <= p.len() <= s.len(),
            forall|j: int| 0 <= j < i ==> p@[j] == s@[j],
        decreases p.len() - i,
    {
        if p[i] != s[i] {
            return false;
        }
        i = i + 1;
    }
    true
}

fn contains_chars(v: &Vec<char>, a: usize, c: char) -> (r: bool)
    requires
        a <= v@.len(),
    ensures
        r == v@.skip(a as int).contains(c),
{
    let mut i = a;
    while i < v.len()
        invariant
            a <= i <= v@.len(),
            forall|j: int| a <= j < i ==> v@[j] != c,
        decreases v.len() - i,
    {
        if v[i] == c {
            assert(v@.skip(a as int)[i - a] == c);
            return true;
        }
        i = i + 1;
    }
    assert forall|k: int| 0 <= k < v@.skip(a as int).len() implies v@.skip(a as int)[k] != c by {
        assert(v@.skip(a as int)[k] == v@[a + k]);
    }
    false
}

fn push_compact(out: &mut String, vocab: &Vocabulary, iri: &String)
    ensures
        final(out)@ == old(out)@ + compact(bindings_view(vocab.bindings@), iri@),
{
    let chars = chars_of(iri.as_str());
    let ghost vs = bindings_view(vocab.bindings@);
    let mut k: usize = 0;
    assert(vs.skip(0) =~= vs);
    while k < vocab.bindings.len()
        invariant
            k <= vocab.bindings@.len(),
            vs == bindings_view(vocab.bindings@),
            chars@ == iri@,
            compact(vs, iri@) == compact(vs.skip(k as int), iri@),
            out@ == old(out)@,
        decreases vocab.bindings.len() - k,
    {
        let ns = &vocab.bindings[k];
        let base = chars_of(ns.base.as_str());
        let ghost rest = vs.skip(k as int);
        assert(rest[0] == (ns.prefix@, ns.base@));
        assert(rest.drop_first() =~= vs.skip(k + 1));
        if starts_with_chars(&chars, &base) {
            let n = base.len();
            if !contains_chars(&chars, n, ' ') && !contains_chars(&chars, n, '/') {
                out.append(ns.prefix.as_str());
                out.append(":");
                let local = iri.as_str().substring_char(n, chars.len());
                assert(local@ =~= iri@.skip(n as int));
                out.append(local);
                assert(out@ =~= old(out)@ + compact(vs, iri@)) by {
                    reveal_strlit(":");
                }
                return;
            }
        }
        k = k + 1;
    }
    out.append("<");
    out.append(iri.as_str());
    out.append(">");
    assert(out@ =~= old(out)@ + compact(vs, iri@)) by {
        reveal_strlit("<");
        reveal_strlit(">");
    }
}

fn is_xsd_string(s: &String) -> (r: bool)
    ensures
        r == (s@ == XSD_STRING@),
{
    let x = String::from_str(XSD_STRING);
    *s == x
}

fn push_turtle_line(out: &mut String, vocab: &Vocabulary, t: &Triple)
    ensures
        final(out)@ == old(out)@ + subject_turtle(bindings_view(vocab.bindings@), t.subject@) + seq![' '] + compact(
            bindings_view(vocab.bindings@),
            t.predicate@,
        ) + seq![' '] + object_turtle(bindings_view(vocab.bindings@), t.object@) + " .\n"@,
{
    let ghost vs = bindings_view(vocab.bindings@);
    let ghost start = out@;
    match &t.subject {
        Subject::Iri(i) => push_compact(out, vocab, i),
        Subject::Blank(l) => {
            out.append("_:");
            out.append(l.as_str());
        },
    }
    let ghost s1 = out@;
    out.append(" ");
    push_compact(out, vocab, &t.predicate);
    out.append(" ");
    let ghost s2 = out@;
    match &t.object {
        Object::Iri(i) => push_compact(out, vocab, i),
        Object::Blank(l) => {
            out.append("_:");
            out.append(l.as_str());
        },
        Object::Literal { lexical, datatype, language } => {
            out.append("\"");
            out.append(escape_text(lexical).as_str());
            out.append("\"");
            match language {
                Some(l) => {
                    out.append("@");
                    out.append(l.as_str());
                },
                None => {
                    if !is_xsd_string(datatype) {
                        out.append("^^");
                        push_compact(out, vocab, datatype);
                    }
                },
            }
        },
    }
    assert(out@ =~= s2 + object_turtle(vs, t.object@)) by {
        reveal_strlit("\"");
        reveal_strlit("@");
    }
    out.append(" .\n");
    assert(s1 =~= start + subject_turtle(vs, t.subject@));
    assert(out@ =~= start + subject_turtle(vs, t.subject@) + seq![' '] + compact(vs, t.predicate@) + seq![' ']
        + object_turtle(vs, t.object@) + " .\n"@) by {
        reveal_strlit(" ");
    }
}

/// Serialize an ontology as Turtle: `@prefix` lines for its bindings (the
/// standard ones when it has none), then its RDF projection, one triple
/// per line.
pub fn write(ontology: &Ontology) -> (r: String)
    ensures
        r@ == turtle_document(*ontology),
{
    let standard = Vocabulary::with_standard_bindings();
    let vocab: &Vocabulary = if ontology.vocabulary.is_empty() {
        &standard
    } else {
        &ontology.vocabulary
    };
    let ghost vs = bindings_view(vocab.bindings@);
    assert(vs == effective_bindings(*ontology));
    let mut out = String::new();
    let mut k: usize = 0;
    assert(vs.take(0) =~= Seq::<(Seq<char>, Seq<char>)>::empty());
    while k < vocab.bindings.len()
        invariant
            k <= vocab.bindings@.len(),
            vs == bindings_view(vocab.bindings@),
            out@ == prefix_lines(vs.take(k as int)),
        decreases vocab.bindings.len() - k,
    {
        let ns = &vocab.bindings[k];
        out.append("@prefix ");
        out.append(ns.prefix.as_str());
        out.append(": <");
        out.append(ns.base.as_str());
        out.append("> .\n");
        assert(vs.take(k + 1).drop_last() =~= vs.take(k as int));
        assert(vs.take(k + 1).last() == (ns.prefix@, ns.base@));
        assert(out@ =~= prefix_lines(vs.take(k + 1)));
        k = k + 1;
    }
    assert(vs.take(k as int) =~= vs);
    let ghost header = out@;
    if vocab.bindings.len() > 0 {
        out.append("\n");
        assert(header.len() > 0) by {
            reveal_strlit("@prefix ");
            assert(prefix_lines(vs) == prefix_lines(vs.drop_last()) + "@prefix "@ + vs.last().0 + ": <"@
                + vs.last().1 + "> .\n"@);
        }
    }
    let ghost with_break = out@;
    assert(with_break =~= header + (if header.len() > 0 {
        seq!['\n']
    } else {
        seq![]
    })) by {
        reveal_strlit("\n");
    }
    let triples = to_rdf(ontology);
    let ghost tv = triples_view(triples@);
    let mut i: usize = 0;
    assert(tv.take(0) =~= Seq::<TripleView>::empty());
    while i < triples.len()
        invariant
            i <= triples.len(),
            tv == triples_view(triples@),
            vs == bindings_view(vocab.bindings@),
            out@ == with_break + turtle_lines(vs, tv.take(i as int)),
        decreases triples.len() - i,
    {
        push_turtle_line(&mut out, vocab, &triples[i]);
        assert(tv.take(i + 1).drop_last() =~= tv.take(i as int));
        assert(tv.take(i + 1).last() == triples@[i as int]@);
        assert(out@ =~= with_break + turtle_lines(vs, tv.take(i + 1)));
        i = i + 1;
    }
    assert(tv.take(i as int) =~= tv);
    out
}

// ---------------------------------------------------------------------
// Parsing: specification
// ---------------------------------------------------------------------

/// `s` after its leading whitespace and `#` comments (a comment runs to
/// the end of its line).
pub open spec fn skip_ws(s: Seq<char>) -> Seq<char>
    decreases s.len(),
{
    if s.len() == 0 {
        s
    } else if is_space(s[0]) {
        skip_ws(s.drop_first())
    } else if s[0] == '#' {
        match index_of(s, '\n') {
            Some(k) => if 0 <= k < s.len() {
                skip_ws(s.skip(k + 1))
            } else {
                seq![]
            },
            None => seq![],
        }
    } else {
        s
    }
}

/// The length of the token that starts `s`: up to the first whitespace,
/// `.`, `;` or `,`.
pub open spec fn stop_end(s: Seq<char>) -> int
    decreases s.len(),
{
    if s.len() == 0 || is_space(s[0]) || s[0] == '.' || s[0] == ';' || s[0] == ',' {
        0
    } else {
        1 + stop_end(s.drop_first())
    }
}

/// The prefix bindings declared so far.
pub open spec fn bound(m: Map<Seq<char>, Seq<char>>, p: Seq<char>) -> Option<Seq<char>> {
    if m.dom().contains(p) {
        Some(m[p])
    } else {
        None
    }
}

/// `"text"`, as a message quotes it.
pub open spec fn quoted(t: Seq<char>) -> Seq<char> {
    seq!['"'] + t + seq!['"']
}

/// The IRI, CURIE or blank node that starts `s`, and what follows it.
pub open spec fn resource(s: Seq<char>, m: Map<Seq<char>, Seq<char>>) -> Result<(SubjectView, Seq<char>), Seq<char>> {
    if s.len() > 0 && s[0] == '<' {
        match index_of(s, '>') {
            Some(c) => Ok((SubjectView::Iri(s.subrange(1, c)), s.skip(c + 1))),
            None => Err("unterminated IRI"@),
        }
    } else if s.len() >= 2 && s[0] == '_' && s[1] == ':' {
        let a = s.skip(2);
        Ok((SubjectView::Blank(a.take(stop_end(a))), a.skip(stop_end(a))))
    } else {
        let tok = s.take(stop_end(s));
        match index_of(tok, ':') {
            None => Err("unrecognized token "@ + quoted(tok)),
            Some(c) => match bound(m, tok.take(c)) {
                Some(b) => Ok((SubjectView::Iri(b + tok.skip(c + 1)), s.skip(stop_end(s)))),
                None => Err("unknown prefix "@ + quoted(tok.take(c))),
            },
        }
    }
}

/// The character an escape `\c` stands for.
pub open spec fn unescape(c: char) -> char {
    if c == 'n' {
        '\n'
    } else if c == 'r' {
        '\r'
    } else if c == 't' {
        '\t'
    } else {
        c
    }
}

/// The body of a quoted literal, `s` starting after the opening quote.
pub open spec fn literal_text(s: Seq<char>) -> Result<(Seq<char>, Seq<char>), Seq<char>>
    decreases s.len(),
{
    if s.len() == 0 {
        Err("unterminated literal"@)
    } else if s[0] == '\\' {
        if s.len() < 2 {
            Err("dangling escape"@)
        } else {
            prefixed(seq![unescape(s[1])], literal_text(s.skip(2)))
        }
    } else if s[0] == '"' {
        Ok((seq![], s.drop_first()))
    } else {
        prefixed(seq![s[0]], literal_text(s.drop_first()))
    }
}

/// A quoted literal with its language tag or datatype, `s` starting at
/// the opening quote.
pub open spec fn literal(s: Seq<char>, m: Map<Seq<char>, Seq<char>>) -> Result<(ObjectView, Seq<char>), Seq<char>> {
    match literal_text(s.drop_first()) {
        Err(e) => Err(e),
        Ok((lex, r)) => if r.len() > 0 && r[0] == '@' {
            let l = r.drop_first();
            Ok((ObjectView::Literal(lex, RDF_LANG_STRING@, Some(l.take(stop_end(l)))), l.skip(stop_end(l))))
        } else if r.len() >= 2 && r[0] == '^' && r[1] == '^' {
            match resource(r.skip(2), m) {
                Err(e) => Err(e),
                Ok((SubjectView::Iri(i), r2)) => Ok((ObjectView::Literal(lex, i, None), r2)),
                Ok((SubjectView::Blank(_), r2)) => Ok((ObjectView::Literal(lex, XSD_STRING@, None), r2)),
            }
        } else {
            Ok((ObjectView::Literal(lex, XSD_STRING@, None), r))
        },
    }
}

/// The predicate that starts `s`: `a` (for `rdf:type`) or an IRI.
pub open spec fn predicate(s: Seq<char>, m: Map<Seq<char>, Seq<char>>) -> Result<(Seq<char>, Seq<char>), Seq<char>> {
    if s.len() >= 2 && s[0] == 'a' && is_space(s[1]) {
        Ok((RDF_TYPE@, s.drop_first()))
    } else {
        match resource(s, m) {
            Err(e) => Err(e),
            Ok((SubjectView::Iri(i), r)) => Ok((i, r)),
            Ok((SubjectView::Blank(_), _)) => Err("predicate must be an IRI"@),
        }
    }
}

/// The object that starts `s`.
pub open spec fn object(s: Seq<char>, m: Map<Seq<char>, Seq<char>>) -> Result<(ObjectView, Seq<char>), Seq<char>> {
    if s.len() > 0 && s[0] == '"' {
        literal(s, m)
    } else {
        match resource(s, m) {
            Err(e) => Err(e),
            Ok((SubjectView::Iri(i), r)) => Ok((ObjectView::Iri(i), r)),
            Ok((SubjectView::Blank(b), r)) => Ok((ObjectView::Blank(b), r)),
        }
    }
}

pub proof fn lemma_skip_ws_len(s: Seq<char>)
    ensures
        skip_ws(s).len() <= s.len(),
        skip_ws(s) == s.skip(s.len() - skip_ws(s).len()),
    decreases s.len(),
{
    if s.len() > 0 {
        if is_space(s[0]) {
            lemma_skip_ws_len(s.drop_first());
            assert(s.drop_first().skip(s.drop_first().len() - skip_ws(s.drop_first()).len()) =~= s.skip(
                s.len() - skip_ws(s).len(),
            ));
        } else if s[0] == '#' {
            crate::text::lemma_index_of(s, '\n');
            match index_of(s, '\n') {
                Some(k) => {
                    lemma_skip_ws_len(s.skip(k + 1));
                    assert(s.skip(k + 1).skip(s.skip(k + 1).len() - skip_ws(s.skip(k + 1)).len()) =~= s.skip(
                        s.len() - skip_ws(s).len(),
                    ));
                },
                None => {
                    assert(s.skip(s.len() as int) =~= Seq::<char>::empty());
                },
            }
        } else {
            assert(s.skip(0) =~= s);
        }
    } else {
        assert(s.skip(0) =~= s);
    }
}

pub proof fn lemma_stop_end(s: Seq<char>)
    ensures
        0 <= stop_end(s) <= s.len(),
    decreases s.len(),
{
    if s.len() > 0 {
        lemma_stop_end(s.drop_first());
    }
}

pub proof fn lemma_resource_len(s: Seq<char>, m: Map<Seq<char>, Seq<char>>)
    ensures
        resource(s, m) matches Ok((_, r)) ==> r.len() < s.len() && r == s.skip(s.len() - r.len()),
{
    lemma_stop_end(s);
    if s.len() > 0 && s[0] == '<' {
        crate::text::lemma_index_of(s, '>');
    } else if s.len() >= 2 && s[0] == '_' && s[1] == ':' {
        lemma_stop_end(s.skip(2));
        let a = s.skip(2);
        assert(a.skip(stop_end(a)) =~= s.skip(2 + stop_end(a)));
    } else {
        let tok = s.take(stop_end(s));
        crate::text::lemma_index_of(tok, ':');
    }
}

pub proof fn lemma_literal_text_len(s: Seq<char>)
    ensures
        literal_text(s) matches Ok((_, r)) ==> r.len() < s.len() && r == s.skip(s.len() - r.len()),
    decreases s.len(),
{
    if s.len() > 0 {
        if s[0] == '\\' {
            if s.len() >= 2 {
                lemma_literal_text_len(s.skip(2));
                if let Ok((_, r)) = literal_text(s.skip(2)) {
                    assert(s.skip(2).skip(s.skip(2).len() - r.len()) =~= s.skip(s.len() - r.len()));
                }
            }
        } else if s[0] != '"' {
            lemma_literal_text_len(s.drop_first());
            if let Ok((_, r)) = literal_text(s.drop_first()) {
                assert(s.drop_first().skip(s.drop_first().len() - r.len()) =~= s.skip(s.len() - r.len()));
            }
        }
    }
}

pub proof fn lemma_object_len(s: Seq<char>, m: Map<Seq<char>, Seq<char>>)
    ensures
        object(s, m) matches Ok((_, r)) ==> r.len() < s.len() && r == s.skip(s.len() - r.len()),
{
    lemma_resource_len(s, m);
    if s.len() > 0 && s[0] == '"' {
        lemma_literal_text_len(s.drop_first());
        if let Ok((lex, r)) = literal_text(s.drop_first()) {
            assert(s.drop_first().skip(s.drop_first().len() - r.len()) =~= s.skip(s.len() - r.len()));
            if r.len() > 0 && r[0] == '@' {
                lemma_stop_end(r.drop_first());
                let l = r.drop_first();
                assert(l.skip(stop_end(l)) =~= s.skip(s.len() - l.skip(stop_end(l)).len()));
            } else if r.len() >= 2 && r[0] == '^' && r[1] == '^' {
                lemma_resource_len(r.skip(2), m);
                if let Ok((_, r2)) = resource(r.skip(2), m) {
                    assert(r.skip(2).skip(r.skip(2).len() - r2.len()) =~= s.skip(s.len() - r2.len()));
                }
            }
        }
    }
}

pub proof fn lemma_predicate_len(s: Seq<char>, m: Map<Seq<char>, Seq<char>>)
    ensures
        predicate(s, m) matches Ok((_, r)) ==> r.len() < s.len() && r == s.skip(s.len() - r.len()),
{
    lemma_resource_len(s, m);
    assert(s.drop_first() =~= s.skip(1));
}

/// The objects of one predicate: objects separated by `,`.
pub open spec fn objects(subj: SubjectView, pred: Seq<char>, s: Seq<char>, m: Map<Seq<char>, Seq<char>>) -> Result<
    (Seq<TripleView>, Seq<char>),
    Seq<char>,
>
    decreases s.len(),
{
    let s1 = skip_ws(s);
    match object(s1, m) {
        Err(e) => Err(e),
        Ok((o, r)) => {
            let t = TripleView { subject: subj, predicate: pred, object: o };
            let r1 = skip_ws(r);
            if r1.len() > 0 && r1[0] == ',' {
                proof {
                    lemma_skip_ws_len(s);
                    lemma_object_len(s1, m);
                    lemma_skip_ws_len(r);
                }
                match objects(subj, pred, r1.drop_first(), m) {
                    Ok((ts, r2)) => Ok((seq![t] + ts, r2)),
                    Err(e) => Err(e),
                }
            } else {
                Ok((seq![t], r1))
            }
        },
    }
}

/// At most the first forty characters of `s`.
pub open spec fn snippet(s: Seq<char>) -> Seq<char> {
    if s.len() <= 40 {
        s
    } else {
        s.take(40)
    }
}

/// The predicate-object lists of one subject: separated by `;`, ended by `.`.
pub open spec fn predicate_lists(subj: SubjectView, s: Seq<char>, m: Map<Seq<char>, Seq<char>>) -> Result<
    (Seq<TripleView>, Seq<char>),
    Seq<char>,
>
    decreases s.len(),
{
    let s1 = skip_ws(s);
    match predicate(s1, m) {
        Err(e) => Err(e),
        Ok((p, r)) => match objects(subj, p, r, m) {
            Err(e) => Err(e),
            Ok((ts, r2)) => {
                let r3 = skip_ws(r2);
                if r3.len() > 0 && r3[0] == ';' {
                    proof {
                        lemma_skip_ws_len(s);
                        lemma_predicate_len(s1, m);
                        lemma_objects_len(subj, p, r, m);
                        lemma_skip_ws_len(r2);
                    }
                    match predicate_lists(subj, r3.drop_first(), m) {
                        Ok((more, r4)) => Ok((ts + more, r4)),
                        Err(e) => Err(e),
                    }
                } else if r3.len() > 0 && r3[0] == '.' {
                    Ok((ts, r3.drop_first()))
                } else {
                    Err("expected ';' or '.' at: "@ + quoted(snippet(r3)))
                }
            },
        },
    }
}

pub proof fn lemma_objects_len(subj: SubjectView, pred: Seq<char>, s: Seq<char>, m: Map<Seq<char>, Seq<char>>)
    ensures
        objects(subj, pred, s, m) matches Ok((_, r)) ==> r.len() < s.len() && r == s.skip(s.len() - r.len()),
    decreases s.len(),
{
    let s1 = skip_ws(s);
    lemma_skip_ws_len(s);
    lemma_object_len(s1, m);
    if let Ok((o, r)) = object(s1, m) {
        lemma_skip_ws_len(r);
        let r1 = skip_ws(r);
        assert(s1.skip(s1.len() - r.len()) =~= s.skip(s.len() - r.len()));
        assert(r.skip(r.len() - r1.len()) =~= s.skip(s.len() - r1.len()));
        if r1.len() > 0 && r1[0] == ',' {
            lemma_objects_len(subj, pred, r1.drop_first(), m);
            if let Ok((_, r2)) = objects(subj, pred, r1.drop_first(), m) {
                assert(r1.drop_first().skip(r1.drop_first().len() - r2.len()) =~= s.skip(s.len() - r2.len()));
            }
        }
    }
}

pub proof fn lemma_predicate_lists_len(subj: SubjectView, s: Seq<char>, m: Map<Seq<char>, Seq<char>>)
    ensures
        predicate_lists(subj, s, m) matches Ok((_, r)) ==> r.len() < s.len() && r == s.skip(s.len() - r.len()),
    decreases s.len(),
{
    let s1 = skip_ws(s);
    lemma_skip_ws_len(s);
    lemma_predicate_len(s1, m);
    if let Ok((p, r)) = predicate(s1, m) {
        lemma_objects_len(subj, p, r, m);
        if let Ok((ts, r2)) = objects(subj, p, r, m) {
            lemma_skip_ws_len(r2);
            let r3 = skip_ws(r2);
            assert(s1.skip(s1.len() - r.len()) =~= s.skip(s.len() - r.len()));
            assert(r.skip(r.len() - r2.len()) =~= s.skip(s.len() - r2.len()));
            assert(r2.skip(r2.len() - r3.len()) =~= s.skip(s.len() - r3.len()));
            if r3.len() > 0 && r3[0] == ';' {
                lemma_predicate_lists_len(subj, r3.drop_first(), m);
                if let Ok((_, r4)) = predicate_lists(subj, r3.drop_first(), m) {
                    assert(r3.drop_first().skip(r3.drop_first().len() - r4.len()) =~= s.skip(s.len() - r4.len()));
                }
            } else if r3.len() > 0 && r3[0] == '.' {
                assert(r3.drop_first() =~= s.skip(s.len() - r3.drop_first().len()));
            }
        }
    }
}

/// The triples of one statement: a subject and its predicate lists.
pub open spec fn statement(s: Seq<char>, m: Map<Seq<char>, Seq<char>>) -> Result<(Seq<TripleView>, Seq<char>), Seq<char>> {
    match resource(s, m) {
        Err(e) => Err(e),
        Ok((subj, r)) => predicate_lists(subj, r, m),
    }
}

/// The triples of the statements in `s`, in order.
pub open spec fn statements(s: Seq<char>, m: Map<Seq<char>, Seq<char>>) -> Result<Seq<TripleView>, Seq<char>>
    decreases s.len(),
{
    let s1 = skip_ws(s);
    if s1.len() == 0 {
        Ok(seq![])
    } else {
        match statement(s1, m) {
            Err(e) => Err(e),
            Ok((ts, r)) => {
                proof {
                    lemma_skip_ws_len(s);
                    lemma_resource_len(s1, m);
                    if let Ok((subj, r0)) = resource(s1, m) {
                        lemma_predicate_lists_len(subj, r0, m);
                    }
                }
                match statements(r, m) {
                    Ok(more) => Ok(ts + more),
                    Err(e) => Err(e),
                }
            },
        }
    }
}

/// The `@prefix` directives at the start of `s`: the bindings they add to
/// `m` and what follows them.
pub open spec fn directives(s: Seq<char>, m: Map<Seq<char>, Seq<char>>) -> Result<
    (Seq<char>, Map<Seq<char>, Seq<char>>),
    Seq<char>,
>
    decreases s.len(),
{
    let s1 = skip_ws(s);
    if !"@prefix"@.is_prefix_of(s1) {
        Ok((s1, m))
    } else {
        let s2 = skip_ws(s1.skip(7));
        match index_of(s2, ':') {
            None => Err("missing ':' in @prefix"@),
            Some(k) => {
                let s3 = skip_ws(s2.skip(k + 1));
                if !(s3.len() > 0 && s3[0] == '<') {
                    Err("expected <iri> after @prefix"@)
                } else {
                    let s4 = s3.drop_first();
                    match index_of(s4, '>') {
                        None => Err("unterminated @prefix IRI"@),
                        Some(c) => {
                            let s5 = skip_ws(s4.skip(c + 1));
                            if !(s5.len() > 0 && s5[0] == '.') {
                                Err("expected '.' after @prefix"@)
                            } else {
                                proof {
                                    reveal_strlit("@prefix");
                                    assert("@prefix"@.len() == 7);
                                    lemma_skip_ws_len(s);
                                    lemma_skip_ws_len(s1.skip(7));
                                    crate::text::lemma_index_of(s2, ':');
                                    lemma_skip_ws_len(s2.skip(k + 1));
                                    crate::text::lemma_index_of(s4, '>');
                                    lemma_skip_ws_len(s4.skip(c + 1));
                                }
                                directives(s5.drop_first(), m.insert(trim(s2.take(k)), s4.take(c)))
                            }
                        },
                    }
                }
            },
        }
    }
}

/// The triples of a Turtle document, or why it is malformed.
pub open spec fn turtle_parsed(input: Seq<char>) -> Result<Seq<TripleView>, Seq<char>> {
    match directives(input, Map::empty()) {
        Err(e) => Err(e),
        Ok((s, m)) => statements(s, m),
    }
}

// ---------------------------------------------------------------------
// Parsing
// ---------------------------------------------------------------------

/// `vocab` resolves prefixes as `m` binds them.
pub open spec fn resolves(vocab: Vocabulary, m: Map<Seq<char>, Seq<char>>) -> bool {
    forall|p: Seq<char>| #[trigger] crate::schema::base_in(vocab.bindings@, p) == bound(m, p)
}

fn skip_ws_at(v: &Vec<char>, p: usize) -> (r: usize)
    requires
        p <= v@.len(),
    ensures
        p <= r <= v@.len(),
        v@.skip(r as int) == skip_ws(v@.skip(p as int)),
{
    let n = v.len();
    let mut i = p;
    loop
        invariant
            p <= i <= n,
            n == v@.len(),
            skip_ws(v@.skip(p as int)) == skip_ws(v@.skip(i as int)),
        decreases n - i,
    {
        if i == n {
            assert(v@.skip(i as int) =~= Seq::<char>::empty());
            return i;
        }
        let c = v[i];
        assert(v@.skip(i as int)[0] == c);
        if crate::text::is_space_char(c) {
            assert(v@.skip(i as int).drop_first() =~= v@.skip(i + 1));
            i = i + 1;
        } else if c == '#' {
            assert(v@.subrange(i as int, n as int) =~= v@.skip(i as int));
            match crate::text::find_char(v, i, n, '\n') {
                Some(k) => {
                    assert(v@.skip(i as int).skip(k - i + 1) =~= v@.skip(k + 1));
                    i = k + 1;
                },
                None => {
                    assert(v@.skip(n as int) =~= Seq::<char>::empty());
                    return n;
                },
            }
        } else {
            return i;
        }
    }
}

fn stop_at(v: &Vec<char>, p: usize) -> (r: usize)
    requires
        p <= v@.len(),
    ensures
        p <= r <= v@.len(),
        r - p == stop_end(v@.skip(p as int)),
{
    let n = v.len();
    let mut i = p;
    while i < n && !crate::text::is_space_char(v[i]) && v[i] != '.' && v[i] != ';' && v[i] != ','
        invariant
            p <= i <= n,
            n == v@.len(),
            stop_end(v@.skip(p as int)) == (i - p) + stop_end(v@.skip(i as int)),
        decreases n - i,
    {
        assert(v@.skip(i as int).drop_first() =~= v@.skip(i + 1));
        i = i + 1;
    }
    if i < n {
        assert(v@.skip(i as int)[0] == v@[i as int]);
    }
    i
}

fn quote_text(t: &String) -> (r: String)
    ensures
        r@ == quoted(t@),
{
    let r = String::from_str("\"").concat(t.as_str()).concat("\"");
    assert(r@ =~= quoted(t@)) by {
        reveal_strlit("\"");
    }
    r
}

fn parse_resource(v: &Vec<char>, p: usize, vocab: &Vocabulary, Ghost(m): Ghost<Map<Seq<char>, Seq<char>>>) -> (r: Result<
    (Subject, usize),
    String,
>)
    requires
        p <= v@.len(),
        resolves(*vocab, m),
    ensures
        match r {
            Ok((t, q)) => p <= q <= v@.len() && resource(v@.skip(p as int), m) == Ok::<(SubjectView, Seq<char>), Seq<char>>(
                (t@, v@.skip(q as int)),
            ),
            Err(e) => resource(v@.skip(p as int), m) == Err::<(SubjectView, Seq<char>), Seq<char>>(e@),
        },
{
    let n = v.len();
    let ghost s = v@.skip(p as int);
    assert(v@.subrange(p as int, n as int) =~= s);
    if p < n && v[p] == '<' {
        match crate::text::find_char(v, p, n, '>') {
            Some(c) => {
                proof {
                    crate::text::lemma_index_of(s, '>');
                }
                assert(s.subrange(1, c - p) =~= v@.subrange(p + 1, c as int));
                assert(s.skip(c - p + 1) =~= v@.skip(c + 1));
                return Ok((Subject::Iri(crate::text::string_of_range(v, p + 1, c)), c + 1));
            },
            None => {
                return Err(String::from_str("unterminated IRI"));
            },
        }
    }
    if n - p >= 2 && v[p] == '_' && v[p + 1] == ':' {
        let e = stop_at(v, p + 2);
        let ghost a = s.skip(2);
        assert(a =~= v@.skip(p + 2));
        assert(a.take(stop_end(a)) =~= v@.subrange(p + 2, e as int));
        assert(a.skip(stop_end(a)) =~= v@.skip(e as int));
        return Ok((Subject::Blank(crate::text::string_of_range(v, p + 2, e)), e));
    }
    let e = stop_at(v, p);
    let ghost tok = s.take(stop_end(s));
    assert(tok =~= v@.subrange(p as int, e as int));
    match crate::text::find_char(v, p, e, ':') {
        None => {
            let t = crate::text::string_of_range(v, p, e);
            Err(String::from_str("unrecognized token ").concat(quote_text(&t).as_str()))
        },
        Some(c) => {
            proof {
                crate::text::lemma_index_of(tok, ':');
            }
            let prefix = crate::text::string_of_range(v, p, c);
            assert(prefix@ =~= tok.take(c - p));
            match vocab.base(&prefix) {
                Some(b) => {
                    let local = crate::text::string_of_range(v, c + 1, e);
                    assert(local@ =~= tok.skip(c - p + 1));
                    assert(s.skip(stop_end(s)) =~= v@.skip(e as int));
                    Ok((Subject::Iri(b.clone().concat(local.as_str())), e))
                },
                None => Err(String::from_str("unknown prefix ").concat(quote_text(&prefix).as_str())),
            }
        },
    }
}

proof fn lemma_prefixed_twice(p: Seq<char>, q: Seq<char>, r: Result<(Seq<char>, Seq<char>), Seq<char>>)
    ensures
        prefixed(p, prefixed(q, r)) == prefixed(p + q, r),
{
    match r {
        Ok((lex, rest)) => {
            assert(p + (q + lex) =~= (p + q) + lex);
        },
        Err(_) => {},
    }
}

fn parse_literal_text(v: &Vec<char>, p: usize) -> (r: Result<(String, usize), String>)
    requires
        p <= v@.len(),
    ensures
        match r {
            Ok((lex, q)) => p <= q <= v@.len() && literal_text(v@.skip(p as int)) == Ok::<(Seq<char>, Seq<char>), Seq<char>>(
                (lex@, v@.skip(q as int)),
            ),
            Err(e) => literal_text(v@.skip(p as int)) == Err::<(Seq<char>, Seq<char>), Seq<char>>(e@),
        },
{
    let n = v.len();
    let mut acc: Vec<char> = Vec::new();
    let mut i = p;
    assert(prefixed(seq![], literal_text(v@.skip(p as int))) == literal_text(v@.skip(p as int))) by {
        match literal_text(v@.skip(p as int)) {
            Ok((lex, rest)) => {
                assert(Seq::<char>::empty() + lex =~= lex);
            },
            Err(_) => {},
        }
    }
    assert(acc@ =~= Seq::<char>::empty());
    loop
        invariant
            p <= i <= n,
            n == v@.len(),
            literal_text(v@.skip(p as int)) == prefixed(acc@, literal_text(v@.skip(i as int))),
        decreases n - i,
    {
        let ghost s = v@.skip(i as int);
        let ghost before = acc@;
        if i == n {
            return Err(String::from_str("unterminated literal"));
        }
        let c = v[i];
        assert(s[0] == c);
        if c == '\\' {
            if n - i < 2 {
                return Err(String::from_str("dangling escape"));
            }
            let e = v[i + 1];
            assert(s[1] == e);
            assert(s.skip(2) =~= v@.skip(i + 2));
            let out = if e == 'n' {
                '\n'
            } else if e == 'r' {
                '\r'
            } else if e == 't' {
                '\t'
            } else {
                e
            };
            acc.push(out);
            proof {
                lemma_prefixed_twice(before, seq![out], literal_text(v@.skip(i + 2)));
                assert(before + seq![out] =~= acc@);
            }
            i = i + 2;
        } else if c == '"' {
            assert(s.drop_first() =~= v@.skip(i + 1));
            return Ok((string_of_chars(&acc), i + 1));
        } else {
            acc.push(c);
            proof {
                assert(s.drop_first() =~= v@.skip(i + 1));
                lemma_prefixed_twice(before, seq![c], literal_text(v@.skip(i + 1)));
                assert(before + seq![c] =~= acc@);
            }
            i = i + 1;
        }
    }
}

fn parse_object(v: &Vec<char>, p: usize, vocab: &Vocabulary, Ghost(m): Ghost<Map<Seq<char>, Seq<char>>>) -> (r: Result<
    (Object, usize),
    String,
>)
    requires
        p <= v@.len(),
        resolves(*vocab, m),
    ensures
        match r {
            Ok((o, q)) => p <= q <= v@.len() && object(v@.skip(p as int), m) == Ok::<(ObjectView, Seq<char>), Seq<char>>(
                (o@, v@.skip(q as int)),
            ),
            Err(e) => object(v@.skip(p as int), m) == Err::<(ObjectView, Seq<char>), Seq<char>>(e@),
        },
{
    let n = v.len();
    let ghost s = v@.skip(p as int);
    if p < n && v[p] == '"' {
        assert(s[0] == '"');
        assert(s.drop_first() =~= v@.skip(p + 1));
        let (lexical, q) = match parse_literal_text(v, p + 1) {
            Ok(x) => x,
            Err(e) => {
                return Err(e);
            },
        };
        let ghost r = v@.skip(q as int);
        if q < n && v[q] == '@' {
            let e = stop_at(v, q + 1);
            let ghost l = r.drop_first();
            assert(l =~= v@.skip(q + 1));
            assert(l.take(stop_end(l)) =~= v@.subrange(q + 1, e as int));
            assert(l.skip(stop_end(l)) =~= v@.skip(e as int));
            let o = Object::Literal {
                lexical,
                datatype: String::from_str(RDF_LANG_STRING),
                language: Some(crate::text::string_of_range(v, q + 1, e)),
            };
            return Ok((o, e));
        }
        if n - q >= 2 && v[q] == '^' && v[q + 1] == '^' {
            assert(r.skip(2) =~= v@.skip(q + 2));
            match parse_resource(v, q + 2, vocab, Ghost(m)) {
                Err(e) => {
                    return Err(e);
                },
                Ok((Subject::Iri(i), q2)) => {
                    return Ok((Object::Literal { lexical, datatype: i, language: None }, q2));
                },
                Ok((Subject::Blank(_), q2)) => {
                    return Ok((Object::Literal { lexical, datatype: String::from_str(XSD_STRING), language: None }, q2));
                },
            }
        }
        return Ok((Object::Literal { lexical, datatype: String::from_str(XSD_STRING), language: None }, q));
    }
    match parse_resource(v, p, vocab, Ghost(m)) {
        Err(e) => Err(e),
        Ok((Subject::Iri(i), q)) => Ok((Object::Iri(i), q)),
        Ok((Subject::Blank(b), q)) => Ok((Object::Blank(b), q)),
    }
}

fn parse_predicate(v: &Vec<char>, p: usize, vocab: &Vocabulary, Ghost(m): Ghost<Map<Seq<char>, Seq<char>>>) -> (r: Result<
    (String, usize),
    String,
>)
    requires
        p <= v@.len(),
        resolves(*vocab, m),
    ensures
        match r {
            Ok((i, q)) => p <= q <= v@.len() && predicate(v@.skip(p as int), m) == Ok::<(Seq<char>, Seq<char>), Seq<char>>(
                (i@, v@.skip(q as int)),
            ),
            Err(e) => predicate(v@.skip(p as int), m) == Err::<(Seq<char>, Seq<char>), Seq<char>>(e@),
        },
{
    let n = v.len();
    let ghost s = v@.skip(p as int);
    if n - p >= 2 && v[p] == 'a' && crate::text::is_space_char(v[p + 1]) {
        assert(s[0] == 'a' && s[1] == v@[p + 1]);
        assert(s.drop_first() =~= v@.skip(p + 1));
        return Ok((String::from_str(RDF_TYPE), p + 1));
    }
    match parse_resource(v, p, vocab, Ghost(m)) {
        Err(e) => Err(e),
        Ok((Subject::Iri(i), q)) => Ok((i, q)),
        Ok((Subject::Blank(_), _)) => Err(String::from_str("predicate must be an IRI")),
    }
}

fn copy_subject(s: &Subject) -> (r: Subject)
    ensures
        r@ == s@,
{
    match s {
        Subject::Iri(i) => Subject::Iri(i.clone()),
        Subject::Blank(b) => Subject::Blank(b.clone()),
    }
}

/// `acc` before the triples of `r`.
pub open spec fn after_pair(acc: Seq<TripleView>, r: Result<(Seq<TripleView>, Seq<char>), Seq<char>>) -> Result<
    (Seq<TripleView>, Seq<char>),
    Seq<char>,
> {
    match r {
        Ok((ts, rest)) => Ok((acc + ts, rest)),
        Err(e) => Err(e),
    }
}

proof fn lemma_after_pair_push(acc: Seq<TripleView>, t: TripleView, r: Result<(Seq<TripleView>, Seq<char>), Seq<char>>)
    ensures
        after_pair(acc, match r {
            Ok((ts, rest)) => Ok((seq![t] + ts, rest)),
            Err(e) => Err(e),
        }) == after_pair(acc.push(t), r),
{
    if let Ok((ts, rest)) = r {
        assert(acc + (seq![t] + ts) =~= acc.push(t) + ts);
    }
}

fn parse_objects(
    out: &mut Vec<Triple>,
    subj: &Subject,
    pred: &String,
    v: &Vec<char>,
    p: usize,
    vocab: &Vocabulary,
    Ghost(m): Ghost<Map<Seq<char>, Seq<char>>>,
) -> (r: Result<usize, String>)
    requires
        p <= v@.len(),
        resolves(*vocab, m),
    ensures
        match r {
            Ok(q) => p <= q <= v@.len() && after_pair(triples_view(old(out)@), objects(subj@, pred@, v@.skip(p as int), m))
                == Ok::<(Seq<TripleView>, Seq<char>), Seq<char>>((triples_view(final(out)@), v@.skip(q as int))),
            Err(e) => objects(subj@, pred@, v@.skip(p as int), m) == Err::<(Seq<TripleView>, Seq<char>), Seq<char>>(e@),
        },
{
    let ghost acc0 = triples_view(out@);
    let ghost goal = after_pair(acc0, objects(subj@, pred@, v@.skip(p as int), m));
    let mut i = p;
    loop
        invariant
            p <= i <= v@.len(),
            resolves(*vocab, m),
            acc0 == triples_view(old(out)@),
            goal == after_pair(acc0, objects(subj@, pred@, v@.skip(p as int), m)),
            goal == after_pair(triples_view(out@), objects(subj@, pred@, v@.skip(i as int), m)),
            objects(subj@, pred@, v@.skip(p as int), m) is Err ==> goal == objects(subj@, pred@, v@.skip(p as int), m),
        decreases v@.len() - i,
    {
        let ghost acc = triples_view(out@);
        let i1 = skip_ws_at(v, i);
        let (o, q) = match parse_object(v, i1, vocab, Ghost(m)) {
            Ok(x) => x,
            Err(e) => {
                return Err(e);
            },
        };
        let ghost t = TripleView { subject: subj@, predicate: pred@, object: o@ };
        let triple = Triple { subject: copy_subject(subj), predicate: pred.clone(), object: o };
        assert(triple@ == t);
        out.push(triple);
        assert(triples_view(out@) =~= acc.push(t));
        let r1 = skip_ws_at(v, q);
        if r1 < v.len() && v[r1] == ',' {
            assert(v@.skip(r1 as int)[0] == ',');
            assert(v@.skip(r1 as int).drop_first() =~= v@.skip(r1 + 1));
            proof {
                lemma_after_pair_push(acc, t, objects(subj@, pred@, v@.skip(r1 + 1), m));
            }
            i = r1 + 1;
        } else {
            proof {
                if r1 < v.len() {
                    assert(v@.skip(r1 as int)[0] == v@[r1 as int]);
                }
                assert(acc + seq![t] =~= acc.push(t));
            }
            return Ok(r1);
        }
    }
}

proof fn lemma_after_pair_concat(
    acc: Seq<TripleView>,
    ts: Seq<TripleView>,
    r: Result<(Seq<TripleView>, Seq<char>), Seq<char>>,
)
    ensures
        after_pair(acc, match r {
            Ok((more, rest)) => Ok((ts + more, rest)),
            Err(e) => Err(e),
        }) == after_pair(acc + ts, r),
{
    if let Ok((more, rest)) = r {
        assert(acc + (ts + more) =~= (acc + ts) + more);
    }
}

fn snippet_at(v: &Vec<char>, p: usize) -> (r: String)
    requires
        p <= v@.len(),
    ensures
        r@ == snippet(v@.skip(p as int)),
{
    let n = v.len();
    let e = if n - p <= 40 { n } else { p + 40 };
    let r = crate::text::string_of_range(v, p, e);
    assert(r@ =~= snippet(v@.skip(p as int)));
    r
}

fn parse_predicate_lists(
    out: &mut Vec<Triple>,
    subj: &Subject,
    v: &Vec<char>,
    p: usize,
    vocab: &Vocabulary,
    Ghost(m): Ghost<Map<Seq<char>, Seq<char>>>,
) -> (r: Result<usize, String>)
    requires
        p <= v@.len(),
        resolves(*vocab, m),
    ensures
        match r {
            Ok(q) => p <= q <= v@.len() && after_pair(triples_view(old(out)@), predicate_lists(subj@, v@.skip(p as int), m))
                == Ok::<(Seq<TripleView>, Seq<char>), Seq<char>>((triples_view(final(out)@), v@.skip(q as int))),
            Err(e) => predicate_lists(subj@, v@.skip(p as int), m) == Err::<(Seq<TripleView>, Seq<char>), Seq<char>>(e@),
        },
{
    let ghost acc0 = triples_view(out@);
    let ghost goal = after_pair(acc0, predicate_lists(subj@, v@.skip(p as int), m));
    let mut i = p;
    loop
        invariant
            p <= i <= v@.len(),
            resolves(*vocab, m),
            acc0 == triples_view(old(out)@),
            goal == after_pair(acc0, predicate_lists(subj@, v@.skip(p as int), m)),
            goal == after_pair(triples_view(out@), predicate_lists(subj@, v@.skip(i as int), m)),
        decreases v@.len() - i,
    {
        let ghost acc = triples_view(out@);
        let i1 = skip_ws_at(v, i);
        let (pred, q) = match parse_predicate(v, i1, vocab, Ghost(m)) {
            Ok(x) => x,
            Err(e) => {
                return Err(e);
            },
        };
        let q2 = match parse_objects(out, subj, &pred, v, q, vocab, Ghost(m)) {
            Ok(x) => x,
            Err(e) => {
                return Err(e);
            },
        };
        let ghost ts = triples_view(out@).skip(acc.len() as int);
        proof {
            let ob = objects(subj@, pred@, v@.skip(q as int), m);
            assert(ob matches Ok((t2, _)) && acc + t2 == triples_view(out@));
            if let Ok((t2, _)) = ob {
                assert(triples_view(out@).skip(acc.len() as int) =~= t2);
            }
        }
        let r3 = skip_ws_at(v, q2);
        if r3 < v.len() && v[r3] == ';' {
            assert(v@.skip(r3 as int)[0] == ';');
            assert(v@.skip(r3 as int).drop_first() =~= v@.skip(r3 + 1));
            proof {
                lemma_after_pair_concat(acc, ts, predicate_lists(subj@, v@.skip(r3 + 1), m));
                assert(acc + ts =~= triples_view(out@));
            }
            i = r3 + 1;
        } else if r3 < v.len() && v[r3] == '.' {
            assert(v@.skip(r3 as int)[0] == '.');
            assert(v@.skip(r3 as int).drop_first() =~= v@.skip(r3 + 1));
            assert(acc + ts =~= triples_view(out@));
            return Ok(r3 + 1);
        } else {
            proof {
                if r3 < v.len() {
                    assert(v@.skip(r3 as int)[0] == v@[r3 as int]);
                }
            }
            let msg = String::from_str("expected ';' or '.' at: ").concat(quote_text(&snippet_at(v, r3)).as_str());
            return Err(msg);
        }
    }
}

/// `acc` before the triples of `r`.
pub open spec fn after_all(acc: Seq<TripleView>, r: Result<Seq<TripleView>, Seq<char>>) -> Result<
    Seq<TripleView>,
    Seq<char>,
> {
    match r {
        Ok(ts) => Ok(acc + ts),
        Err(e) => Err(e),
    }
}

fn parse_statements(v: &Vec<char>, p: usize, vocab: &Vocabulary, Ghost(m): Ghost<Map<Seq<char>, Seq<char>>>) -> (r: Result<
    Vec<Triple>,
    String,
>)
    requires
        p <= v@.len(),
        resolves(*vocab, m),
    ensures
        match r {
            Ok(ts) => statements(v@.skip(p as int), m) == Ok::<Seq<TripleView>, Seq<char>>(triples_view(ts@)),
            Err(e) => statements(v@.skip(p as int), m) == Err::<Seq<TripleView>, Seq<char>>(e@),
        },
{
    let mut out: Vec<Triple> = Vec::new();
    let mut i = p;
    assert(after_all(triples_view(out@), statements(v@.skip(p as int), m)) == statements(v@.skip(p as int), m)) by {
        if let Ok(ts) = statements(v@.skip(p as int), m) {
            assert(triples_view(out@) + ts =~= ts);
        }
    }
    loop
        invariant
            p <= i <= v@.len(),
            resolves(*vocab, m),
            statements(v@.skip(p as int), m) == after_all(triples_view(out@), statements(v@.skip(i as int), m)),
        decreases v@.len() - i,
    {
        let ghost acc = triples_view(out@);
        let s1 = skip_ws_at(v, i);
        if s1 == v.len() {
            assert(v@.skip(s1 as int) =~= Seq::<char>::empty());
            assert(acc + Seq::<TripleView>::empty() =~= acc);
            return Ok(out);
        }
        let subj = match parse_resource(v, s1, vocab, Ghost(m)) {
            Ok((subj, q)) => {
                match parse_predicate_lists(&mut out, &subj, v, q, vocab, Ghost(m)) {
                    Ok(r) => {
                        proof {
                            lemma_predicate_lists_len(subj@, v@.skip(q as int), m);
                            let pl = predicate_lists(subj@, v@.skip(q as int), m);
                            if let Ok((ts, _)) = pl {
                                assert(acc + ts == triples_view(out@));
                                lemma_statements_after(acc, ts, statements(v@.skip(r as int), m));
                            }
                        }
                        i = r;
                    },
                    Err(e) => {
                        return Err(e);
                    },
                }
            },
            Err(e) => {
                return Err(e);
            },
        };
    }
}

proof fn lemma_statements_after(acc: Seq<TripleView>, ts: Seq<TripleView>, r: Result<Seq<TripleView>, Seq<char>>)
    ensures
        after_all(acc, match r {
            Ok(more) => Ok(ts + more),
            Err(e) => Err(e),
        }) == after_all(acc + ts, r),
{
    if let Ok(more) = r {
        assert(acc + (ts + more) =~= (acc + ts) + more);
    }
}

/// The bindings `vocab` holds as a map.
fn parse_directives(v: &Vec<char>, vocab: &mut Vocabulary, Ghost(m0): Ghost<Map<Seq<char>, Seq<char>>>) -> (r: Result<
    (usize, Ghost<Map<Seq<char>, Seq<char>>>),
    String,
>)
    requires
        resolves(*old(vocab), m0),
    ensures
        match r {
            Ok((q, gm)) => q <= v@.len() && resolves(*final(vocab), gm@) && directives(v@, m0) == Ok::<
                (Seq<char>, Map<Seq<char>, Seq<char>>),
                Seq<char>,
            >((v@.skip(q as int), gm@)),
            Err(e) => directives(v@, m0) == Err::<(Seq<char>, Map<Seq<char>, Seq<char>>), Seq<char>>(e@),
        },
{
    let n = v.len();
    let mut i: usize = 0;
    let ghost mut m = m0;
    assert(v@.skip(0) =~= v@);
    loop
        invariant
            i <= n,
            n == v@.len(),
            resolves(*vocab, m),
            directives(v@, m0) == directives(v@.skip(i as int), m),
        decreases n - i,
    {
        let s1 = skip_ws_at(v, i);
        let ghost t1 = v@.skip(s1 as int);
        proof {
            reveal_strlit("@prefix");
        }
        let is_prefix = n - s1 >= 7 && v[s1] == '@' && v[s1 + 1] == 'p' && v[s1 + 2] == 'r' && v[s1 + 3] == 'e'
            && v[s1 + 4] == 'f' && v[s1 + 5] == 'i' && v[s1 + 6] == 'x';
        assert(is_prefix == "@prefix"@.is_prefix_of(t1)) by {
            let w = seq!['@', 'p', 'r', 'e', 'f', 'i', 'x'];
            assert("@prefix"@ =~= w);
            if is_prefix {
                assert forall|k: int| 0 <= k < 7 implies w[k] == t1[k] by {
                    assert(t1[k] == v@[s1 + k]);
                }
                assert(w.is_prefix_of(t1));
            } else if w.is_prefix_of(t1) {
                assert(t1.len() >= 7);
                assert(t1[0] == v@[s1 as int] && t1[1] == v@[s1 + 1] && t1[2] == v@[s1 + 2] && t1[3] == v@[s1 + 3]);
                assert(t1[4] == v@[s1 + 4] && t1[5] == v@[s1 + 5] && t1[6] == v@[s1 + 6]);
                assert(w[0] == t1[0] && w[1] == t1[1] && w[2] == t1[2] && w[3] == t1[3]);
                assert(w[4] == t1[4] && w[5] == t1[5] && w[6] == t1[6]);
            }
        }
        if !is_prefix {
            return Ok((s1, Ghost(m)));
        }
        assert(t1.skip(7) =~= v@.skip(s1 + 7));
        let s2 = skip_ws_at(v, s1 + 7);
        let ghost t2 = v@.skip(s2 as int);
        assert(v@.subrange(s2 as int, n as int) =~= t2);
        let k = match crate::text::find_char(v, s2, n, ':') {
            None => {
                return Err(String::from_str("missing ':' in @prefix"));
            },
            Some(k) => k,
        };
        proof {
            crate::text::lemma_index_of(t2, ':');
        }
        let pa = crate::text::skip_space(v, s2, k);
        let pb = crate::text::back_space(v, pa, k);
        let prefix = crate::text::string_of_range(v, pa, pb);
        assert(v@.subrange(s2 as int, k as int) =~= t2.take(k - s2));
        assert(prefix@ == trim(t2.take(k - s2)));
        assert(t2.skip(k - s2 + 1) =~= v@.skip(k + 1));
        let s3 = skip_ws_at(v, k + 1);
        let ghost t3 = v@.skip(s3 as int);
        if !(s3 < n && v[s3] == '<') {
            proof {
                if s3 < n {
                    assert(t3[0] == v@[s3 as int]);
                }
            }
            return Err(String::from_str("expected <iri> after @prefix"));
        }
        assert(t3[0] == '<');
        let ghost t4 = t3.drop_first();
        assert(t4 =~= v@.skip(s3 + 1));
        assert(v@.subrange(s3 + 1, n as int) =~= t4);
        let c = match crate::text::find_char(v, s3 + 1, n, '>') {
            None => {
                return Err(String::from_str("unterminated @prefix IRI"));
            },
            Some(c) => c,
        };
        proof {
            crate::text::lemma_index_of(t4, '>');
        }
        let base = crate::text::string_of_range(v, s3 + 1, c);
        assert(base@ =~= t4.take(c - (s3 + 1)));
        assert(t4.skip(c - (s3 + 1) + 1) =~= v@.skip(c + 1));
        let s5 = skip_ws_at(v, c + 1);
        let ghost t5 = v@.skip(s5 as int);
        if !(s5 < n && v[s5] == '.') {
            proof {
                if s5 < n {
                    assert(t5[0] == v@[s5 as int]);
                }
            }
            return Err(String::from_str("expected '.' after @prefix"));
        }
        assert(t5[0] == '.');
        assert(t5.drop_first() =~= v@.skip(s5 + 1));
        let ghost pv = prefix@;
        let ghost bv = base@;
        vocab.bind(prefix, base);
        proof {
            m = m.insert(pv, bv);
            assert forall|q: Seq<char>| #[trigger] crate::schema::base_in(vocab.bindings@, q) == bound(m, q) by {}
        }
        i = s5 + 1;
    }
}

/// Parse a Turtle document: `@prefix` directives, then statements.
pub fn parse(input: &str) -> (r: Result<Vec<Triple>, AdapterError>)
    ensures
        match r {
            Ok(ts) => turtle_parsed(input@) == Ok::<Seq<TripleView>, Seq<char>>(triples_view(ts@)),
            Err(e) => e matches AdapterError::Parse(m) && turtle_parsed(input@) == Err::<Seq<TripleView>, Seq<char>>(m@),
        },
{
    let v = chars_of(input);
    let mut vocab = Vocabulary::new();
    let ghost m0 = Map::<Seq<char>, Seq<char>>::empty();
    assert forall|q: Seq<char>| #[trigger] crate::schema::base_in(vocab.bindings@, q) == bound(m0, q) by {}
    let (start, Ghost(m)) = match parse_directives(&v, &mut vocab, Ghost(m0)) {
        Ok(x) => x,
        Err(e) => {
            return Err(AdapterError::Parse(e));
        },
    };
    match parse_statements(&v, start, &vocab, Ghost(m)) {
        Ok(ts) => Ok(ts),
        Err(e) => Err(AdapterError::Parse(e)),
    }
}

/// Parse a Turtle document into an ontology through [`from_rdf`].
pub fn read(input: &str) -> (r: Result<Ontology, AdapterError>)
    ensures
        match turtle_parsed(input@) {
            Ok(ts) => r matches Ok(o) && o.nodes@.len() == 0 && o.edges@.len() == 0 && o.axioms@.len() == 0
                && schema_declares(o.schema, imported_classes(ts), imported_properties(ts)),
            Err(m) => r matches Err(AdapterError::Parse(e)) && e@ == m,
        },
{
    let triples = match parse(input) {
        Ok(t) => t,
        Err(e) => {
            return Err(e);
        },
    };
    from_rdf(&triples)
}


// ---------------------------------------------------------------------
// Reading back what was written
// ---------------------------------------------------------------------

/// A character that continues a token: not whitespace, `.`, `;` or `,`.
pub open spec fn token_char(c: char) -> bool {
    !is_space(c) && c != '.' && c != ';' && c != ','
}

/// Text made only of token characters: a blank-node label, language tag
/// or CURIE local part that reads back whole.
pub open spec fn token_ok(s: Seq<char>) -> bool {
    forall|i: int| 0 <= i < s.len() ==> token_char(#[trigger] s[i])
}

/// Text that skipping whitespace and comments leaves in place.
pub open spec fn starts_plain(s: Seq<char>) -> bool {
    s.len() > 0 && !is_space(s[0]) && s[0] != '#'
}

proof fn lemma_skip_ws_plain(s: Seq<char>)
    requires
        starts_plain(s),
    ensures
        skip_ws(s) == s,
{
}

proof fn lemma_skip_ws_space(c: char, s: Seq<char>)
    requires
        is_space(c),
    ensures
        skip_ws(seq![c] + s) == skip_ws(s),
{
    assert((seq![c] + s)[0] == c);
    assert((seq![c] + s).drop_first() =~= s);
}

/// A token followed by a non-token character (or nothing) ends there.
proof fn lemma_stop_end_at(a: Seq<char>, b: Seq<char>)
    requires
        token_ok(a),
        b.len() == 0 || !token_char(b[0]),
    ensures
        stop_end(a + b) == a.len(),
    decreases a.len(),
{
    if a.len() == 0 {
        assert(a + b =~= b);
    } else {
        assert((a + b)[0] == a[0]);
        assert((a + b).drop_first() =~= a.drop_first() + b);
        assert forall|i: int| 0 <= i < a.drop_first().len() implies token_char(#[trigger] a.drop_first()[i]) by {
            assert(a.drop_first()[i] == a[i + 1]);
        }
        lemma_stop_end_at(a.drop_first(), b);
    }
}

/// The body of a written literal reads back as its lexical form.
proof fn lemma_literal_text_escaped(lex: Seq<char>, rest: Seq<char>)
    ensures
        literal_text(escaped(lex) + seq!['"'] + rest) == Ok::<(Seq<char>, Seq<char>), Seq<char>>((lex, rest)),
    decreases lex.len(),
{
    let input = escaped(lex) + seq!['"'] + rest;
    if lex.len() == 0 {
        assert(escaped(lex) =~= Seq::<char>::empty());
        assert(input =~= seq!['"'] + rest);
        assert(input[0] == '"');
        assert(input.drop_first() =~= rest);
        assert(lex =~= Seq::<char>::empty());
    } else {
        let c = lex[0];
        let tail = lex.drop_first();
        crate::ntriples::lemma_escaped_front(lex);
        lemma_literal_text_escaped(tail, rest);
        let later = escaped(tail) + seq!['"'] + rest;
        assert(input =~= crate::ntriples::escape_char(c) + later);
        if c == '\\' || c == '"' || c == '\n' || c == '\r' || c == '\t' {
            assert(input[0] == '\\');
            assert(input[1] == crate::ntriples::escape_char(c)[1]);
            assert(input.skip(2) =~= later);
            assert(literal_text(input) == prefixed(seq![c], literal_text(later)));
        } else {
            assert(input[0] == c);
            assert(input.drop_first() =~= later);
            assert(literal_text(input) == prefixed(seq![c], literal_text(later)));
        }
        assert(seq![c] + tail =~= lex);
    }
}

/// A prefix the writer can declare and the reader resolve: token
/// characters other than `:`, `<`, `>`, `"`, `#` and `@`, and not `_`
/// (which would read as a blank node).
pub open spec fn prefix_ok(p: Seq<char>) -> bool {
    &&& token_ok(p)
    &&& forall|i: int|
        0 <= i < p.len() ==> #[trigger] p[i] != ':' && p[i] != '<' && p[i] != '>' && p[i] != '"' && p[i] != '#'
            && p[i] != '@'
    &&& p != seq!['_']
}

/// Bindings the reader recovers from their `@prefix` lines: declarable
/// prefixes, one binding each, bases without `>`.
pub open spec fn bindings_ok(vs: Seq<(Seq<char>, Seq<char>)>) -> bool {
    &&& forall|k: int| 0 <= k < vs.len() ==> prefix_ok(#[trigger] vs[k].0) && !vs[k].1.contains('>')
    &&& forall|i: int, j: int| 0 <= i < j < vs.len() ==> vs[i].0 != vs[j].0
}

/// `m` with the bindings of `vs` added in turn.
pub open spec fn with_bindings(m: Map<Seq<char>, Seq<char>>, vs: Seq<(Seq<char>, Seq<char>)>) -> Map<
    Seq<char>,
    Seq<char>,
>
    decreases vs.len(),
{
    if vs.len() == 0 {
        m
    } else {
        with_bindings(m, vs.drop_last()).insert(vs.last().0, vs.last().1)
    }
}

/// `m` resolves each prefix of `vs` to its base.
pub open spec fn resolves_all(m: Map<Seq<char>, Seq<char>>, vs: Seq<(Seq<char>, Seq<char>)>) -> bool {
    forall|k: int| 0 <= k < vs.len() ==> bound(m, #[trigger] vs[k].0) == Some(vs[k].1)
}

proof fn lemma_with_bindings_resolves(vs: Seq<(Seq<char>, Seq<char>)>)
    requires
        forall|i: int, j: int| 0 <= i < j < vs.len() ==> vs[i].0 != vs[j].0,
    ensures
        resolves_all(with_bindings(Map::empty(), vs), vs),
    decreases vs.len(),
{
    if vs.len() > 0 {
        let d = vs.drop_last();
        lemma_with_bindings_resolves(d);
        let m = with_bindings(Map::empty(), vs);
        assert forall|k: int| 0 <= k < vs.len() implies bound(m, #[trigger] vs[k].0) == Some(vs[k].1) by {
            if k < vs.len() - 1 {
                assert(d[k] == vs[k]);
                assert(vs[k].0 != vs[vs.len() - 1].0);
            }
        }
    }
}

/// An IRI whose compact form reads back: in `<>` without `>`, or as a
/// CURIE whose local part is made of token characters.
pub open spec fn compacts_ok(vs: Seq<(Seq<char>, Seq<char>)>, iri: Seq<char>) -> bool
    decreases vs.len(),
{
    if vs.len() == 0 {
        !iri.contains('>')
    } else {
        let b = vs[0].1;
        let local = iri.skip(b.len() as int);
        if b.is_prefix_of(iri) && !local.contains(' ') && !local.contains('/') {
            token_ok(local)
        } else {
            compacts_ok(vs.drop_first(), iri)
        }
    }
}

/// Text a term can start with where a subject, predicate or object is
/// expected: not skipped as whitespace or a comment, not a literal, not a
/// directive, not the `a` keyword.
pub open spec fn term_start(s: Seq<char>) -> bool {
    &&& starts_plain(s)
    &&& s[0] != '"'
    &&& s[0] != '@'
    &&& !(s.len() >= 2 && s[0] == 'a' && is_space(s[1]))
}

/// The compact form of an IRI reads back as that IRI.
proof fn lemma_compact_reads(vs: Seq<(Seq<char>, Seq<char>)>, m: Map<Seq<char>, Seq<char>>, iri: Seq<char>, rest: Seq<char>)
    requires
        bindings_ok(vs),
        resolves_all(m, vs),
        compacts_ok(vs, iri),
        rest.len() > 0,
        !token_char(rest[0]),
    ensures
        resource(compact(vs, iri) + rest, m) == Ok::<(SubjectView, Seq<char>), Seq<char>>((SubjectView::Iri(iri), rest)),
        term_start(compact(vs, iri) + rest),
    decreases vs.len(),
{
    let s = compact(vs, iri) + rest;
    if vs.len() == 0 {
        let a = seq!['<'] + iri;
        assert(!a.contains('>')) by {
            if a.contains('>') {
                let k = choose|k: int| 0 <= k < a.len() && a[k] == '>';
                assert(k > 0);
                assert(iri[k - 1] == '>');
            }
        }
        crate::text::lemma_index_of_at(a, rest, '>');
        assert(s =~= a + seq!['>'] + rest);
        assert(s.subrange(1, a.len() as int) =~= iri);
        assert(s.skip(a.len() as int + 1) =~= rest);
    } else {
        let p = vs[0].0;
        let b = vs[0].1;
        let local = iri.skip(b.len() as int);
        if b.is_prefix_of(iri) && !local.contains(' ') && !local.contains('/') {
            assert(prefix_ok(p));
            let a = p + seq![':'] + local;
            assert(s =~= a + rest);
            assert(token_ok(a)) by {
                assert forall|i: int| 0 <= i < a.len() implies token_char(#[trigger] a[i]) by {
                    if i < p.len() {
                        assert(a[i] == p[i]);
                    } else if i > p.len() {
                        assert(a[i] == local[i - p.len() - 1]);
                    }
                }
            }
            lemma_stop_end_at(a, rest);
            assert(s.take(stop_end(s)) =~= a);
            assert(!p.contains(':')) by {
                if p.contains(':') {
                    let k = choose|k: int| 0 <= k < p.len() && p[k] == ':';
                    assert(p[k] != ':');
                }
            }
            crate::text::lemma_index_of_at(p, local, ':');
            assert(a.take(p.len() as int) =~= p);
            assert(a.skip(p.len() as int + 1) =~= local);
            assert(bound(m, vs[0].0) == Some(vs[0].1));
            assert(b + local =~= iri);
            assert(s.skip(stop_end(s)) =~= rest);
            assert(s[0] != '<') by {
                if p.len() > 0 {
                    assert(s[0] == p[0]);
                }
            }
            assert(!(s.len() >= 2 && s[0] == '_' && s[1] == ':')) by {
                if p.len() == 1 && s[0] == '_' {
                    assert(s[0] == p[0]);
                    assert(p =~= seq!['_']);
                } else if p.len() >= 2 {
                    assert(s[1] == p[1]);
                }
            }
            if p.len() > 0 {
                assert(s[0] == p[0]);
                if p.len() >= 2 {
                    assert(s[1] == p[1]);
                } else {
                    assert(s[1] == ':');
                }
            } else {
                assert(s[0] == ':');
            }
        } else {
            let d = vs.drop_first();
            assert forall|k: int| 0 <= k < d.len() implies prefix_ok(#[trigger] d[k].0) && !d[k].1.contains('>') by {
                assert(d[k] == vs[k + 1]);
            }
            assert forall|k: int| 0 <= k < d.len() implies bound(m, #[trigger] d[k].0) == Some(d[k].1) by {
                assert(d[k] == vs[k + 1]);
            }
            lemma_compact_reads(d, m, iri, rest);
        }
    }
}

/// A triple whose Turtle line reads back as itself under bindings `vs`:
/// IRIs whose compact forms read back, blank labels and language tags of
/// token characters, language-tagged literals typed `rdf:langString`.
pub open spec fn turtle_ok(vs: Seq<(Seq<char>, Seq<char>)>, t: TripleView) -> bool {
    &&& match t.subject {
        SubjectView::Iri(i) => compacts_ok(vs, i),
        SubjectView::Blank(l) => token_ok(l),
    }
    &&& compacts_ok(vs, t.predicate)
    &&& match t.object {
        ObjectView::Iri(i) => compacts_ok(vs, i),
        ObjectView::Blank(l) => token_ok(l),
        ObjectView::Literal(_, dt, lang) => match lang {
            Some(l) => token_ok(l) && dt == RDF_LANG_STRING@,
            None => dt == XSD_STRING@ || compacts_ok(vs, dt),
        },
    }
}

/// The blank-node text `_:label` reads back as that blank node.
proof fn lemma_blank_reads(l: Seq<char>, m: Map<Seq<char>, Seq<char>>, rest: Seq<char>)
    requires
        token_ok(l),
        rest.len() > 0,
        !token_char(rest[0]),
    ensures
        resource("_:"@ + l + rest, m) == Ok::<(SubjectView, Seq<char>), Seq<char>>((SubjectView::Blank(l), rest)),
        term_start("_:"@ + l + rest),
{
    reveal_strlit("_:");
    let s = "_:"@ + l + rest;
    assert(s[0] == '_' && s[1] == ':');
    assert(s.skip(2) =~= l + rest);
    lemma_stop_end_at(l, rest);
    assert((l + rest).take(l.len() as int) =~= l);
    assert((l + rest).skip(l.len() as int) =~= rest);
}

/// The text of a subject reads back as that subject.
proof fn lemma_subject_reads(
    vs: Seq<(Seq<char>, Seq<char>)>,
    m: Map<Seq<char>, Seq<char>>,
    sv: SubjectView,
    rest: Seq<char>,
)
    requires
        bindings_ok(vs),
        resolves_all(m, vs),
        match sv {
            SubjectView::Iri(i) => compacts_ok(vs, i),
            SubjectView::Blank(l) => token_ok(l),
        },
        rest.len() > 0,
        !token_char(rest[0]),
    ensures
        resource(subject_turtle(vs, sv) + rest, m) == Ok::<(SubjectView, Seq<char>), Seq<char>>((sv, rest)),
        term_start(subject_turtle(vs, sv) + rest),
{
    match sv {
        SubjectView::Iri(i) => lemma_compact_reads(vs, m, i, rest),
        SubjectView::Blank(l) => lemma_blank_reads(l, m, rest),
    }
}

/// The text of an object reads back as that object.
proof fn lemma_object_reads(
    vs: Seq<(Seq<char>, Seq<char>)>,
    m: Map<Seq<char>, Seq<char>>,
    o: ObjectView,
    rest: Seq<char>,
)
    requires
        bindings_ok(vs),
        resolves_all(m, vs),
        match o {
            ObjectView::Iri(i) => compacts_ok(vs, i),
            ObjectView::Blank(l) => token_ok(l),
            ObjectView::Literal(_, dt, lang) => match lang {
                Some(l) => token_ok(l) && dt == RDF_LANG_STRING@,
                None => dt == XSD_STRING@ || compacts_ok(vs, dt),
            },
        },
        rest.len() > 0,
        rest[0] == ' ',
    ensures
        object(object_turtle(vs, o) + rest, m) == Ok::<(ObjectView, Seq<char>), Seq<char>>((o, rest)),
        starts_plain(object_turtle(vs, o) + rest),
{
    assert(!token_char(rest[0]));
    match o {
        ObjectView::Iri(i) => lemma_compact_reads(vs, m, i, rest),
        ObjectView::Blank(l) => lemma_blank_reads(l, m, rest),
        ObjectView::Literal(lex, dt, lang) => {
            let suffix = match lang {
                Some(l) => seq!['@'] + l,
                None => if dt == XSD_STRING@ {
                    seq![]
                } else {
                    "^^"@ + compact(vs, dt)
                },
            };
            let s = object_turtle(vs, o) + rest;
            assert(s =~= seq!['"'] + (escaped(lex) + seq!['"'] + (suffix + rest)));
            assert(s.drop_first() =~= escaped(lex) + seq!['"'] + (suffix + rest));
            lemma_literal_text_escaped(lex, suffix + rest);
            let r = suffix + rest;
            match lang {
                Some(l) => {
                    assert(r[0] == '@');
                    assert(r.drop_first() =~= l + rest);
                    lemma_stop_end_at(l, rest);
                    assert((l + rest).take(l.len() as int) =~= l);
                    assert((l + rest).skip(l.len() as int) =~= rest);
                },
                None => {
                    if dt == XSD_STRING@ {
                        assert(r =~= rest);
                    } else {
                        reveal_strlit("^^");
                        assert(r[0] == '^' && r[1] == '^');
                        assert(r.skip(2) =~= compact(vs, dt) + rest);
                        lemma_compact_reads(vs, m, dt, rest);
                    }
                },
            }
        },
    }
}

/// The Turtle line of one triple.
pub open spec fn line_of(vs: Seq<(Seq<char>, Seq<char>)>, t: TripleView) -> Seq<char> {
    subject_turtle(vs, t.subject) + seq![' '] + compact(vs, t.predicate) + seq![' '] + object_turtle(vs, t.object)
        + " .\n"@
}

/// A triple's line reads back as that triple, and the newline that ends it.
proof fn lemma_statement_reads(
    vs: Seq<(Seq<char>, Seq<char>)>,
    m: Map<Seq<char>, Seq<char>>,
    t: TripleView,
    more: Seq<char>,
)
    requires
        bindings_ok(vs),
        resolves_all(m, vs),
        turtle_ok(vs, t),
    ensures
        statement(line_of(vs, t) + more, m) == Ok::<(Seq<TripleView>, Seq<char>), Seq<char>>((seq![t], seq!['\n'] + more)),
        term_start(line_of(vs, t) + more),
{
    reveal_strlit(" .\n");
    let st = subject_turtle(vs, t.subject);
    let pt = compact(vs, t.predicate);
    let ot = object_turtle(vs, t.object);
    let tail = " .\n"@ + more;
    let z = seq![' '] + (ot + tail);
    let y = pt + z;
    let x = seq![' '] + y;
    let s = st + x;
    assert(line_of(vs, t) + more =~= s);
    lemma_subject_reads(vs, m, t.subject, x);
    lemma_compact_reads(vs, m, t.predicate, z);
    lemma_object_reads(vs, m, t.object, tail);
    lemma_skip_ws_space(' ', y);
    lemma_skip_ws_plain(y);
    lemma_skip_ws_space(' ', ot + tail);
    lemma_skip_ws_plain(ot + tail);
    let r1 = seq!['.'] + (seq!['\n'] + more);
    assert(tail =~= seq![' '] + r1);
    lemma_skip_ws_space(' ', r1);
    lemma_skip_ws_plain(r1);
    assert(r1.drop_first() =~= seq!['\n'] + more);
    let tv = TripleView { subject: t.subject, predicate: t.predicate, object: t.object };
    assert(tv == t);
}

/// Written lines, read from the front: the first triple's line, then the rest.
proof fn lemma_turtle_lines_front(vs: Seq<(Seq<char>, Seq<char>)>, ts: Seq<TripleView>)
    requires
        ts.len() > 0,
    ensures
        turtle_lines(vs, ts) == line_of(vs, ts[0]) + turtle_lines(vs, ts.drop_first()),
    decreases ts.len(),
{
    if ts.len() == 1 {
        assert(ts.drop_last() =~= Seq::<TripleView>::empty());
        assert(ts.drop_first() =~= Seq::<TripleView>::empty());
        assert(ts.last() == ts[0]);
        assert(turtle_lines(vs, ts) =~= line_of(vs, ts[0]) + turtle_lines(vs, ts.drop_first()));
    } else {
        lemma_turtle_lines_front(vs, ts.drop_last());
        assert(ts.drop_last().drop_first() =~= ts.drop_first().drop_last());
        assert(ts.drop_first().last() == ts.last());
        assert(ts.drop_last()[0] == ts[0]);
        assert(turtle_lines(vs, ts) =~= line_of(vs, ts[0]) + turtle_lines(vs, ts.drop_first()));
    }
}

/// Written lines read back as their triples, in order.
proof fn lemma_statements_read(vs: Seq<(Seq<char>, Seq<char>)>, m: Map<Seq<char>, Seq<char>>, ts: Seq<TripleView>)
    requires
        bindings_ok(vs),
        resolves_all(m, vs),
        forall|i: int| 0 <= i < ts.len() ==> turtle_ok(vs, #[trigger] ts[i]),
    ensures
        statements(turtle_lines(vs, ts), m) == Ok::<Seq<TripleView>, Seq<char>>(ts),
        ts.len() > 0 ==> term_start(turtle_lines(vs, ts)),
    decreases ts.len(),
{
    if ts.len() == 0 {
        assert(turtle_lines(vs, ts) =~= Seq::<char>::empty());
        assert(skip_ws(turtle_lines(vs, ts)).len() == 0);
        assert(ts =~= Seq::<TripleView>::empty());
    } else {
        let rest = ts.drop_first();
        assert forall|i: int| 0 <= i < rest.len() implies turtle_ok(vs, #[trigger] rest[i]) by {
            assert(rest[i] == ts[i + 1]);
        }
        lemma_statements_read(vs, m, rest);
        lemma_turtle_lines_front(vs, ts);
        let l2 = turtle_lines(vs, rest);
        assert(turtle_ok(vs, ts[0]));
        lemma_statement_reads(vs, m, ts[0], l2);
        lemma_skip_ws_plain(line_of(vs, ts[0]) + l2);
        lemma_skip_ws_space('\n', l2);
        assert(statements(seq!['\n'] + l2, m) == statements(l2, m));
        let whole = line_of(vs, ts[0]) + l2;
        assert(skip_ws(whole) == whole);
        assert(whole.len() > 0);
        assert(statement(whole, m) == Ok::<(Seq<TripleView>, Seq<char>), Seq<char>>((seq![ts[0]], seq!['\n'] + l2)));
        assert(statements(whole, m) == Ok::<Seq<TripleView>, Seq<char>>(seq![ts[0]] + rest));
        assert(seq![ts[0]] + rest =~= ts);
    }
}

/// The `@prefix` line of one binding.
pub open spec fn prefix_line(p: Seq<char>, b: Seq<char>) -> Seq<char> {
    "@prefix "@ + p + ": <"@ + b + "> .\n"@
}

/// What follows a blank-line-or-whitespace start is read as if it were not there.
proof fn lemma_directives_skip(s: Seq<char>, t: Seq<char>, m: Map<Seq<char>, Seq<char>>)
    requires
        skip_ws(s) == skip_ws(t),
    ensures
        directives(s, m) == directives(t, m),
{
}

/// One `@prefix` line binds its prefix to its base.
proof fn lemma_directive_line(p: Seq<char>, b: Seq<char>, rest: Seq<char>, m: Map<Seq<char>, Seq<char>>)
    requires
        prefix_ok(p),
        !b.contains('>'),
    ensures
        directives(prefix_line(p, b) + rest, m) == directives(rest, m.insert(p, b)),
{
    reveal_strlit("@prefix ");
    reveal_strlit("@prefix");
    reveal_strlit(": <");
    reveal_strlit("> .\n");
    let s = prefix_line(p, b) + rest;
    let tail = seq![' ', '<'] + (b + (seq!['>', ' ', '.', '\n'] + rest));
    let s2 = p + (seq![':'] + tail);
    assert(s =~= "@prefix"@ + (seq![' '] + s2));
    assert(s[0] == '@');
    lemma_skip_ws_plain(s);
    assert("@prefix"@.is_prefix_of(s));
    assert(s.skip(7) =~= seq![' '] + s2);
    lemma_skip_ws_space(' ', s2);
    assert(starts_plain(s2)) by {
        if p.len() > 0 {
            assert(s2[0] == p[0]);
        } else {
            assert(s2[0] == ':');
        }
    }
    lemma_skip_ws_plain(s2);
    assert(!p.contains(':')) by {
        if p.contains(':') {
            let k = choose|k: int| 0 <= k < p.len() && p[k] == ':';
            assert(p[k] != ':');
        }
    }
    assert(s2 =~= p + seq![':'] + tail);
    crate::text::lemma_index_of_at(p, tail, ':');
    let k = p.len() as int;
    assert(s2.take(k) =~= p);
    crate::text::lemma_trim_start_none(p);
    crate::text::lemma_trim_end_none(p);
    assert(trim(p) == p);
    let s3src = s2.skip(k + 1);
    assert(s3src =~= tail);
    let s3 = seq!['<'] + (b + (seq!['>', ' ', '.', '\n'] + rest));
    assert(tail =~= seq![' '] + s3);
    lemma_skip_ws_space(' ', s3);
    lemma_skip_ws_plain(s3);
    let s4 = s3.drop_first();
    assert(s4 =~= b + seq!['>'] + (seq![' ', '.', '\n'] + rest));
    crate::text::lemma_index_of_at(b, seq![' ', '.', '\n'] + rest, '>');
    let c = b.len() as int;
    assert(s4.take(c) =~= b);
    let s5 = seq!['.', '\n'] + rest;
    assert(s4.skip(c + 1) =~= seq![' '] + s5);
    lemma_skip_ws_space(' ', s5);
    lemma_skip_ws_plain(s5);
    assert(s5.drop_first() =~= seq!['\n'] + rest);
    lemma_skip_ws_space('\n', rest);
    lemma_directives_skip(seq!['\n'] + rest, rest, m.insert(p, b));
}

/// The `@prefix` lines of `vs` bind their prefixes in turn.
proof fn lemma_directive_lines(vs: Seq<(Seq<char>, Seq<char>)>, rest: Seq<char>, m: Map<Seq<char>, Seq<char>>)
    requires
        forall|k: int| 0 <= k < vs.len() ==> prefix_ok(#[trigger] vs[k].0) && !vs[k].1.contains('>'),
    ensures
        directives(prefix_lines(vs) + rest, m) == directives(rest, with_bindings(m, vs)),
    decreases vs.len(),
{
    if vs.len() == 0 {
        assert(prefix_lines(vs) + rest =~= rest);
    } else {
        let d = vs.drop_last();
        let last = vs.last();
        assert(vs[vs.len() - 1] == last);
        assert forall|k: int| 0 <= k < d.len() implies prefix_ok(#[trigger] d[k].0) && !d[k].1.contains('>') by {
            assert(d[k] == vs[k]);
        }
        let line = prefix_line(last.0, last.1);
        assert(prefix_lines(vs) + rest =~= prefix_lines(d) + (line + rest));
        lemma_directive_lines(d, line + rest, m);
        lemma_directive_line(last.0, last.1, rest, with_bindings(m, d));
    }
}

/// Reading back what was written: a Turtle document of triples whose
/// lines read back, under declarable bindings, parses to exactly those
/// triples, in order.
pub proof fn law_turtle_round_trip(vs: Seq<(Seq<char>, Seq<char>)>, ts: Seq<TripleView>)
    requires
        bindings_ok(vs),
        forall|i: int| 0 <= i < ts.len() ==> turtle_ok(vs, #[trigger] ts[i]),
    ensures
        turtle_parsed(
            prefix_lines(vs) + (if prefix_lines(vs).len() > 0 {
                seq!['\n']
            } else {
                seq![]
            }) + turtle_lines(vs, ts),
        ) == Ok::<Seq<TripleView>, Seq<char>>(ts),
{
    reveal_strlit("@prefix");
    let sep: Seq<char> = if prefix_lines(vs).len() > 0 {
        seq!['\n']
    } else {
        seq![]
    };
    let body = turtle_lines(vs, ts);
    let doc = prefix_lines(vs) + sep + body;
    assert(doc =~= prefix_lines(vs) + (sep + body));
    lemma_directive_lines(vs, sep + body, Map::empty());
    let mb = with_bindings(Map::empty(), vs);
    lemma_with_bindings_resolves(vs);
    lemma_statements_read(vs, mb, ts);
    assert(skip_ws(sep + body) == skip_ws(body)) by {
        if sep.len() > 0 {
            assert(sep + body =~= seq!['\n'] + body);
            lemma_skip_ws_space('\n', body);
        } else {
            assert(sep + body =~= body);
        }
    }
    if ts.len() > 0 {
        lemma_skip_ws_plain(body);
        assert(body[0] != '@');
        assert(!"@prefix"@.is_prefix_of(body)) by {
            assert("@prefix"@[0] == '@');
            if "@prefix"@.is_prefix_of(body) {
                assert(body[0] == "@prefix"@[0]);
            }
        }
    } else {
        assert(body =~= Seq::<char>::empty());
        assert(skip_ws(body) =~= Seq::<char>::empty());
    }
    assert(directives(sep + body, mb) == Ok::<(Seq<char>, Map<Seq<char>, Seq<char>>), Seq<char>>((skip_ws(body), mb)));
    assert(skip_ws(body) == body);
}

/// The Turtle document of an ontology reads back as its RDF projection,
/// where its bindings are declarable and each projected triple's line
/// reads back.
pub proof fn law_turtle_document_round_trip(o: Ontology)
    requires
        bindings_ok(effective_bindings(o)),
        forall|i: int| 0 <= i < rdf_of(o).len() ==> turtle_ok(effective_bindings(o), #[trigger] rdf_of(o)[i]),
    ensures
        turtle_parsed(turtle_document(o)) == Ok::<Seq<TripleView>, Seq<char>>(rdf_of(o)),
{
    law_turtle_round_trip(effective_bindings(o), rdf_of(o));
}

} // verus!
