//! RDF terms, triples and the OWL vocabulary surfaces, with the
//! well-known IRIs the projection uses and the lexical forms of literals.
use vstd::prelude::*;

use crate::text::string_of_chars;

verus! {

// ---------------------------------------------------------------------
// Well-known IRIs
// ---------------------------------------------------------------------

pub const RDF_TYPE: &'static str = "http://www.w3.org/1999/02/22-rdf-syntax-ns#type";
pub const RDF_LANG_STRING: &'static str = "http://www.w3.org/1999/02/22-rdf-syntax-ns#langString";
pub const RDF_JSON: &'static str = "http://www.w3.org/1999/02/22-rdf-syntax-ns#JSON";
pub const RDFS_SUBCLASS_OF: &'static str = "http://www.w3.org/2000/01/rdf-schema#subClassOf";
pub const RDFS_DOMAIN: &'static str = "http://www.w3.org/2000/01/rdf-schema#domain";
pub const RDFS_RANGE: &'static str = "http://www.w3.org/2000/01/rdf-schema#range";
pub const OWL_CLASS: &'static str = "http://www.w3.org/2002/07/owl#Class";
pub const OWL_OBJECT_PROPERTY: &'static str = "http://www.w3.org/2002/07/owl#ObjectProperty";
pub const OWL_DATATYPE_PROPERTY: &'static str = "http://www.w3.org/2002/07/owl#DatatypeProperty";
pub const OWL_FUNCTIONAL_PROPERTY: &'static str = "http://www.w3.org/2002/07/owl#FunctionalProperty";
pub const OWL_INVERSE_FUNCTIONAL_PROPERTY: &'static str = "http://www.w3.org/2002/07/owl#InverseFunctionalProperty";
pub const OWL_SYMMETRIC_PROPERTY: &'static str = "http://www.w3.org/2002/07/owl#SymmetricProperty";
pub const OWL_TRANSITIVE_PROPERTY: &'static str = "http://www.w3.org/2002/07/owl#TransitiveProperty";
pub const OWL_EQUIVALENT_CLASS: &'static str = "http://www.w3.org/2002/07/owl#equivalentClass";
pub const OWL_DISJOINT_WITH: &'static str = "http://www.w3.org/2002/07/owl#disjointWith";
pub const OWL_INVERSE_OF: &'static str = "http://www.w3.org/2002/07/owl#inverseOf";
pub const XSD_STRING: &'static str = "http://www.w3.org/2001/XMLSchema#string";
pub const XSD_INTEGER: &'static str = "http://www.w3.org/2001/XMLSchema#integer";
pub const XSD_DOUBLE: &'static str = "http://www.w3.org/2001/XMLSchema#double";
pub const XSD_BOOLEAN: &'static str = "http://www.w3.org/2001/XMLSchema#boolean";
pub const XSD_DATE_TIME: &'static str = "http://www.w3.org/2001/XMLSchema#dateTime";
pub const XSD_ANY_URI: &'static str = "http://www.w3.org/2001/XMLSchema#anyURI";
pub const XSD_BASE64_BINARY: &'static str = "http://www.w3.org/2001/XMLSchema#base64Binary";

/// Namespace under which names without a prefix are minted.
pub const LOCAL_PREFIX: &'static str = "https://atomr.dev/ontology/local#";

// ---------------------------------------------------------------------
// Terms and triples
// ---------------------------------------------------------------------

/// The subject of a triple: an IRI-named resource or a blank node.
#[derive(Clone, Debug)]
pub enum Subject {
    /// Named resource.
    Iri(String),
    /// Blank node with a local label (e.g. `_:n0`).
    Blank(String),
}

/// The object of a triple: IRI, blank node, or a typed literal.
#[derive(Clone, Debug)]
pub enum Object {
    /// Named resource.
    Iri(String),
    /// Blank node.
    Blank(String),
    /// Literal: lexical form, datatype IRI and optional language tag.
    Literal { lexical: String, datatype: String, language: Option<String> },
}

/// An RDF triple `<subject> <predicate> <object>`.
#[derive(Clone, Debug)]
pub struct Triple {
    pub subject: Subject,
    pub predicate: String,
    pub object: Object,
}

/// An RDF quad: a triple plus a named graph IRI.
#[derive(Clone, Debug)]
pub struct Quad {
    pub subject: Subject,
    pub predicate: String,
    pub object: Object,
    pub graph: String,
}

/// Mathematical view of a [`Subject`].
pub enum SubjectView {
    Iri(Seq<char>),
    Blank(Seq<char>),
}

/// Mathematical view of an [`Object`].
pub enum ObjectView {
    Iri(Seq<char>),
    Blank(Seq<char>),
    Literal(Seq<char>, Seq<char>, Option<Seq<char>>),
}

/// Mathematical view of a [`Triple`].
pub struct TripleView {
    pub subject: SubjectView,
    pub predicate: Seq<char>,
    pub object: ObjectView,
}

impl View for Subject {
    type V = SubjectView;

    open spec fn view(&self) -> SubjectView {
        match self {
            Subject::Iri(s) => SubjectView::Iri(s@),
            Subject::Blank(s) => SubjectView::Blank(s@),
        }
    }
}

impl View for Object {
    type V = ObjectView;

    open spec fn view(&self) -> ObjectView {
        match self {
            Object::Iri(s) => ObjectView::Iri(s@),
            Object::Blank(s) => ObjectView::Blank(s@),
            Object::Literal { lexical, datatype, language } => ObjectView::Literal(
                lexical@,
                datatype@,
                match language {
                    Some(l) => Some(l@),
                    None => None,
                },
            ),
        }
    }
}

impl View for Triple {
    type V = TripleView;

    open spec fn view(&self) -> TripleView {
        TripleView { subject: self.subject@, predicate: self.predicate@, object: self.object@ }
    }
}

/// The views of a list of triples.
pub open spec fn triples_view(s: Seq<Triple>) -> Seq<TripleView> {
    s.map_values(|t: Triple| t@)
}

impl Triple {
    /// A triple from its parts.
    pub fn new(subject: Subject, predicate: String, object: Object) -> (r: Triple)
        ensures
            r.subject == subject,
            r.predicate == predicate,
            r.object == object,
    {
        Triple { subject, predicate, object }
    }
}

// ---------------------------------------------------------------------
// Decimal text
// ---------------------------------------------------------------------

/// The decimal digit for `d < 10`.
pub open spec fn digit_char(d: nat) -> char {
    (48 + d) as char
}

/// The decimal digits of `n`, most significant first, without leading zeros.
pub open spec fn decimal(n: nat) -> Seq<char>
    decreases n,
{
    if n < 10 {
        seq![digit_char(n)]
    } else {
        decimal(n / 10).push(digit_char(n % 10))
    }
}

/// The decimal text of a signed integer: a `-` before the digits of a
/// negative value's magnitude.
pub open spec fn signed_decimal(i: int) -> Seq<char> {
    if i < 0 {
        seq!['-'] + decimal((-i) as nat)
    } else {
        decimal(i as nat)
    }
}

fn push_decimal(out: &mut Vec<char>, n: u64)
    ensures
        final(out)@ == old(out)@ + decimal(n as nat),
    decreases n,
{
    if n >= 10 {
        push_decimal(out, n / 10);
    }
    let d: u8 = (n % 10) as u8;
    let c: char = (48u8 + d) as char;
    assert(c == digit_char((n % 10) as nat));
    out.push(c);
    assert(out@ =~= old(out)@ + decimal(n as nat));
}

/// The decimal digits of `n`.
pub fn unsigned_text(n: u64) -> (r: Vec<char>)
    ensures
        r@ == decimal(n as nat),
{
    let mut out: Vec<char> = Vec::new();
    push_decimal(&mut out, n);
    assert(out@ =~= decimal(n as nat));
    out
}

/// The decimal text of `i`.
pub fn decimal_text(i: i64) -> (r: Vec<char>)
    ensures
        r@ == signed_decimal(i as int),
{
    let mut out: Vec<char> = Vec::new();
    if i < 0 {
        out.push('-');
        let m: u64 = if i == i64::MIN {
            9223372036854775808u64
        } else {
            (-i) as u64
        };
        push_decimal(&mut out, m);
        assert(out@ =~= seq!['-'] + decimal((-(i as int)) as nat));
    } else {
        push_decimal(&mut out, i as u64);
        assert(out@ =~= decimal(i as nat));
    }
    out
}

// ---------------------------------------------------------------------
// Base64
// ---------------------------------------------------------------------

/// The RFC 4648 base64 alphabet character for a six-bit value `v < 64`.
pub open spec fn b64_char(v: int) -> char {
    if v < 26 {
        (65 + v) as char
    } else if v < 52 {
        (97 + (v - 26)) as char
    } else if v < 62 {
        (48 + (v - 52)) as char
    } else if v == 62 {
        '+'
    } else {
        '/'
    }
}

/// The four characters encoding the 24-bit group `g`.
pub open spec fn b64_group(g: int) -> Seq<char> {
    seq![b64_char((g / 262144) % 64), b64_char((g / 4096) % 64), b64_char((g / 64) % 64), b64_char(g % 64)]
}

/// RFC 4648 base64 of `s`, padded with `=`.
#[verifier::opaque]
pub open spec fn base64(s: Seq<u8>) -> Seq<char>
    decreases s.len(),
{
    if s.len() >= 3 {
        b64_group(s[0] * 65536 + s[1] * 256 + s[2]) + base64(s.skip(3))
    } else if s.len() == 2 {
        b64_group(s[0] * 65536 + s[1] * 256).take(3).push('=')
    } else if s.len() == 1 {
        b64_group(s[0] * 65536).take(2) + seq!['=', '=']
    } else {
        seq![]
    }
}

fn b64_char_exec(v: u32) -> (c: char)
    requires
        v < 64,
    ensures
        c == b64_char(v as int),
{
    if v < 26 {
        ((65 + v) as u8) as char
    } else if v < 52 {
        ((97 + (v - 26)) as u8) as char
    } else if v < 62 {
        ((48 + (v - 52)) as u8) as char
    } else if v == 62 {
        '+'
    } else {
        '/'
    }
}

fn push_group(out: &mut Vec<char>, g: u32, n: usize)
    requires
        g < 16777216,
        2 <= n <= 4,
    ensures
        final(out)@ == old(out)@ + b64_group(g as int).take(n as int),
{
    let ghost grp = b64_group(g as int);
    out.push(b64_char_exec((g / 262144) % 64));
    out.push(b64_char_exec((g / 4096) % 64));
    if n >= 3 {
        out.push(b64_char_exec((g / 64) % 64));
    }
    if n >= 4 {
        out.push(b64_char_exec(g % 64));
    }
    assert(final(out)@ =~= old(out)@ + grp.take(n as int)) by {
        assert(grp[0] == b64_char((g as int / 262144) % 64));
    }
}

proof fn lemma_base64_step(s: Seq<u8>)
    requires
        s.len() >= 3,
    ensures
        base64(s) == b64_group(s[0] * 65536 + s[1] * 256 + s[2]) + base64(s.skip(3)),
{
    reveal(base64);
}

proof fn lemma_base64_tail(s: Seq<u8>)
    requires
        s.len() < 3,
    ensures
        base64(s) == if s.len() == 2 {
            b64_group(s[0] * 65536 + s[1] * 256).take(3).push('=')
        } else if s.len() == 1 {
            b64_group(s[0] * 65536).take(2) + seq!['=', '=']
        } else {
            seq![]
        },
{
    reveal(base64);
}

/// RFC 4648 base64 encoding of `bytes`, with `=` padding.
pub fn base64_encode(bytes: &[u8]) -> (r: Vec<char>)
    ensures
        r@ == base64(bytes@),
{
    let mut out: Vec<char> = Vec::new();
    let n = bytes.len();
    let mut i: usize = 0;
    assert(bytes@.skip(0) =~= bytes@);
    while n - i >= 3
        invariant
            n == bytes@.len(),
            i <= n,
            out@ + base64(bytes@.skip(i as int)) == base64(bytes@),
        decreases n - i,
    {
        let b0 = bytes[i] as u32;
        let b1 = bytes[i + 1] as u32;
        let b2 = bytes[i + 2] as u32;
        let g: u32 = b0 * 65536 + b1 * 256 + b2;
        let ghost rest = bytes@.skip(i as int);
        let ghost before = out@;
        proof {
            assert(rest[0] == bytes@[i as int] && rest[1] == bytes@[i + 1] && rest[2] == bytes@[i + 2]);
            assert(rest.skip(3) =~= bytes@.skip(i + 3));
            lemma_base64_step(rest);
            assert(b64_group(g as int).take(4) =~= b64_group(g as int));
        }
        push_group(&mut out, g, 4);
        proof {
            assert(out@ + base64(bytes@.skip(i + 3)) =~= before + (b64_group(g as int) + base64(rest.skip(3))));
        }
        i = i + 3;
    }
    let rem = n - i;
    let ghost rest = bytes@.skip(i as int);
    let ghost before = out@;
    proof {
        lemma_base64_tail(rest);
    }
    if rem == 1 {
        let g: u32 = (bytes[i] as u32) * 65536;
        assert(rest[0] == bytes@[i as int]);
        push_group(&mut out, g, 2);
        out.push('=');
        out.push('=');
        assert(out@ =~= before + base64(rest));
    } else if rem == 2 {
        let g: u32 = (bytes[i] as u32) * 65536 + (bytes[i + 1] as u32) * 256;
        assert(rest[0] == bytes@[i as int] && rest[1] == bytes@[i + 1]);
        push_group(&mut out, g, 3);
        out.push('=');
        assert(out@ =~= before + base64(rest));
    } else {
        assert(rest.len() == 0);
        assert(out@ =~= before + base64(rest));
    }
    out
}

// ---------------------------------------------------------------------
// Constructors
// ---------------------------------------------------------------------

/// A literal view with no language tag.
pub open spec fn typed_literal(lexical: Seq<char>, datatype: Seq<char>) -> ObjectView {
    ObjectView::Literal(lexical, datatype, None)
}

impl Subject {
    /// The blank-node subject `n<counter>`.
    pub fn blank_n(n: u64) -> (r: Subject)
        ensures
            r@ == SubjectView::Blank(seq!['n'] + decimal(n as nat)),
    {
        let mut chars: Vec<char> = Vec::new();
        chars.push('n');
        push_decimal(&mut chars, n);
        Subject::Blank(string_of_chars(&chars))
    }
}

impl Object {
    /// A plain `xsd:string` literal.
    pub fn xsd_string(value: String) -> (r: Object)
        ensures
            r@ == typed_literal(value@, XSD_STRING@),
    {
        Object::Literal { lexical: value, datatype: String::from_str(XSD_STRING), language: None }
    }

    /// An `xsd:integer` literal.
    pub fn xsd_integer(value: i64) -> (r: Object)
        ensures
            r@ == typed_literal(signed_decimal(value as int), XSD_INTEGER@),
    {
        let text = decimal_text(value);
        Object::Literal { lexical: string_of_chars(&text), datatype: String::from_str(XSD_INTEGER), language: None }
    }

    /// An `xsd:boolean` literal: `true` or `false`.
    pub fn xsd_boolean(value: bool) -> (r: Object)
        ensures
            r@ == typed_literal(if value { "true"@ } else { "false"@ }, XSD_BOOLEAN@),
    {
        let lexical = if value { String::from_str("true") } else { String::from_str("false") };
        Object::Literal { lexical, datatype: String::from_str(XSD_BOOLEAN), language: None }
    }

    /// An `xsd:base64Binary` literal holding `bytes`.
    pub fn xsd_base64(bytes: &[u8]) -> (r: Object)
        ensures
            r@ == typed_literal(base64(bytes@), XSD_BASE64_BINARY@),
    {
        let text = base64_encode(bytes);
        Object::Literal { lexical: string_of_chars(&text), datatype: String::from_str(XSD_BASE64_BINARY), language: None }
    }
}

// ---------------------------------------------------------------------
// OWL vocabulary surfaces
// ---------------------------------------------------------------------

/// An OWL class (the RDF face of a node type).
#[derive(Clone, Debug)]
pub struct Class {
    pub name: String,
    pub iri: String,
    pub super_classes: Vec<String>,
}

/// An OWL individual (the RDF face of a node).
#[derive(Clone, Debug)]
pub struct Individual {
    pub iri: String,
    pub types: Vec<String>,
}

/// An OWL object property (the RDF face of an edge type).
#[derive(Clone, Debug)]
pub struct ObjectProperty {
    pub name: String,
    pub iri: String,
    pub domain: Vec<String>,
    pub range: Vec<String>,
    pub functional: bool,
    pub inverse_of: Option<String>,
}

/// An OWL datatype property (the RDF face of a property type).
#[derive(Clone, Debug)]
pub struct DataProperty {
    pub name: String,
    pub iri: String,
    pub domain: Vec<String>,
    pub range_xsd: String,
}

// ---------------------------------------------------------------------
// Errors
// ---------------------------------------------------------------------

/// Errors raised by the RDF adapter and codecs.
#[derive(Clone, Debug)]
pub enum AdapterError {
    /// A node had no IRI and could not be projected as a named subject.
    AnonymousNode(String),
    /// A property value could not be projected.
    UnsupportedValue(String),
    /// A parser rejected its input.
    Parse(String),
}

impl AdapterError {
    /// The message this error renders as.
    pub fn message(&self) -> (r: String)
        ensures
            r@ == match self {
                AdapterError::AnonymousNode(d) => "anonymous node has no IRI: "@ + d@,
                AdapterError::UnsupportedValue(d) => "unsupported value: "@ + d@,
                AdapterError::Parse(d) => "parse error: "@ + d@,
            },
    {
        match self {
            AdapterError::AnonymousNode(d) => String::from_str("anonymous node has no IRI: ").concat(d.as_str()),
            AdapterError::UnsupportedValue(d) => String::from_str("unsupported value: ").concat(d.as_str()),
            AdapterError::Parse(d) => String::from_str("parse error: ").concat(d.as_str()),
        }
    }
}

} // verus!
