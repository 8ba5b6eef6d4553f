//! The JSON-friendly wire form of a snapshot.
//!
//! Identifiers travel as lower-case hex strings of their big-endian bytes,
//! and keyed collections as vectors. Converting a snapshot to its wire
//! form and back reproduces every identifier and record.
use vstd::prelude::*;

use crate::checkpointer::Snapshot;
use crate::model::{
    axiom_kinds, axiom_upserted, edge_keys, edge_upserted, keyed, node_ids, node_upserted, Axiom, AxiomKind, Edge, Node, NodeId, Ontology,
    Property, ProvenanceId,
};
use crate::provenance::{
    activity_map, entity_map, Activity, AgentRef, Attribute, ProvEntity, ProvenanceLog, Used,
    WasAttributedTo, WasDerivedFrom, WasGeneratedBy,
};
use crate::schema::{Schema, Vocabulary};

verus! {

/// Bytes per identifier on the wire.
pub const ID_BYTES: usize = 32;

/// Why hex text does not decode, as the hex crate reports it.
#[derive(Clone, Copy, Debug, PartialEq, Eq, Structural)]
pub enum HexFault {
    /// A byte that is no hex digit, at that byte position.
    InvalidHexCharacter { c: char, index: usize },
    /// An odd number of digits.
    OddLength,
    /// A length that does not fit a fixed-size target.
    InvalidStringLength,
}

/// The fault `hex::decode` reports for text `s` that it refuses.
pub uninterp spec fn hex_fault(s: Seq<char>) -> HexFault;

/// The text `format!("{:?}", c)` makes of a character.
pub uninterp spec fn char_debug_text(c: char) -> Seq<char>;

/// Calls `format!("{:?}", c)`: the character's debug text, named
/// [`char_debug_text`].
#[verifier::external_body]
fn char_debug(c: char) -> (r: String)
    ensures
        r@ == char_debug_text(c),
{
    format!("{:?}", c)
}

/// The message the hex crate renders a fault as.
pub open spec fn hex_fault_text(f: HexFault) -> Seq<char> {
    match f {
        HexFault::InvalidHexCharacter { c, index } => "Invalid character "@ + char_debug_text(c) + " at position "@
            + crate::rdf::decimal(index as nat),
        HexFault::OddLength => "Odd number of digits"@,
        HexFault::InvalidStringLength => "Invalid string length"@,
    }
}

/// The message of a hex fault.
pub fn hex_fault_message(f: HexFault) -> (r: String)
    ensures
        r@ == hex_fault_text(f),
{
    match f {
        HexFault::InvalidHexCharacter { c, index } => {
            let digits = crate::rdf::unsigned_text(index as u64);
            String::from_str("Invalid character ").concat(char_debug(c).as_str()).concat(" at position ").concat(
                crate::text::string_of_chars(&digits).as_str(),
            )
        },
        HexFault::OddLength => String::from_str("Odd number of digits"),
        HexFault::InvalidStringLength => String::from_str("Invalid string length"),
    }
}

// ---------------------------------------------------------------------
// Hex text
// ---------------------------------------------------------------------

/// The lower-case hex digit of a nibble (`n < 16`).
pub open spec fn hex_digit(n: int) -> char {
    if n < 10 {
        (48 + n) as char
    } else {
        (87 + n) as char
    }
}

/// `b` as lower-case hex: two digits per byte, high nibble first.
pub open spec fn hex_lower(b: Seq<u8>) -> Seq<char> {
    Seq::new(
        2 * b.len(),
        |i: int|
            if i % 2 == 0 {
                hex_digit(b[i / 2] as int / 16)
            } else {
                hex_digit(b[i / 2] as int % 16)
            },
    )
}

/// The value of a hex digit (either case), if `c` is one.
pub open spec fn nibble(c: char) -> Option<int> {
    if '0' <= c && c <= '9' {
        Some(c as int - 48)
    } else if 'a' <= c && c <= 'f' {
        Some(c as int - 87)
    } else if 'A' <= c && c <= 'F' {
        Some(c as int - 55)
    } else {
        None
    }
}

/// `s` is an even number of hex digits.
pub open spec fn is_hex_text(s: Seq<char>) -> bool {
    s.len() % 2 == 0 && forall|i: int| 0 <= i < s.len() ==> (#[trigger] nibble(s[i])) is Some
}

/// The bytes hex text `s` denotes, two digits per byte.
pub open spec fn hex_value(s: Seq<char>) -> Seq<u8> {
    Seq::new(
        s.len() / 2,
        |i: int| (16 * nibble(s[2 * i]).unwrap() + nibble(s[2 * i + 1]).unwrap()) as u8,
    )
}

/// Calls `hex::encode`: the bytes as lower-case hex, two digits per byte,
/// high nibble first, as the crate's documentation and source show.
#[verifier::external_body]
fn hex_encode(bytes: &Vec<u8>) -> (r: String)
    ensures
        r@ == hex_lower(bytes@),
{
    hex::encode(bytes)
}

/// Calls `hex::decode`: succeeds exactly on an even number of hex digits
/// (either case) and yields the bytes they denote, as the crate's source
/// shows; a failure is the crate's `FromHexError`, variant for variant,
/// named [`hex_fault`].
#[verifier::external_body]
fn hex_decode(s: &String) -> (r: Result<Vec<u8>, HexFault>)
    ensures
        r is Ok <==> is_hex_text(s@),
        r matches Ok(v) ==> v@ == hex_value(s@),
        r matches Err(f) ==> f == hex_fault(s@),
{
    match hex::decode(s) {
        Ok(v) => Ok(v),
        Err(hex::FromHexError::InvalidHexCharacter { c, index }) => Err(HexFault::InvalidHexCharacter { c, index }),
        Err(hex::FromHexError::OddLength) => Err(HexFault::OddLength),
        Err(hex::FromHexError::InvalidStringLength) => Err(HexFault::InvalidStringLength),
    }
}

// ---------------------------------------------------------------------
// Identifiers
// ---------------------------------------------------------------------

/// Why a wire identifier could not be read.
#[derive(Clone, Copy, Debug, PartialEq, Eq, Structural)]
pub enum IdError {
    /// The text is not an even number of hex digits.
    InvalidHex(HexFault),
    /// The text denotes `got` bytes rather than [`ID_BYTES`].
    WrongLength { got: usize },
    /// The identifier's leading bytes are not zero: it is wider than the
    /// 64 bits a model identifier holds.
    TooWide,
}

impl IdError {
    /// The message this error renders as.
    pub fn message(&self) -> (r: String)
        ensures
            r@ == match *self {
                IdError::InvalidHex(f) => "invalid hex id: "@ + hex_fault_text(f),
                IdError::WrongLength { got } => "expected 32-byte id, got "@ + crate::rdf::decimal(got as nat)
                    + " bytes"@,
                IdError::TooWide => "id does not fit in 64 bits"@,
            },
    {
        match self {
            IdError::InvalidHex(f) => String::from_str("invalid hex id: ").concat(hex_fault_message(*f).as_str()),
            IdError::WrongLength { got } => {
                let digits = crate::rdf::unsigned_text(*got as u64);
                String::from_str("expected 32-byte id, got ").concat(
                    crate::text::string_of_chars(&digits).as_str(),
                ).concat(" bytes")
            },
            IdError::TooWide => String::from_str("id does not fit in 64 bits"),
        }
    }
}

/// The wire bytes of an identifier: 24 zero bytes, then its eight
/// big-endian bytes.
pub open spec fn id_bytes(x: u64) -> Seq<u8> {
    Seq::new(24, |i: int| 0u8) + seq![
        (x >> 56u64) as u8,
        (x >> 48u64) as u8,
        (x >> 40u64) as u8,
        (x >> 32u64) as u8,
        (x >> 24u64) as u8,
        (x >> 16u64) as u8,
        (x >> 8u64) as u8,
        x as u8,
    ]
}

/// The first 24 of the 32 bytes `b` are zero.
pub open spec fn high_zero(b: Seq<u8>) -> bool {
    forall|i: int| 0 <= i < 24 ==> b[i] == 0u8
}

/// The identifier of the last eight (big-endian) of 32 bytes.
pub open spec fn bytes_id(b: Seq<u8>) -> u64 {
    ((b[24] as u64) << 56u64) | ((b[25] as u64) << 48u64) | ((b[26] as u64) << 40u64) | ((b[27] as u64)
        << 32u64) | ((b[28] as u64) << 24u64) | ((b[29] as u64) << 16u64) | ((b[30] as u64) << 8u64)
        | (b[31] as u64)
}

/// The identifier wire text `s` denotes, or why it denotes none.
pub open spec fn decoded_id(s: Seq<char>) -> Result<u64, IdError> {
    if !is_hex_text(s) {
        Err(IdError::InvalidHex(hex_fault(s)))
    } else if s.len() / 2 != ID_BYTES {
        Err(IdError::WrongLength { got: (s.len() / 2) as usize })
    } else if !high_zero(hex_value(s)) {
        Err(IdError::TooWide)
    } else {
        Ok(bytes_id(hex_value(s)))
    }
}

/// The wire text of an identifier: its 32 wire bytes in lower-case hex.
pub fn encode_id(x: u64) -> (r: String)
    ensures
        r@ == hex_lower(id_bytes(x)),
{
    let mut bytes: Vec<u8> = Vec::new();
    let mut i: usize = 0;
    while i < 24
        invariant
            i <= 24,
            bytes@ == Seq::new(i as nat, |j: int| 0u8),
        decreases 24 - i,
    {
        bytes.push(0u8);
        assert(bytes@ =~= Seq::new((i + 1) as nat, |j: int| 0u8));
        i = i + 1;
    }
    bytes.push((x >> 56u64) as u8);
    bytes.push((x >> 48u64) as u8);
    bytes.push((x >> 40u64) as u8);
    bytes.push((x >> 32u64) as u8);
    bytes.push((x >> 24u64) as u8);
    bytes.push((x >> 16u64) as u8);
    bytes.push((x >> 8u64) as u8);
    bytes.push(x as u8);
    assert(bytes@ =~= id_bytes(x));
    hex_encode(&bytes)
}

/// Read an identifier from its wire text.
pub fn decode_id(s: &String) -> (r: Result<u64, IdError>)
    ensures
        r == decoded_id(s@),
{
    match hex_decode(s) {
        Err(f) => Err(IdError::InvalidHex(f)),
        Ok(raw) => {
            if raw.len() != ID_BYTES {
                Err(IdError::WrongLength { got: raw.len() })
            } else {
                let mut i: usize = 0;
                while i < 24
                    invariant
                        i <= 24,
                        raw@.len() == 32,
                        raw@ == hex_value(s@),
                        is_hex_text(s@),
                        s@.len() / 2 == ID_BYTES,
                        forall|j: int| 0 <= j < i ==> raw@[j] == 0u8,
                    decreases 24 - i,
                {
                    if raw[i] != 0 {
                        return Err(IdError::TooWide);
                    }
                    i = i + 1;
                }
                let x: u64 = ((raw[24] as u64) << 56u64) | ((raw[25] as u64) << 48u64) | ((raw[26] as u64)
                    << 40u64) | ((raw[27] as u64) << 32u64) | ((raw[28] as u64) << 24u64) | ((raw[29] as u64)
                    << 16u64) | ((raw[30] as u64) << 8u64) | (raw[31] as u64);
                Ok(x)
            }
        },
    }
}

/// Identifiers survive the wire: reading the wire text of `x` gives `x`.
pub proof fn law_id_round_trip(x: u64)
    ensures
        decoded_id(hex_lower(id_bytes(x))) == Ok::<u64, IdError>(x),
{
    let b = id_bytes(x);
    let s = hex_lower(b);
    assert forall|i: int| 0 <= i < s.len() implies (#[trigger] nibble(s[i])) is Some by {
        if i % 2 == 0 {
            assert(s[i] == hex_digit(b[i / 2] as int / 16));
        } else {
            assert(s[i] == hex_digit(b[i / 2] as int % 16));
        }
    }
    assert forall|i: int| 0 <= i < b.len() implies #[trigger] hex_value(s)[i] == b[i] by {
        assert(s[2 * i] == hex_digit(b[i] as int / 16));
        assert(s[2 * i + 1] == hex_digit(b[i] as int % 16));
        assert(nibble(hex_digit(b[i] as int / 16)) == Some(b[i] as int / 16));
        assert(nibble(hex_digit(b[i] as int % 16)) == Some(b[i] as int % 16));
    }
    assert(hex_value(s) =~= b);
    assert(high_zero(b));
    assert(b[24] == (x >> 56u64) as u8 && b[31] == x as u8);
    assert(((((x >> 56u64) as u8) as u64) << 56u64) | ((((x >> 48u64) as u8) as u64) << 48u64)
        | ((((x >> 40u64) as u8) as u64) << 40u64) | ((((x >> 32u64) as u8) as u64) << 32u64)
        | ((((x >> 24u64) as u8) as u64) << 24u64) | ((((x >> 16u64) as u8) as u64) << 16u64)
        | ((((x >> 8u64) as u8) as u64) << 8u64) | ((x as u8) as u64) == x) by (bit_vector);
}

// ---------------------------------------------------------------------
// Reading a sequence of identifiers
// ---------------------------------------------------------------------

/// The value of wire text already known to denote an identifier.
pub open spec fn ok_id(s: Seq<char>) -> u64 {
    bytes_id(hex_value(s))
}

/// Every text of `ids` denotes an identifier.
pub open spec fn all_decode(ids: Seq<Seq<char>>) -> bool {
    forall|i: int| 0 <= i < ids.len() ==> (#[trigger] decoded_id(ids[i])) is Ok
}

/// `e` is why the first text of `ids` that denotes no identifier fails.
pub open spec fn fails_first(ids: Seq<Seq<char>>, e: IdError) -> bool {
    exists|i: int|
        0 <= i < ids.len() && decoded_id(#[trigger] ids[i]) == Err::<u64, IdError>(e) && forall|j: int|
            0 <= j < i ==> (#[trigger] decoded_id(ids[j])) is Ok
}

/// The texts of a list of pairs, each pair's first text then its second.
pub open spec fn pair_ids(s: Seq<(Seq<char>, Seq<char>)>) -> Seq<Seq<char>> {
    Seq::new(2 * s.len(), |i: int| if i % 2 == 0 { s[i / 2].0 } else { s[i / 2].1 })
}

// ---------------------------------------------------------------------
// Provenance ledger
// ---------------------------------------------------------------------

/// Wire form of an activity.
#[derive(Clone, Debug)]
pub struct ActivityWire {
    pub id: String,
    pub label: String,
    pub started_at: i64,
    pub ended_at: Option<i64>,
    pub agent: Option<AgentRef>,
    pub attributes: Vec<Attribute>,
}

/// The activity a wire activity denotes, its identifier read as `id`.
pub open spec fn wire_activity(w: ActivityWire, id: u64) -> Activity {
    Activity {
        id,
        label: w.label,
        started_at: w.started_at,
        ended_at: w.ended_at,
        agent: w.agent,
        attributes: w.attributes,
    }
}

impl ActivityWire {
    /// The wire form of `a`.
    pub fn from_activity(a: Activity) -> (r: ActivityWire)
        ensures
            r.id@ == hex_lower(id_bytes(a.id)),
            wire_activity(r, a.id) == a,
    {
        ActivityWire {
            id: encode_id(a.id),
            label: a.label,
            started_at: a.started_at,
            ended_at: a.ended_at,
            agent: a.agent,
            attributes: a.attributes,
        }
    }

    /// The activity this wire form denotes.
    pub fn into_activity(self) -> (r: Result<Activity, IdError>)
        ensures
            r == match decoded_id(self.id@) {
                Ok(id) => Ok(wire_activity(self, id)),
                Err(e) => Err(e),
            },
    {
        let id = decode_id(&self.id)?;
        Ok(Activity {
            id,
            label: self.label,
            started_at: self.started_at,
            ended_at: self.ended_at,
            agent: self.agent,
            attributes: self.attributes,
        })
    }
}

/// Wire form of an entity.
#[derive(Clone, Debug)]
pub struct ProvEntityWire {
    pub id: String,
    pub label: String,
    pub digest: Option<String>,
    pub attributes: Vec<Attribute>,
}

/// The entity a wire entity denotes, its identifier read as `id`.
pub open spec fn wire_entity(w: ProvEntityWire, id: u64) -> ProvEntity {
    ProvEntity { id, label: w.label, digest: w.digest, attributes: w.attributes }
}

impl ProvEntityWire {
    /// The wire form of `e`.
    pub fn from_entity(e: ProvEntity) -> (r: ProvEntityWire)
        ensures
            r.id@ == hex_lower(id_bytes(e.id)),
            wire_entity(r, e.id) == e,
    {
        ProvEntityWire { id: encode_id(e.id), label: e.label, digest: e.digest, attributes: e.attributes }
    }

    /// The entity this wire form denotes.
    pub fn into_entity(self) -> (r: Result<ProvEntity, IdError>)
        ensures
            r == match decoded_id(self.id@) {
                Ok(id) => Ok(wire_entity(self, id)),
                Err(e) => Err(e),
            },
    {
        let id = decode_id(&self.id)?;
        Ok(ProvEntity { id, label: self.label, digest: self.digest, attributes: self.attributes })
    }
}

/// Wire form of an identifier pair (`wasGeneratedBy`: entity, activity;
/// `wasDerivedFrom`: derived, source; `used`: activity, entity).
#[derive(Clone, Debug)]
pub struct IdPairWire {
    pub first: String,
    pub second: String,
}

/// The texts of a list of wire pairs.
pub open spec fn pairs_view(s: Seq<IdPairWire>) -> Seq<(Seq<char>, Seq<char>)> {
    s.map_values(|p: IdPairWire| (p.first@, p.second@))
}

/// The identifier pairs a list of wire pairs denotes.
pub open spec fn ok_pairs(s: Seq<IdPairWire>) -> Seq<(u64, u64)> {
    s.map_values(|p: IdPairWire| (ok_id(p.first@), ok_id(p.second@)))
}

/// Wire form of a provenance ledger.
#[derive(Clone, Debug)]
pub struct ProvenanceLogWire {
    pub activities: Vec<ActivityWire>,
    pub entities: Vec<ProvEntityWire>,
    pub generations: Vec<IdPairWire>,
    pub derivations: Vec<IdPairWire>,
    pub attributions: Vec<WasAttributedTo>,
    pub uses: Vec<IdPairWire>,
}

/// Every identifier text of a wire ledger, in the order they are read:
/// activities, entities, generations, derivations, uses.
pub open spec fn log_wire_ids(w: ProvenanceLogWire) -> Seq<Seq<char>> {
    w.activities@.map_values(|a: ActivityWire| a.id@) + w.entities@.map_values(|e: ProvEntityWire| e.id@)
        + pair_ids(pairs_view(w.generations@)) + pair_ids(pairs_view(w.derivations@)) + pair_ids(
        pairs_view(w.uses@),
    )
}

/// The activities of a wire ledger, recorded in turn, keyed by identifier.
pub open spec fn activities_recorded(s: Seq<ActivityWire>) -> Map<ProvenanceId, Activity>
    decreases s.len(),
{
    if s.len() == 0 {
        Map::empty()
    } else {
        let id = ok_id(s.last().id@);
        activities_recorded(s.drop_last()).insert(id, wire_activity(s.last(), id))
    }
}

/// The entities of a wire ledger, recorded in turn, keyed by identifier.
pub open spec fn entities_recorded(s: Seq<ProvEntityWire>) -> Map<ProvenanceId, ProvEntity>
    decreases s.len(),
{
    if s.len() == 0 {
        Map::empty()
    } else {
        let id = ok_id(s.last().id@);
        entities_recorded(s.drop_last()).insert(id, wire_entity(s.last(), id))
    }
}

/// A text at index `g` of `all` that denotes no identifier, after texts
/// that all do, is the first failure of `all`.
proof fn lemma_fails_at(all: Seq<Seq<char>>, g: int, e: IdError)
    requires
        0 <= g < all.len(),
        all_decode(all.take(g)),
        decoded_id(all[g]) == Err::<u64, IdError>(e),
    ensures
        fails_first(all, e),
        !all_decode(all),
{
    assert forall|j: int| 0 <= j < g implies (#[trigger] decoded_id(all[j])) is Ok by {
        assert(all.take(g)[j] == all[j]);
    }
}

/// One more text that denotes an identifier extends a decoding prefix.
proof fn lemma_decodes_one_more(all: Seq<Seq<char>>, g: int)
    requires
        0 <= g < all.len(),
        all_decode(all.take(g)),
        decoded_id(all[g]) is Ok,
    ensures
        all_decode(all.take(g + 1)),
{
    assert forall|j: int| 0 <= j < g + 1 implies (#[trigger] decoded_id(all.take(g + 1)[j])) is Ok by {
        if j < g {
            assert(all.take(g)[j] == all[j]);
        }
    }
}

/// Read the identifier pairs of `ps`, whose texts sit in `all` from `offset` on.
fn decode_pairs(ps: &Vec<IdPairWire>, Ghost(all): Ghost<Seq<Seq<char>>>, Ghost(offset): Ghost<int>) -> (r: Result<Vec<(u64, u64)>, IdError>)
    requires
        0 <= offset,
        offset + 2 * ps@.len() <= all.len(),
        all.subrange(offset, offset + 2 * ps@.len()) == pair_ids(pairs_view(ps@)),
        all_decode(all.take(offset)),
    ensures
        match r {
            Ok(v) => v@ == ok_pairs(ps@) && all_decode(all.take(offset + 2 * ps@.len())),
            Err(e) => fails_first(all, e),
        },
{
    let mut v: Vec<(u64, u64)> = Vec::new();
    let mut i: usize = 0;
    while i < ps.len()
        invariant
            i <= ps@.len(),
            0 <= offset,
            offset + 2 * ps@.len() <= all.len(),
            all.subrange(offset, offset + 2 * ps@.len()) == pair_ids(pairs_view(ps@)),
            all_decode(all.take(offset + 2 * i)),
            v@.len() == i,
            forall|j: int| 0 <= j < i ==> #[trigger] v@[j] == (ok_id(ps@[j].first@), ok_id(ps@[j].second@)),
        decreases ps@.len() - i,
    {
        let g = Ghost(offset + 2 * i);
        assert(all[g@] == pair_ids(pairs_view(ps@))[2 * i]);
        assert(all[g@ + 1] == pair_ids(pairs_view(ps@))[2 * i + 1]);
        assert(pairs_view(ps@)[i as int] == (ps@[i as int].first@, ps@[i as int].second@));
        let a = match decode_id(&ps[i].first) {
            Ok(x) => x,
            Err(e) => {
                proof {
                    lemma_fails_at(all, g@, e);
                }
                return Err(e);
            },
        };
        proof {
            lemma_decodes_one_more(all, g@);
        }
        let b = match decode_id(&ps[i].second) {
            Ok(x) => x,
            Err(e) => {
                proof {
                    lemma_fails_at(all, g@ + 1, e);
                }
                return Err(e);
            },
        };
        proof {
            lemma_decodes_one_more(all, g@ + 1);
        }
        v.push((a, b));
        i = i + 1;
    }
    assert(v@ =~= ok_pairs(ps@));
    Ok(v)
}

/// Record the activities of `acts` in an empty ledger, in turn; their
/// identifier texts sit in `all` from `offset` on.
fn record_activities(log: &mut ProvenanceLog, acts: Vec<ActivityWire>, Ghost(all): Ghost<Seq<Seq<char>>>, Ghost(offset): Ghost<int>) -> (r: Result<(), IdError>)
    requires
        old(log).wf(),
        activity_map(old(log).activities@) == Map::<ProvenanceId, Activity>::empty(),
        0 <= offset,
        offset + acts@.len() <= all.len(),
        all.subrange(offset, offset + acts@.len()) == acts@.map_values(|a: ActivityWire| a.id@),
        all_decode(all.take(offset)),
    ensures
        match r {
            Ok(()) => {
                &&& final(log).wf()
                &&& activity_map(final(log).activities@) == activities_recorded(acts@)
                &&& all_decode(all.take(offset + acts@.len()))
            },
            Err(e) => fails_first(all, e),
        },
        final(log).entities == old(log).entities,
        final(log).generations == old(log).generations,
        final(log).derivations == old(log).derivations,
        final(log).attributions == old(log).attributions,
        final(log).uses == old(log).uses,
{
    let ghost w = acts@;
    let ghost ids = acts@.map_values(|a: ActivityWire| a.id@);
    let mut acts = acts;
    let n = acts.len();
    let mut i: usize = 0;
    assert(activities_recorded(w.take(0)) =~= Map::empty());
    while i < n
        invariant
            i <= n,
            n == w.len(),
            0 <= offset,
            offset + n <= all.len(),
            all.subrange(offset, offset + n) == ids,
            ids == w.map_values(|a: ActivityWire| a.id@),
            acts@ == w.skip(i as int),
            all_decode(all.take(offset + i)),
            log.wf(),
            activity_map(log.activities@) == activities_recorded(w.take(i as int)),
            log.entities == old(log).entities,
            log.generations == old(log).generations,
            log.derivations == old(log).derivations,
            log.attributions == old(log).attributions,
            log.uses == old(log).uses,
        decreases n - i,
    {
        let aw = acts.remove(0);
        assert(aw == w[i as int]);
        assert(all[offset + i] == all.subrange(offset, offset + n)[i as int]);
        assert(all[offset + i] == aw.id@);
        assert(w.take(i + 1).drop_last() =~= w.take(i as int));
        assert(acts@ =~= w.skip(i + 1));
        match aw.into_activity() {
            Ok(a) => {
                proof {
                    lemma_decodes_one_more(all, offset + i);
                }
                log.record_activity(a);
            },
            Err(e) => {
                proof {
                    lemma_fails_at(all, offset + i, e);
                }
                return Err(e);
            },
        }
        i = i + 1;
    }
    assert(w.take(n as int) =~= w);
    Ok(())
}

/// Record the entities of `ents` in a ledger without entities, in turn;
/// their identifier texts sit in `all` from `offset` on.
fn record_entities(log: &mut ProvenanceLog, ents: Vec<ProvEntityWire>, Ghost(all): Ghost<Seq<Seq<char>>>, Ghost(offset): Ghost<int>) -> (r: Result<(), IdError>)
    requires
        old(log).wf(),
        entity_map(old(log).entities@) == Map::<ProvenanceId, ProvEntity>::empty(),
        0 <= offset,
        offset + ents@.len() <= all.len(),
        all.subrange(offset, offset + ents@.len()) == ents@.map_values(|e: ProvEntityWire| e.id@),
        all_decode(all.take(offset)),
    ensures
        match r {
            Ok(()) => {
                &&& final(log).wf()
                &&& entity_map(final(log).entities@) == entities_recorded(ents@)
                &&& all_decode(all.take(offset + ents@.len()))
            },
            Err(e) => fails_first(all, e),
        },
        final(log).activities == old(log).activities,
        final(log).generations == old(log).generations,
        final(log).derivations == old(log).derivations,
        final(log).attributions == old(log).attributions,
        final(log).uses == old(log).uses,
{
    let ghost w = ents@;
    let ghost ids = ents@.map_values(|e: ProvEntityWire| e.id@);
    let mut ents = ents;
    let n = ents.len();
    let mut i: usize = 0;
    assert(entities_recorded(w.take(0)) =~= Map::empty());
    while i < n
        invariant
            i <= n,
            n == w.len(),
            0 <= offset,
            offset + n <= all.len(),
            all.subrange(offset, offset + n) == ids,
            ids == w.map_values(|e: ProvEntityWire| e.id@),
            ents@ == w.skip(i as int),
            all_decode(all.take(offset + i)),
            log.wf(),
            entity_map(log.entities@) == entities_recorded(w.take(i as int)),
            log.activities == old(log).activities,
            log.generations == old(log).generations,
            log.derivations == old(log).derivations,
            log.attributions == old(log).attributions,
            log.uses == old(log).uses,
        decreases n - i,
    {
        let ew = ents.remove(0);
        assert(ew == w[i as int]);
        assert(all[offset + i] == all.subrange(offset, offset + n)[i as int]);
        assert(all[offset + i] == ew.id@);
        assert(w.take(i + 1).drop_last() =~= w.take(i as int));
        assert(ents@ =~= w.skip(i + 1));
        match ew.into_entity() {
            Ok(en) => {
                proof {
                    lemma_decodes_one_more(all, offset + i);
                }
                log.record_entity(en);
            },
            Err(e) => {
                proof {
                    lemma_fails_at(all, offset + i, e);
                }
                return Err(e);
            },
        }
        i = i + 1;
    }
    assert(w.take(n as int) =~= w);
    Ok(())
}

impl ProvenanceLogWire {
    /// The ledger this wire form denotes: its activities and entities
    /// recorded in turn, then its generations, derivations and uses, its
    /// attributions as they are. Fails with the first identifier that
    /// cannot be read.
    pub fn into_log(self) -> (r: Result<ProvenanceLog, IdError>)
        ensures
            r is Ok <==> all_decode(log_wire_ids(self)),
            r matches Err(e) ==> fails_first(log_wire_ids(self), e),
            r matches Ok(log) ==> {
                &&& log.wf()
                &&& activity_map(log.activities@) == activities_recorded(self.activities@)
                &&& entity_map(log.entities@) == entities_recorded(self.entities@)
                &&& log.generations@ == ok_pairs(self.generations@).map_values(|p: (u64, u64)| WasGeneratedBy { entity: p.0, activity: p.1 })
                &&& log.derivations@ == ok_pairs(self.derivations@).map_values(|p: (u64, u64)| WasDerivedFrom { derived: p.0, source: p.1 })
                &&& log.uses@ == ok_pairs(self.uses@).map_values(|p: (u64, u64)| Used { activity: p.0, entity: p.1 })
                &&& log.attributions == self.attributions
            },
    {
        let ghost all = log_wire_ids(self);
        let ghost w = self;
        let ghost na = self.activities@.len();
        let ghost ne = self.entities@.len();
        let ghost ng = self.generations@.len();
        let ghost nd = self.derivations@.len();
        let ghost nu = self.uses@.len();
        let ghost acts = self.activities@.map_values(|a: ActivityWire| a.id@);
        let ghost ents = self.entities@.map_values(|e: ProvEntityWire| e.id@);
        assert(all.len() == na + ne + 2 * ng + 2 * nd + 2 * nu);
        let ProvenanceLogWire { activities, entities, generations, derivations, attributions, uses } = self;
        let mut log = ProvenanceLog::new();
        assert(all.take(0) =~= Seq::<Seq<char>>::empty());
        assert(all.subrange(0, na as int) =~= acts);
        assert(activity_map(log.activities@) =~= Map::empty());
        assert(entity_map(log.entities@) =~= Map::empty());
        record_activities(&mut log, activities, Ghost(all), Ghost(0))?;
        assert(all.subrange(na as int, (na + ne) as int) =~= ents);
        record_entities(&mut log, entities, Ghost(all), Ghost(na as int))?;
        let ghost o1: int = (na + ne) as int;
        assert(all.subrange(o1, o1 + 2 * ng) =~= pair_ids(pairs_view(w.generations@)));
        let gens = decode_pairs(&generations, Ghost(all), Ghost(o1))?;
        let ghost o2: int = o1 + 2 * ng;
        assert(all.subrange(o2, o2 + 2 * nd) =~= pair_ids(pairs_view(w.derivations@)));
        let ders = decode_pairs(&derivations, Ghost(all), Ghost(o2))?;
        let ghost o3: int = o2 + 2 * nd;
        assert(all.subrange(o3, o3 + 2 * nu) =~= pair_ids(pairs_view(w.uses@)));
        let uses_v = decode_pairs(&uses, Ghost(all), Ghost(o3))?;
        assert(all.take(o3 + 2 * nu) =~= all);
        let mut i: usize = 0;
        while i < gens.len()
            invariant
                i <= gens@.len(),
                gens@ == ok_pairs(w.generations@),
                log.wf(),
                activity_map(log.activities@) == activities_recorded(w.activities@),
                entity_map(log.entities@) == entities_recorded(w.entities@),
                log.generations@ == gens@.take(i as int).map_values(|p: (u64, u64)| WasGeneratedBy { entity: p.0, activity: p.1 }),
                log.derivations@.len() == 0,
                log.uses@.len() == 0,
                log.attributions@.len() == 0,
            decreases gens@.len() - i,
        {
            log.generated(gens[i].0, gens[i].1);
            assert(log.generations@ =~= gens@.take(i + 1).map_values(|p: (u64, u64)| WasGeneratedBy { entity: p.0, activity: p.1 }));
            i = i + 1;
        }
        assert(gens@.take(gens@.len() as int) =~= gens@);
        let mut i: usize = 0;
        while i < ders.len()
            invariant
                i <= ders@.len(),
                gens@ == ok_pairs(w.generations@),
                ders@ == ok_pairs(w.derivations@),
                log.wf(),
                activity_map(log.activities@) == activities_recorded(w.activities@),
                entity_map(log.entities@) == entities_recorded(w.entities@),
                log.generations@ == gens@.map_values(|p: (u64, u64)| WasGeneratedBy { entity: p.0, activity: p.1 }),
                log.derivations@ == ders@.take(i as int).map_values(|p: (u64, u64)| WasDerivedFrom { derived: p.0, source: p.1 }),
                log.uses@.len() == 0,
                log.attributions@.len() == 0,
            decreases ders@.len() - i,
        {
            log.derived(ders[i].0, ders[i].1);
            assert(log.derivations@ =~= ders@.take(i + 1).map_values(|p: (u64, u64)| WasDerivedFrom { derived: p.0, source: p.1 }));
            i = i + 1;
        }
        assert(ders@.take(ders@.len() as int) =~= ders@);
        let mut i: usize = 0;
        while i < uses_v.len()
            invariant
                i <= uses_v@.len(),
                gens@ == ok_pairs(w.generations@),
                ders@ == ok_pairs(w.derivations@),
                uses_v@ == ok_pairs(w.uses@),
                log.wf(),
                activity_map(log.activities@) == activities_recorded(w.activities@),
                entity_map(log.entities@) == entities_recorded(w.entities@),
                log.generations@ == gens@.map_values(|p: (u64, u64)| WasGeneratedBy { entity: p.0, activity: p.1 }),
                log.derivations@ == ders@.map_values(|p: (u64, u64)| WasDerivedFrom { derived: p.0, source: p.1 }),
                log.uses@ == uses_v@.take(i as int).map_values(|p: (u64, u64)| Used { activity: p.0, entity: p.1 }),
                log.attributions@.len() == 0,
            decreases uses_v@.len() - i,
        {
            log.used(uses_v[i].0, uses_v[i].1);
            assert(log.uses@ =~= uses_v@.take(i + 1).map_values(|p: (u64, u64)| Used { activity: p.0, entity: p.1 }));
            i = i + 1;
        }
        assert(uses_v@.take(uses_v@.len() as int) =~= uses_v@);
        log.attributions = attributions;
        Ok(log)
    }
}

// ---------------------------------------------------------------------
// Ontology
// ---------------------------------------------------------------------

/// Wire form of a node.
#[derive(Clone, Debug)]
pub struct NodeWire {
    pub id: String,
    pub iri: Option<String>,
    pub types: Vec<String>,
    pub properties: Vec<Property>,
}

/// The node a wire node denotes, its identifier read as `id`.
pub open spec fn wire_node(w: NodeWire, id: NodeId) -> Node {
    Node { id, iri: w.iri, types: w.types, properties: w.properties }
}

/// Wire form of an edge: its label and the texts of its endpoints.
#[derive(Clone, Debug)]
pub struct EdgeWire {
    pub label: String,
    pub source: String,
    pub target: String,
    pub properties: Vec<Property>,
}

/// The edge a wire edge denotes, its endpoints read as `source` and `target`.
pub open spec fn wire_edge(w: EdgeWire, source: NodeId, target: NodeId) -> Edge {
    Edge { source, label: w.label, target, properties: w.properties }
}

/// Wire form of an axiom: its shape and the text of its provenance.
#[derive(Clone, Debug)]
pub struct AxiomWire {
    pub kind: AxiomKind,
    pub provenance: Option<String>,
}

/// The axiom a wire axiom denotes, its provenance read as `prov`.
pub open spec fn wire_axiom(w: AxiomWire, prov: Option<ProvenanceId>) -> Axiom {
    Axiom { kind: w.kind, provenance: prov }
}

impl NodeWire {
    /// The wire form of `n`.
    pub fn from_node(n: Node) -> (r: NodeWire)
        ensures
            r.id@ == hex_lower(id_bytes(n.id)),
            wire_node(r, n.id) == n,
    {
        NodeWire { id: encode_id(n.id), iri: n.iri, types: n.types, properties: n.properties }
    }

    /// The node this wire form denotes.
    pub fn into_node(self) -> (r: Result<Node, IdError>)
        ensures
            r == match decoded_id(self.id@) {
                Ok(id) => Ok(wire_node(self, id)),
                Err(e) => Err(e),
            },
    {
        let id = decode_id(&self.id)?;
        Ok(Node { id, iri: self.iri, types: self.types, properties: self.properties })
    }
}

impl EdgeWire {
    /// The wire form of `e`.
    pub fn from_edge(e: Edge) -> (r: EdgeWire)
        ensures
            r.source@ == hex_lower(id_bytes(e.source)),
            r.target@ == hex_lower(id_bytes(e.target)),
            wire_edge(r, e.source, e.target) == e,
    {
        EdgeWire {
            label: e.label,
            source: encode_id(e.source),
            target: encode_id(e.target),
            properties: e.properties,
        }
    }

    /// The edge this wire form denotes (source read first).
    pub fn into_edge(self) -> (r: Result<Edge, IdError>)
        ensures
            r == match (decoded_id(self.source@), decoded_id(self.target@)) {
                (Err(e), _) => Err(e),
                (Ok(_), Err(e)) => Err(e),
                (Ok(s), Ok(t)) => Ok(wire_edge(self, s, t)),
            },
    {
        let source = decode_id(&self.source)?;
        let target = decode_id(&self.target)?;
        Ok(Edge { source, label: self.label, target, properties: self.properties })
    }
}

impl AxiomWire {
    /// The wire form of `a`.
    pub fn from_axiom(a: Axiom) -> (r: AxiomWire)
        ensures
            r.kind == a.kind,
            match (r.provenance, a.provenance) {
                (Some(t), Some(p)) => t@ == hex_lower(id_bytes(p)),
                (None, None) => true,
                _ => false,
            },
    {
        let provenance = match a.provenance {
            Some(p) => Some(encode_id(p)),
            None => None,
        };
        AxiomWire { kind: a.kind, provenance }
    }

    /// The axiom this wire form denotes.
    pub fn into_axiom(self) -> (r: Result<Axiom, IdError>)
        ensures
            r == match self.provenance {
                Some(t) => match decoded_id(t@) {
                    Ok(p) => Ok(wire_axiom(self, Some(p))),
                    Err(e) => Err(e),
                },
                None => Ok(wire_axiom(self, None)),
            },
    {
        let provenance = match &self.provenance {
            Some(t) => Some(decode_id(t)?),
            None => None,
        };
        Ok(Axiom { kind: self.kind, provenance })
    }
}

/// Wire form of an ontology.
#[derive(Clone, Debug)]
pub struct OntologyWire {
    pub iri: Option<String>,
    pub vocabulary: Vocabulary,
    pub schema: Schema,
    pub nodes: Vec<NodeWire>,
    pub edges: Vec<EdgeWire>,
    pub axioms: Vec<AxiomWire>,
}

/// The provenance texts of a list of wire axioms, for those that carry one.
pub open spec fn provenance_ids(s: Seq<AxiomWire>) -> Seq<Seq<char>>
    decreases s.len(),
{
    if s.len() == 0 {
        seq![]
    } else {
        match s.last().provenance {
            Some(t) => provenance_ids(s.drop_last()).push(t@),
            None => provenance_ids(s.drop_last()),
        }
    }
}

/// Every identifier text of a wire ontology, in the order they are read:
/// node ids, edge endpoints (source then target), axiom provenance.
pub open spec fn ontology_wire_ids(w: OntologyWire) -> Seq<Seq<char>> {
    w.nodes@.map_values(|n: NodeWire| n.id@) + pair_ids(
        w.edges@.map_values(|e: EdgeWire| (e.source@, e.target@)),
    ) + provenance_ids(w.axioms@)
}

/// `s` with the nodes of wire list `d` upserted in turn.
pub open spec fn wire_nodes_upserted(s: Seq<Node>, d: Seq<NodeWire>) -> Seq<Node>
    decreases d.len(),
{
    if d.len() == 0 {
        s
    } else {
        node_upserted(wire_nodes_upserted(s, d.drop_last()), wire_node(d.last(), ok_id(d.last().id@)))
    }
}

/// `s` with the edges of wire list `d` upserted in turn.
pub open spec fn wire_edges_upserted(s: Seq<Edge>, d: Seq<EdgeWire>) -> Seq<Edge>
    decreases d.len(),
{
    if d.len() == 0 {
        s
    } else {
        edge_upserted(
            wire_edges_upserted(s, d.drop_last()),
            wire_edge(d.last(), ok_id(d.last().source@), ok_id(d.last().target@)),
        )
    }
}

/// `s` with the axioms of wire list `d` upserted in turn.
pub open spec fn wire_axioms_upserted(s: Seq<Axiom>, d: Seq<AxiomWire>) -> Seq<Axiom>
    decreases d.len(),
{
    if d.len() == 0 {
        s
    } else {
        axiom_upserted(
            wire_axioms_upserted(s, d.drop_last()),
            wire_axiom(
                d.last(),
                match d.last().provenance {
                    Some(t) => Some(ok_id(t@)),
                    None => None,
                },
            ),
        )
    }
}

/// The provenance texts of a prefix of `w` lead those of a longer prefix.
proof fn lemma_provenance_ids_prefix(w: Seq<AxiomWire>, i: int, j: int)
    requires
        0 <= i <= j <= w.len(),
    ensures
        provenance_ids(w.take(i)).len() <= provenance_ids(w.take(j)).len(),
        provenance_ids(w.take(j)).take(provenance_ids(w.take(i)).len() as int) == provenance_ids(w.take(i)),
    decreases j - i,
{
    if i < j {
        lemma_provenance_ids_prefix(w, i, j - 1);
        assert(w.take(j).drop_last() =~= w.take(j - 1));
        let a = provenance_ids(w.take(i));
        let b = provenance_ids(w.take(j - 1));
        let c = provenance_ids(w.take(j));
        assert(c.take(a.len() as int) =~= b.take(a.len() as int));
    } else {
        let a = provenance_ids(w.take(i));
        assert(a.take(a.len() as int) =~= a);
    }
}

fn add_wire_nodes(o: &mut Ontology, nodes: Vec<NodeWire>, Ghost(all): Ghost<Seq<Seq<char>>>, Ghost(offset): Ghost<int>) -> (r: Result<(), IdError>)
    requires
        0 <= offset,
        offset + nodes@.len() <= all.len(),
        all.subrange(offset, offset + nodes@.len()) == nodes@.map_values(|n: NodeWire| n.id@),
        all_decode(all.take(offset)),
    ensures
        match r {
            Ok(()) => final(o).nodes@ == wire_nodes_upserted(old(o).nodes@, nodes@) && all_decode(all.take(offset + nodes@.len())),
            Err(e) => fails_first(all, e),
        },
        final(o).edges@ == old(o).edges@,
        final(o).axioms@ == old(o).axioms@,
        final(o).iri == old(o).iri,
        final(o).vocabulary == old(o).vocabulary,
        final(o).schema == old(o).schema,
{
    let ghost w = nodes@;
    let ghost ids = nodes@.map_values(|n: NodeWire| n.id@);
    let mut nodes = nodes;
    let n = nodes.len();
    let mut i: usize = 0;
    while i < n
        invariant
            i <= n,
            n == w.len(),
            0 <= offset,
            offset + n <= all.len(),
            all.subrange(offset, offset + n) == ids,
            ids == w.map_values(|n: NodeWire| n.id@),
            nodes@ == w.skip(i as int),
            all_decode(all.take(offset + i)),
            o.nodes@ == wire_nodes_upserted(old(o).nodes@, w.take(i as int)),
            o.edges@ == old(o).edges@,
            o.axioms@ == old(o).axioms@,
            o.iri == old(o).iri,
            o.vocabulary == old(o).vocabulary,
            o.schema == old(o).schema,
        decreases n - i,
    {
        let nw = nodes.remove(0);
        assert(nw == w[i as int]);
        assert(all[offset + i] == all.subrange(offset, offset + n)[i as int]);
        assert(all[offset + i] == nw.id@);
        assert(w.take(i + 1).drop_last() =~= w.take(i as int));
        assert(nodes@ =~= w.skip(i + 1));
        match nw.into_node() {
            Ok(node) => {
                proof {
                    lemma_decodes_one_more(all, offset + i);
                }
                o.upsert_node(node);
            },
            Err(e) => {
                proof {
                    lemma_fails_at(all, offset + i, e);
                }
                return Err(e);
            },
        }
        i = i + 1;
    }
    assert(w.take(n as int) =~= w);
    Ok(())
}

fn add_wire_edges(o: &mut Ontology, edges: Vec<EdgeWire>, Ghost(all): Ghost<Seq<Seq<char>>>, Ghost(offset): Ghost<int>) -> (r: Result<(), IdError>)
    requires
        0 <= offset,
        offset + 2 * edges@.len() <= all.len(),
        all.subrange(offset, offset + 2 * edges@.len()) == pair_ids(edges@.map_values(|e: EdgeWire| (e.source@, e.target@))),
        all_decode(all.take(offset)),
    ensures
        match r {
            Ok(()) => final(o).edges@ == wire_edges_upserted(old(o).edges@, edges@) && all_decode(all.take(offset + 2 * edges@.len())),
            Err(e) => fails_first(all, e),
        },
        final(o).nodes@ == old(o).nodes@,
        final(o).axioms@ == old(o).axioms@,
        final(o).iri == old(o).iri,
        final(o).vocabulary == old(o).vocabulary,
        final(o).schema == old(o).schema,
{
    let ghost w = edges@;
    let ghost ids = pair_ids(edges@.map_values(|e: EdgeWire| (e.source@, e.target@)));
    let mut edges = edges;
    let n = edges.len();
    let mut i: usize = 0;
    while i < n
        invariant
            i <= n,
            n == w.len(),
            0 <= offset,
            offset + 2 * n <= all.len(),
            all.subrange(offset, offset + 2 * n) == ids,
            ids == pair_ids(w.map_values(|e: EdgeWire| (e.source@, e.target@))),
            edges@ == w.skip(i as int),
            all_decode(all.take(offset + 2 * i)),
            o.edges@ == wire_edges_upserted(old(o).edges@, w.take(i as int)),
            o.nodes@ == old(o).nodes@,
            o.axioms@ == old(o).axioms@,
            o.iri == old(o).iri,
            o.vocabulary == old(o).vocabulary,
            o.schema == old(o).schema,
        decreases n - i,
    {
        let ew = edges.remove(0);
        let g = Ghost(offset + 2 * i);
        assert(ew == w[i as int]);
        assert(all[g@] == ids[2 * i]);
        assert(all[g@ + 1] == ids[2 * i + 1]);
        assert(w.map_values(|e: EdgeWire| (e.source@, e.target@))[i as int] == (ew.source@, ew.target@));
        assert(w.take(i + 1).drop_last() =~= w.take(i as int));
        assert(edges@ =~= w.skip(i + 1));
        match ew.into_edge() {
            Ok(edge) => {
                proof {
                    lemma_decodes_one_more(all, g@);
                    lemma_decodes_one_more(all, g@ + 1);
                }
                o.upsert_edge(edge);
            },
            Err(e) => {
                proof {
                    if decoded_id(all[g@]) is Ok {
                        lemma_decodes_one_more(all, g@);
                        lemma_fails_at(all, g@ + 1, e);
                    } else {
                        lemma_fails_at(all, g@, e);
                    }
                }
                return Err(e);
            },
        }
        i = i + 1;
    }
    assert(w.take(n as int) =~= w);
    Ok(())
}

fn add_wire_axioms(o: &mut Ontology, axioms: Vec<AxiomWire>, Ghost(all): Ghost<Seq<Seq<char>>>, Ghost(offset): Ghost<int>) -> (r: Result<(), IdError>)
    requires
        0 <= offset,
        offset + provenance_ids(axioms@).len() <= all.len(),
        all.subrange(offset, offset + provenance_ids(axioms@).len()) == provenance_ids(axioms@),
        all_decode(all.take(offset)),
    ensures
        match r {
            Ok(()) => final(o).axioms@ == wire_axioms_upserted(old(o).axioms@, axioms@) && all_decode(all.take(offset + provenance_ids(axioms@).len())),
            Err(e) => fails_first(all, e),
        },
        final(o).nodes@ == old(o).nodes@,
        final(o).edges@ == old(o).edges@,
        final(o).iri == old(o).iri,
        final(o).vocabulary == old(o).vocabulary,
        final(o).schema == old(o).schema,
{
    let ghost w = axioms@;
    let ghost ids = provenance_ids(axioms@);
    let mut axioms = axioms;
    let n = axioms.len();
    let mut i: usize = 0;
    assert(w.take(0) =~= Seq::<AxiomWire>::empty());
    while i < n
        invariant
            i <= n,
            n == w.len(),
            0 <= offset,
            offset + ids.len() <= all.len(),
            all.subrange(offset, offset + ids.len()) == ids,
            ids == provenance_ids(w),
            axioms@ == w.skip(i as int),
            all_decode(all.take(offset + provenance_ids(w.take(i as int)).len())),
            o.axioms@ == wire_axioms_upserted(old(o).axioms@, w.take(i as int)),
            o.nodes@ == old(o).nodes@,
            o.edges@ == old(o).edges@,
            o.iri == old(o).iri,
            o.vocabulary == old(o).vocabulary,
            o.schema == old(o).schema,
        decreases n - i,
    {
        let aw = axioms.remove(0);
        assert(aw == w[i as int]);
        assert(w.take(i + 1).drop_last() =~= w.take(i as int));
        assert(axioms@ =~= w.skip(i + 1));
        let ghost c = provenance_ids(w.take(i as int)).len() as int;
        proof {
            lemma_provenance_ids_prefix(w, i + 1, n as int);
            assert(w.take(n as int) =~= w);
        }
        match aw.into_axiom() {
            Ok(ax) => {
                proof {
                    if aw.provenance is Some {
                        assert(provenance_ids(w.take(i + 1)) == provenance_ids(w.take(i as int)).push(aw.provenance->0@));
                        assert(all[offset + c] == ids[c]);
                        assert(ids[c] == provenance_ids(w.take(i + 1))[c]);
                        lemma_decodes_one_more(all, offset + c);
                    }
                }
                o.upsert_axiom(ax);
            },
            Err(e) => {
                proof {
                    assert(provenance_ids(w.take(i + 1)) == provenance_ids(w.take(i as int)).push(aw.provenance->0@));
                    assert(all[offset + c] == ids[c]);
                    assert(ids[c] == provenance_ids(w.take(i + 1))[c]);
                    lemma_fails_at(all, offset + c, e);
                }
                return Err(e);
            },
        }
        i = i + 1;
    }
    assert(w.take(n as int) =~= w);
    Ok(())
}

/// `o` is the ontology wire form `w` denotes: its IRI, vocabulary and
/// schema, and its nodes, edges and axioms upserted in turn.
pub open spec fn ontology_read(w: OntologyWire, o: Ontology) -> bool {
    &&& o.iri == w.iri
    &&& o.vocabulary == w.vocabulary
    &&& o.schema == w.schema
    &&& o.nodes@ == wire_nodes_upserted(seq![], w.nodes@)
    &&& o.edges@ == wire_edges_upserted(seq![], w.edges@)
    &&& o.axioms@ == wire_axioms_upserted(seq![], w.axioms@)
}

impl OntologyWire {
    /// The ontology this wire form denotes. Fails with the first
    /// identifier that cannot be read.
    pub fn into_ontology(self) -> (r: Result<Ontology, IdError>)
        ensures
            r is Ok <==> all_decode(ontology_wire_ids(self)),
            r matches Err(e) ==> fails_first(ontology_wire_ids(self), e),
            r matches Ok(o) ==> ontology_read(self, o),
    {
        let ghost all = ontology_wire_ids(self);
        let ghost w = self;
        let ghost nn = self.nodes@.len();
        let ghost ne = self.edges@.len();
        let OntologyWire { iri, vocabulary, schema, nodes, edges, axioms } = self;
        let mut o = Ontology::new();
        o.iri = iri;
        o.vocabulary = vocabulary;
        o.schema = schema;
        assert(o.nodes@ =~= seq![]);
        assert(o.edges@ =~= seq![]);
        assert(o.axioms@ =~= seq![]);
        assert(all.take(0) =~= Seq::<Seq<char>>::empty());
        assert(all.subrange(0, nn as int) =~= w.nodes@.map_values(|n: NodeWire| n.id@));
        add_wire_nodes(&mut o, nodes, Ghost(all), Ghost(0))?;
        assert(all.subrange(nn as int, (nn + 2 * ne) as int) =~= pair_ids(w.edges@.map_values(|e: EdgeWire| (e.source@, e.target@))));
        add_wire_edges(&mut o, edges, Ghost(all), Ghost(nn as int))?;
        let ghost o2: int = (nn + 2 * ne) as int;
        assert(all.subrange(o2, o2 + provenance_ids(w.axioms@).len()) =~= provenance_ids(w.axioms@));
        add_wire_axioms(&mut o, axioms, Ghost(all), Ghost(o2))?;
        assert(all.take(o2 + provenance_ids(w.axioms@).len()) =~= all);
        Ok(o)
    }
}

/// `r` is the wire form of `o`: its nodes, edges and axioms in order,
/// identifiers in lower-case hex.
pub open spec fn ontology_written(o: Ontology, r: OntologyWire) -> bool {
    &&& r.iri == o.iri
    &&& r.vocabulary == o.vocabulary
    &&& r.schema == o.schema
    &&& r.nodes@.len() == o.nodes@.len()
    &&& forall|i: int|
        0 <= i < o.nodes@.len() ==> #[trigger] wire_node(r.nodes@[i], o.nodes@[i].id) == o.nodes@[i]
            && r.nodes@[i].id@ == hex_lower(id_bytes(o.nodes@[i].id))
    &&& r.edges@.len() == o.edges@.len()
    &&& forall|i: int|
        0 <= i < o.edges@.len() ==> #[trigger] wire_edge(r.edges@[i], o.edges@[i].source, o.edges@[i].target)
            == o.edges@[i] && r.edges@[i].source@ == hex_lower(id_bytes(o.edges@[i].source))
            && r.edges@[i].target@ == hex_lower(id_bytes(o.edges@[i].target))
    &&& r.axioms@.len() == o.axioms@.len()
    &&& forall|i: int|
        0 <= i < o.axioms@.len() ==> (#[trigger] r.axioms@[i]).kind == o.axioms@[i].kind
            && match (r.axioms@[i].provenance, o.axioms@[i].provenance) {
                (Some(t), Some(p)) => t@ == hex_lower(id_bytes(p)),
                (None, None) => true,
                _ => false,
            }
}

impl OntologyWire {
    /// The wire form of `o`: its nodes, edges and axioms in order.
    pub fn from_ontology(o: Ontology) -> (r: OntologyWire)
        ensures
            ontology_written(o, r),
    {
        let Ontology { iri, vocabulary, schema, nodes, edges, axioms } = o;
        let ghost (n0, e0, a0) = (nodes@, edges@, axioms@);
        let mut nodes = nodes;
        let mut nw: Vec<NodeWire> = Vec::new();
        let len = nodes.len();
        let mut i: usize = 0;
        while i < len
            invariant
                i <= len,
                len == n0.len(),
                nodes@ == n0.skip(i as int),
                nw@.len() == i,
                forall|j: int| 0 <= j < i ==> #[trigger] wire_node(nw@[j], n0[j].id) == n0[j]
                    && nw@[j].id@ == hex_lower(id_bytes(n0[j].id)),
            decreases len - i,
        {
            let n = nodes.remove(0);
            assert(n == n0[i as int]);
            assert(nodes@ =~= n0.skip(i + 1));
            nw.push(NodeWire::from_node(n));
            i = i + 1;
        }
        let mut edges = edges;
        let mut ew: Vec<EdgeWire> = Vec::new();
        let len = edges.len();
        let mut i: usize = 0;
        while i < len
            invariant
                i <= len,
                len == e0.len(),
                edges@ == e0.skip(i as int),
                ew@.len() == i,
                forall|j: int| 0 <= j < i ==> #[trigger] wire_edge(ew@[j], e0[j].source, e0[j].target) == e0[j]
                    && ew@[j].source@ == hex_lower(id_bytes(e0[j].source))
                    && ew@[j].target@ == hex_lower(id_bytes(e0[j].target)),
            decreases len - i,
        {
            let e = edges.remove(0);
            assert(e == e0[i as int]);
            assert(edges@ =~= e0.skip(i + 1));
            ew.push(EdgeWire::from_edge(e));
            i = i + 1;
        }
        let mut axioms = axioms;
        let mut aw: Vec<AxiomWire> = Vec::new();
        let len = axioms.len();
        let mut i: usize = 0;
        while i < len
            invariant
                i <= len,
                len == a0.len(),
                axioms@ == a0.skip(i as int),
                aw@.len() == i,
                forall|j: int| 0 <= j < i ==> (#[trigger] aw@[j]).kind == a0[j].kind
                    && match (aw@[j].provenance, a0[j].provenance) {
                        (Some(t), Some(p)) => t@ == hex_lower(id_bytes(p)),
                        (None, None) => true,
                        _ => false,
                    },
            decreases len - i,
        {
            let a = axioms.remove(0);
            assert(a == a0[i as int]);
            assert(axioms@ =~= a0.skip(i + 1));
            aw.push(AxiomWire::from_axiom(a));
            i = i + 1;
        }
        OntologyWire { iri, vocabulary, schema, nodes: nw, edges: ew, axioms: aw }
    }
}

/// `r` is the wire form of `log`: its records in order, identifiers in
/// lower-case hex.
pub open spec fn log_written(log: ProvenanceLog, r: ProvenanceLogWire) -> bool {
    &&& r.activities@.len() == log.activities@.len()
    &&& forall|i: int|
        0 <= i < log.activities@.len() ==> #[trigger] wire_activity(r.activities@[i], log.activities@[i].id)
            == log.activities@[i] && r.activities@[i].id@ == hex_lower(id_bytes(log.activities@[i].id))
    &&& r.entities@.len() == log.entities@.len()
    &&& forall|i: int|
        0 <= i < log.entities@.len() ==> #[trigger] wire_entity(r.entities@[i], log.entities@[i].id)
            == log.entities@[i] && r.entities@[i].id@ == hex_lower(id_bytes(log.entities@[i].id))
    &&& r.generations@.len() == log.generations@.len()
    &&& forall|i: int|
        0 <= i < log.generations@.len() ==> (#[trigger] r.generations@[i]).first@ == hex_lower(
            id_bytes(log.generations@[i].entity),
        ) && r.generations@[i].second@ == hex_lower(id_bytes(log.generations@[i].activity))
    &&& r.derivations@.len() == log.derivations@.len()
    &&& forall|i: int|
        0 <= i < log.derivations@.len() ==> (#[trigger] r.derivations@[i]).first@ == hex_lower(
            id_bytes(log.derivations@[i].derived),
        ) && r.derivations@[i].second@ == hex_lower(id_bytes(log.derivations@[i].source))
    &&& r.uses@.len() == log.uses@.len()
    &&& forall|i: int|
        0 <= i < log.uses@.len() ==> (#[trigger] r.uses@[i]).first@ == hex_lower(
            id_bytes(log.uses@[i].activity),
        ) && r.uses@[i].second@ == hex_lower(id_bytes(log.uses@[i].entity))
    &&& r.attributions == log.attributions
}

impl ProvenanceLogWire {
    /// The wire form of `log`: its records in order.
    pub fn from_log(log: ProvenanceLog) -> (r: ProvenanceLogWire)
        ensures
            log_written(log, r),
    {
        let ProvenanceLog { activities, entities, generations, derivations, attributions, uses } = log;
        let ghost (a0, e0) = (activities@, entities@);
        let mut activities = activities;
        let mut aw: Vec<ActivityWire> = Vec::new();
        let len = activities.len();
        let mut i: usize = 0;
        while i < len
            invariant
                i <= len,
                len == a0.len(),
                activities@ == a0.skip(i as int),
                aw@.len() == i,
                forall|j: int| 0 <= j < i ==> #[trigger] wire_activity(aw@[j], a0[j].id) == a0[j]
                    && aw@[j].id@ == hex_lower(id_bytes(a0[j].id)),
            decreases len - i,
        {
            let a = activities.remove(0);
            assert(a == a0[i as int]);
            assert(activities@ =~= a0.skip(i + 1));
            aw.push(ActivityWire::from_activity(a));
            i = i + 1;
        }
        let mut entities = entities;
        let mut ew: Vec<ProvEntityWire> = Vec::new();
        let len = entities.len();
        let mut i: usize = 0;
        while i < len
            invariant
                i <= len,
                len == e0.len(),
                entities@ == e0.skip(i as int),
                ew@.len() == i,
                forall|j: int| 0 <= j < i ==> #[trigger] wire_entity(ew@[j], e0[j].id) == e0[j]
                    && ew@[j].id@ == hex_lower(id_bytes(e0[j].id)),
            decreases len - i,
        {
            let e = entities.remove(0);
            assert(e == e0[i as int]);
            assert(entities@ =~= e0.skip(i + 1));
            ew.push(ProvEntityWire::from_entity(e));
            i = i + 1;
        }
        let mut gw: Vec<IdPairWire> = Vec::new();
        let mut i: usize = 0;
        while i < generations.len()
            invariant
                i <= generations@.len(),
                gw@.len() == i,
                forall|j: int| 0 <= j < i ==> (#[trigger] gw@[j]).first@ == hex_lower(id_bytes(generations@[j].entity))
                    && gw@[j].second@ == hex_lower(id_bytes(generations@[j].activity)),
            decreases generations@.len() - i,
        {
            gw.push(IdPairWire { first: encode_id(generations[i].entity), second: encode_id(generations[i].activity) });
            i = i + 1;
        }
        let mut dw: Vec<IdPairWire> = Vec::new();
        let mut i: usize = 0;
        while i < derivations.len()
            invariant
                i <= derivations@.len(),
                dw@.len() == i,
                forall|j: int| 0 <= j < i ==> (#[trigger] dw@[j]).first@ == hex_lower(id_bytes(derivations@[j].derived))
                    && dw@[j].second@ == hex_lower(id_bytes(derivations@[j].source)),
            decreases derivations@.len() - i,
        {
            dw.push(IdPairWire { first: encode_id(derivations[i].derived), second: encode_id(derivations[i].source) });
            i = i + 1;
        }
        let mut uw: Vec<IdPairWire> = Vec::new();
        let mut i: usize = 0;
        while i < uses.len()
            invariant
                i <= uses@.len(),
                uw@.len() == i,
                forall|j: int| 0 <= j < i ==> (#[trigger] uw@[j]).first@ == hex_lower(id_bytes(uses@[j].activity))
                    && uw@[j].second@ == hex_lower(id_bytes(uses@[j].entity)),
            decreases uses@.len() - i,
        {
            uw.push(IdPairWire { first: encode_id(uses[i].activity), second: encode_id(uses[i].entity) });
            i = i + 1;
        }
        ProvenanceLogWire {
            activities: aw,
            entities: ew,
            generations: gw,
            derivations: dw,
            attributions,
            uses: uw,
        }
    }
}

/// Wire form of a snapshot.
#[derive(Clone, Debug)]
pub struct SnapshotWire {
    pub ontology: OntologyWire,
    pub provenance: ProvenanceLogWire,
    pub version: u64,
}

/// `log` is the ledger wire form `w` denotes.
pub open spec fn log_read(w: ProvenanceLogWire, log: ProvenanceLog) -> bool {
    &&& log.wf()
    &&& activity_map(log.activities@) == activities_recorded(w.activities@)
    &&& entity_map(log.entities@) == entities_recorded(w.entities@)
    &&& log.generations@ == ok_pairs(w.generations@).map_values(|p: (u64, u64)| WasGeneratedBy { entity: p.0, activity: p.1 })
    &&& log.derivations@ == ok_pairs(w.derivations@).map_values(|p: (u64, u64)| WasDerivedFrom { derived: p.0, source: p.1 })
    &&& log.uses@ == ok_pairs(w.uses@).map_values(|p: (u64, u64)| Used { activity: p.0, entity: p.1 })
    &&& log.attributions == w.attributions
}

impl SnapshotWire {
    /// The wire form of `s`.
    pub fn from_snapshot(s: Snapshot) -> (r: SnapshotWire)
        ensures
            ontology_written(s.ontology, r.ontology),
            log_written(s.provenance, r.provenance),
            r.version == s.version,
    {
        SnapshotWire {
            ontology: OntologyWire::from_ontology(s.ontology),
            provenance: ProvenanceLogWire::from_log(s.provenance),
            version: s.version,
        }
    }

    /// The snapshot this wire form denotes. Fails with the first identifier
    /// that cannot be read, the ontology's before the ledger's.
    pub fn into_snapshot(self) -> (r: Result<Snapshot, IdError>)
        ensures
            r is Ok <==> all_decode(ontology_wire_ids(self.ontology) + log_wire_ids(self.provenance)),
            r matches Err(e) ==> fails_first(ontology_wire_ids(self.ontology) + log_wire_ids(self.provenance), e),
            r matches Ok(s) ==> ontology_read(self.ontology, s.ontology) && log_read(self.provenance, s.provenance)
                && s.version == self.version,
    {
        let ghost a = ontology_wire_ids(self.ontology);
        let ghost b = log_wire_ids(self.provenance);
        let version = self.version;
        let ontology = match self.ontology.into_ontology() {
            Ok(o) => o,
            Err(e) => {
                proof {
                    let i = choose|i: int| 0 <= i < a.len() && decoded_id(#[trigger] a[i]) == Err::<u64, IdError>(e) && forall|j: int| 0 <= j < i ==> (#[trigger] decoded_id(a[j])) is Ok;
                    assert((a + b)[i] == a[i]);
                    assert forall|j: int| 0 <= j < i implies (#[trigger] decoded_id((a + b)[j])) is Ok by {
                        assert((a + b)[j] == a[j]);
                        assert(decoded_id(a[j]) is Ok);
                    }
                }
                return Err(e);
            },
        };
        let provenance = match self.provenance.into_log() {
            Ok(l) => l,
            Err(e) => {
                proof {
                    let i = choose|i: int| 0 <= i < b.len() && decoded_id(#[trigger] b[i]) == Err::<u64, IdError>(e) && forall|j: int| 0 <= j < i ==> (#[trigger] decoded_id(b[j])) is Ok;
                    assert((a + b)[a.len() + i] == b[i]);
                    assert forall|j: int| 0 <= j < a.len() + i implies (#[trigger] decoded_id((a + b)[j])) is Ok by {
                        if j < a.len() {
                            assert((a + b)[j] == a[j]);
                            assert(decoded_id(a[j]) is Ok);
                        } else {
                            assert((a + b)[j] == b[j - a.len()]);
                            assert(decoded_id(b[j - a.len()]) is Ok);
                        }
                    }
                }
                return Err(e);
            },
        };
        assert forall|j: int| 0 <= j < (a + b).len() implies (#[trigger] decoded_id((a + b)[j])) is Ok by {
            if j < a.len() {
                assert((a + b)[j] == a[j]);
                assert(decoded_id(a[j]) is Ok);
            } else {
                assert((a + b)[j] == b[j - a.len()]);
                assert(decoded_id(b[j - a.len()]) is Ok);
            }
        }
        Ok(Snapshot { ontology, provenance, version })
    }
}


// ---------------------------------------------------------------------
// Round trip
// ---------------------------------------------------------------------

/// The wire text of an identifier reads back as that identifier.
proof fn lemma_ok_id(x: u64)
    ensures
        decoded_id(hex_lower(id_bytes(x))) is Ok,
        ok_id(hex_lower(id_bytes(x))) == x,
{
    law_id_round_trip(x);
}

/// Two lists whose texts all read back read back together.
proof fn lemma_all_decode_concat(a: Seq<Seq<char>>, b: Seq<Seq<char>>)
    requires
        all_decode(a),
        all_decode(b),
    ensures
        all_decode(a + b),
{
    assert forall|j: int| 0 <= j < (a + b).len() implies (#[trigger] decoded_id((a + b)[j])) is Ok by {
        if j < a.len() {
            assert((a + b)[j] == a[j]);
            assert(decoded_id(a[j]) is Ok);
        } else {
            assert((a + b)[j] == b[j - a.len()]);
            assert(decoded_id(b[j - a.len()]) is Ok);
        }
    }
}

/// The texts of pairs written from identifiers all read back.
proof fn lemma_pair_ids_decode(s: Seq<(Seq<char>, Seq<char>)>, xs: Seq<(u64, u64)>)
    requires
        s.len() == xs.len(),
        forall|i: int| 0 <= i < s.len() ==> (#[trigger] s[i]).0 == hex_lower(id_bytes(xs[i].0)) && s[i].1 == hex_lower(id_bytes(xs[i].1)),
    ensures
        all_decode(pair_ids(s)),
{
    assert forall|j: int| 0 <= j < pair_ids(s).len() implies (#[trigger] decoded_id(pair_ids(s)[j])) is Ok by {
        let k = j / 2;
        assert(s[k].0 == hex_lower(id_bytes(xs[k].0)));
        lemma_ok_id(xs[k].0);
        lemma_ok_id(xs[k].1);
    }
}

/// Wire pairs written from identifiers read back as those identifiers.
proof fn lemma_ok_pairs(s: Seq<IdPairWire>, xs: Seq<(u64, u64)>)
    requires
        s.len() == xs.len(),
        forall|i: int| 0 <= i < s.len() ==> (#[trigger] s[i]).first@ == hex_lower(id_bytes(xs[i].0)) && s[i].second@ == hex_lower(id_bytes(xs[i].1)),
    ensures
        ok_pairs(s) == xs,
        all_decode(pair_ids(pairs_view(s))),
{
    assert forall|i: int| 0 <= i < s.len() implies #[trigger] ok_pairs(s)[i] == xs[i] by {
        lemma_ok_id(xs[i].0);
        lemma_ok_id(xs[i].1);
    }
    assert(ok_pairs(s) =~= xs);
    lemma_pair_ids_decode(pairs_view(s), xs);
}

/// The provenance text an axiom's wire form carries, if any, reads back.
pub open spec fn provenance_reads(w: AxiomWire) -> bool {
    match w.provenance {
        Some(t) => decoded_id(t@) is Ok,
        None => true,
    }
}

/// Provenance texts written from identifiers all read back.
proof fn lemma_provenance_ids_decode(ws: Seq<AxiomWire>)
    requires
        forall|i: int| 0 <= i < ws.len() ==> provenance_reads(#[trigger] ws[i]),
    ensures
        all_decode(provenance_ids(ws)),
    decreases ws.len(),
{
    if ws.len() > 0 {
        let d = ws.drop_last();
        assert forall|i: int| 0 <= i < d.len() implies provenance_reads(#[trigger] d[i]) by {
            assert(d[i] == ws[i]);
        }
        lemma_provenance_ids_decode(d);
        assert(ws[ws.len() - 1] == ws.last());
    }
}

/// Nodes with distinct ids, written and read back in turn, are the same nodes.
proof fn lemma_nodes_read(ns: Seq<Node>, ws: Seq<NodeWire>)
    requires
        ns.len() == ws.len(),
        forall|i: int| 0 <= i < ns.len() ==> #[trigger] wire_node(ws[i], ns[i].id) == ns[i] && ws[i].id@ == hex_lower(id_bytes(ns[i].id)),
        forall|i: int, j: int| 0 <= i < j < ns.len() ==> ns[i].id != ns[j].id,
    ensures
        wire_nodes_upserted(seq![], ws) == ns,
    decreases ns.len(),
{
    if ns.len() > 0 {
        let n = (ns.len() - 1) as int;
        let (nd, wd) = (ns.drop_last(), ws.drop_last());
        assert forall|i: int| 0 <= i < nd.len() implies #[trigger] wire_node(wd[i], nd[i].id) == nd[i] && wd[i].id@ == hex_lower(id_bytes(nd[i].id)) by {
            assert(nd[i] == ns[i] && wd[i] == ws[i]);
        }
        lemma_nodes_read(nd, wd);
        assert(wire_node(ws[n], ns[n].id) == ns[n]);
        lemma_ok_id(ns[n].id);
        assert(ws.last() == ws[n]);
        assert(!node_ids(nd).contains(ns[n].id)) by {
            if node_ids(nd).contains(ns[n].id) {
                let k = choose|k: int| 0 <= k < nd.len() && nd[k].id == ns[n].id;
                assert(nd[k] == ns[k]);
            }
        }
        assert(nd.push(ns[n]) =~= ns);
    }
}

/// Edges with distinct identities, written and read back in turn, are the same edges.
proof fn lemma_edges_read(es: Seq<Edge>, ws: Seq<EdgeWire>)
    requires
        es.len() == ws.len(),
        forall|i: int| 0 <= i < es.len() ==> #[trigger] wire_edge(ws[i], es[i].source, es[i].target) == es[i]
            && ws[i].source@ == hex_lower(id_bytes(es[i].source)) && ws[i].target@ == hex_lower(id_bytes(es[i].target)),
        forall|i: int, j: int| 0 <= i < j < es.len() ==> es[i].key() != es[j].key(),
    ensures
        wire_edges_upserted(seq![], ws) == es,
    decreases es.len(),
{
    if es.len() > 0 {
        let n = (es.len() - 1) as int;
        let (ed, wd) = (es.drop_last(), ws.drop_last());
        assert forall|i: int| 0 <= i < ed.len() implies #[trigger] wire_edge(wd[i], ed[i].source, ed[i].target) == ed[i]
            && wd[i].source@ == hex_lower(id_bytes(ed[i].source)) && wd[i].target@ == hex_lower(id_bytes(ed[i].target)) by {
            assert(ed[i] == es[i] && wd[i] == ws[i]);
            assert(wire_edge(ws[i], es[i].source, es[i].target) == es[i]);
            assert(ws[i].source@ == hex_lower(id_bytes(es[i].source)));
            assert(ws[i].target@ == hex_lower(id_bytes(es[i].target)));
        }
        lemma_edges_read(ed, wd);
        assert(wire_edge(ws[n], es[n].source, es[n].target) == es[n]);
        lemma_ok_id(es[n].source);
        lemma_ok_id(es[n].target);
        assert(ws.last() == ws[n]);
        assert(!edge_keys(ed).contains(es[n].key())) by {
            if edge_keys(ed).contains(es[n].key()) {
                let k = choose|k: int| 0 <= k < ed.len() && ed[k].key() == es[n].key();
                assert(ed[k] == es[k]);
            }
        }
        assert(ed.push(es[n]) =~= es);
    }
}

/// The provenance an axiom's wire form carries, read back.
pub open spec fn read_provenance(w: AxiomWire) -> Option<ProvenanceId> {
    match w.provenance {
        Some(t) => Some(ok_id(t@)),
        None => None,
    }
}

/// Axioms of distinct shapes, written and read back in turn, are the same axioms.
proof fn lemma_axioms_read(xs: Seq<Axiom>, ws: Seq<AxiomWire>)
    requires
        xs.len() == ws.len(),
        forall|i: int| 0 <= i < xs.len() ==> (#[trigger] ws[i]).kind == xs[i].kind
            && match (ws[i].provenance, xs[i].provenance) {
                (Some(t), Some(p)) => t@ == hex_lower(id_bytes(p)),
                (None, None) => true,
                _ => false,
            },
        forall|i: int, j: int| 0 <= i < j < xs.len() ==> xs[i].kind@ != xs[j].kind@,
    ensures
        wire_axioms_upserted(seq![], ws) == xs,
        forall|i: int| 0 <= i < ws.len() ==> provenance_reads(#[trigger] ws[i]),
    decreases xs.len(),
{
    if xs.len() > 0 {
        let n = (xs.len() - 1) as int;
        let (xd, wd) = (xs.drop_last(), ws.drop_last());
        assert forall|i: int| 0 <= i < xd.len() implies (#[trigger] wd[i]).kind == xd[i].kind
            && match (wd[i].provenance, xd[i].provenance) {
                (Some(t), Some(p)) => t@ == hex_lower(id_bytes(p)),
                (None, None) => true,
                _ => false,
            } by {
            assert(xd[i] == xs[i] && wd[i] == ws[i]);
        }
        lemma_axioms_read(xd, wd);
        assert(ws.last() == ws[n]);
        let w = ws[n];
        match (w.provenance, xs[n].provenance) {
            (Some(t), Some(p)) => lemma_ok_id(p),
            _ => {},
        }
        assert(wire_axiom(w, read_provenance(w)) == xs[n]);
        assert(!axiom_kinds(xd).contains(xs[n].kind@)) by {
            if axiom_kinds(xd).contains(xs[n].kind@) {
                let k = choose|k: int| 0 <= k < xd.len() && xd[k].kind@ == xs[n].kind@;
                assert(xd[k] == xs[k]);
            }
        }
        assert(xd.push(xs[n]) =~= xs);
        assert forall|i: int| 0 <= i < ws.len() implies provenance_reads(#[trigger] ws[i]) by {
            if i < n {
                assert(wd[i] == ws[i]);
            } else {
                match (ws[i].provenance, xs[i].provenance) {
                    (Some(t), Some(p)) => lemma_ok_id(p),
                    _ => {},
                }
            }
        }
    }
}

/// Recording one more activity, of a fresh identifier, adds it to the map.
proof fn lemma_activity_map_push(s: Seq<Activity>)
    requires
        s.len() > 0,
        forall|i: int, j: int| 0 <= i < j < s.len() ==> s[i].id != s[j].id,
    ensures
        activity_map(s) == activity_map(s.drop_last()).insert(s.last().id, s.last()),
{
    let d = s.drop_last();
    let n = s.len() - 1;
    let l = activity_map(s);
    let r = activity_map(d).insert(s.last().id, s.last());
    assert forall|id: ProvenanceId| #[trigger] l.contains_key(id) <==> r.contains_key(id) by {
        if l.contains_key(id) {
            let k = choose|k: int| 0 <= k < s.len() && s[k].id == id;
            if k < n {
                assert(d[k] == s[k]);
            }
        }
        if activity_map(d).contains_key(id) {
            let k = choose|k: int| 0 <= k < d.len() && d[k].id == id;
            assert(s[k] == d[k]);
        }
        if id == s.last().id {
            assert(s[n] == s.last());
        }
    }
    assert forall|id: ProvenanceId| #[trigger] l.contains_key(id) implies l[id] == r[id] by {
        let k = choose|k: int| 0 <= k < s.len() && s[k].id == id;
        if id == s.last().id {
            assert(k == n);
        } else {
            let k2 = choose|k2: int| 0 <= k2 < d.len() && d[k2].id == id;
            assert(d[k2] == s[k2]);
            assert(k == k2);
        }
    }
    assert(l =~= r);
}

/// Recording one more entity, of a fresh identifier, adds it to the map.
proof fn lemma_entity_map_push(s: Seq<ProvEntity>)
    requires
        s.len() > 0,
        forall|i: int, j: int| 0 <= i < j < s.len() ==> s[i].id != s[j].id,
    ensures
        entity_map(s) == entity_map(s.drop_last()).insert(s.last().id, s.last()),
{
    let d = s.drop_last();
    let n = s.len() - 1;
    let l = entity_map(s);
    let r = entity_map(d).insert(s.last().id, s.last());
    assert forall|id: ProvenanceId| #[trigger] l.contains_key(id) <==> r.contains_key(id) by {
        if l.contains_key(id) {
            let k = choose|k: int| 0 <= k < s.len() && s[k].id == id;
            if k < n {
                assert(d[k] == s[k]);
            }
        }
        if entity_map(d).contains_key(id) {
            let k = choose|k: int| 0 <= k < d.len() && d[k].id == id;
            assert(s[k] == d[k]);
        }
        if id == s.last().id {
            assert(s[n] == s.last());
        }
    }
    assert forall|id: ProvenanceId| #[trigger] l.contains_key(id) implies l[id] == r[id] by {
        let k = choose|k: int| 0 <= k < s.len() && s[k].id == id;
        if id == s.last().id {
            assert(k == n);
        } else {
            let k2 = choose|k2: int| 0 <= k2 < d.len() && d[k2].id == id;
            assert(d[k2] == s[k2]);
            assert(k == k2);
        }
    }
    assert(l =~= r);
}

/// Activities with distinct ids, written and recorded back in turn, key the same map.
proof fn lemma_activities_read(xs: Seq<Activity>, ws: Seq<ActivityWire>)
    requires
        xs.len() == ws.len(),
        forall|i: int| 0 <= i < xs.len() ==> #[trigger] wire_activity(ws[i], xs[i].id) == xs[i] && ws[i].id@ == hex_lower(id_bytes(xs[i].id)),
        forall|i: int, j: int| 0 <= i < j < xs.len() ==> xs[i].id != xs[j].id,
    ensures
        activities_recorded(ws) == activity_map(xs),
    decreases xs.len(),
{
    if xs.len() == 0 {
        assert(activity_map(xs) =~= Map::empty());
    } else {
        let n = (xs.len() - 1) as int;
        let (xd, wd) = (xs.drop_last(), ws.drop_last());
        assert forall|i: int| 0 <= i < xd.len() implies #[trigger] wire_activity(wd[i], xd[i].id) == xd[i] && wd[i].id@ == hex_lower(id_bytes(xd[i].id)) by {
            assert(xd[i] == xs[i] && wd[i] == ws[i]);
        }
        lemma_activities_read(xd, wd);
        assert(wire_activity(ws[n], xs[n].id) == xs[n]);
        lemma_ok_id(xs[n].id);
        assert(ws.last() == ws[n]);
        assert(xs.last() == xs[n]);
        lemma_activity_map_push(xs);
    }
}

/// Entities with distinct ids, written and recorded back in turn, key the same map.
proof fn lemma_entities_read(xs: Seq<ProvEntity>, ws: Seq<ProvEntityWire>)
    requires
        xs.len() == ws.len(),
        forall|i: int| 0 <= i < xs.len() ==> #[trigger] wire_entity(ws[i], xs[i].id) == xs[i] && ws[i].id@ == hex_lower(id_bytes(xs[i].id)),
        forall|i: int, j: int| 0 <= i < j < xs.len() ==> xs[i].id != xs[j].id,
    ensures
        entities_recorded(ws) == entity_map(xs),
    decreases xs.len(),
{
    if xs.len() == 0 {
        assert(entity_map(xs) =~= Map::empty());
    } else {
        let n = (xs.len() - 1) as int;
        let (xd, wd) = (xs.drop_last(), ws.drop_last());
        assert forall|i: int| 0 <= i < xd.len() implies #[trigger] wire_entity(wd[i], xd[i].id) == xd[i] && wd[i].id@ == hex_lower(id_bytes(xd[i].id)) by {
            assert(xd[i] == xs[i] && wd[i] == ws[i]);
        }
        lemma_entities_read(xd, wd);
        assert(wire_entity(ws[n], xs[n].id) == xs[n]);
        lemma_ok_id(xs[n].id);
        assert(ws.last() == ws[n]);
        assert(xs.last() == xs[n]);
        lemma_entity_map_push(xs);
    }
}

/// Snapshots survive the wire: the wire form of a snapshot whose ontology
/// is keyed and whose ledger is well formed reads back without error, and
/// what it reads back is that ontology, that ledger's records and that
/// version.
pub proof fn law_snapshot_round_trip(s: Snapshot, w: SnapshotWire)
    requires
        keyed(s.ontology),
        s.provenance.wf(),
        ontology_written(s.ontology, w.ontology),
        log_written(s.provenance, w.provenance),
        w.version == s.version,
    ensures
        all_decode(ontology_wire_ids(w.ontology) + log_wire_ids(w.provenance)),
        ontology_read(w.ontology, s.ontology),
        log_read(w.provenance, s.provenance),
{
    let (o, ow) = (s.ontology, w.ontology);
    let (l, lw) = (s.provenance, w.provenance);
    lemma_nodes_read(o.nodes@, ow.nodes@);
    lemma_edges_read(o.edges@, ow.edges@);
    lemma_axioms_read(o.axioms@, ow.axioms@);
    let node_texts = ow.nodes@.map_values(|n: NodeWire| n.id@);
    assert forall|i: int| 0 <= i < node_texts.len() implies (#[trigger] decoded_id(node_texts[i])) is Ok by {
        assert(node_texts[i] == ow.nodes@[i].id@);
        assert(wire_node(ow.nodes@[i], o.nodes@[i].id) == o.nodes@[i]);
        lemma_ok_id(o.nodes@[i].id);
    }
    let ends = ow.edges@.map_values(|e: EdgeWire| (e.source@, e.target@));
    let xs = o.edges@.map_values(|e: Edge| (e.source, e.target));
    assert forall|i: int| 0 <= i < ends.len() implies (#[trigger] ends[i]).0 == hex_lower(id_bytes(xs[i].0)) && ends[i].1 == hex_lower(id_bytes(xs[i].1)) by {
        assert(wire_edge(ow.edges@[i], o.edges@[i].source, o.edges@[i].target) == o.edges@[i]);
    }
    lemma_pair_ids_decode(ends, xs);
    lemma_provenance_ids_decode(ow.axioms@);
    lemma_all_decode_concat(node_texts, pair_ids(ends));
    lemma_all_decode_concat(node_texts + pair_ids(ends), provenance_ids(ow.axioms@));

    lemma_activities_read(l.activities@, lw.activities@);
    lemma_entities_read(l.entities@, lw.entities@);
    let act_texts = lw.activities@.map_values(|a: ActivityWire| a.id@);
    assert forall|i: int| 0 <= i < act_texts.len() implies (#[trigger] decoded_id(act_texts[i])) is Ok by {
        assert(act_texts[i] == lw.activities@[i].id@);
        assert(wire_activity(lw.activities@[i], l.activities@[i].id) == l.activities@[i]);
        lemma_ok_id(l.activities@[i].id);
    }
    let ent_texts = lw.entities@.map_values(|e: ProvEntityWire| e.id@);
    assert forall|i: int| 0 <= i < ent_texts.len() implies (#[trigger] decoded_id(ent_texts[i])) is Ok by {
        assert(ent_texts[i] == lw.entities@[i].id@);
        assert(wire_entity(lw.entities@[i], l.entities@[i].id) == l.entities@[i]);
        lemma_ok_id(l.entities@[i].id);
    }
    let gs = l.generations@.map_values(|g: WasGeneratedBy| (g.entity, g.activity));
    let ds = l.derivations@.map_values(|d: WasDerivedFrom| (d.derived, d.source));
    let us = l.uses@.map_values(|u: Used| (u.activity, u.entity));
    lemma_ok_pairs(lw.generations@, gs);
    lemma_ok_pairs(lw.derivations@, ds);
    lemma_ok_pairs(lw.uses@, us);
    assert(gs.map_values(|p: (u64, u64)| WasGeneratedBy { entity: p.0, activity: p.1 }) =~= l.generations@);
    assert(ds.map_values(|p: (u64, u64)| WasDerivedFrom { derived: p.0, source: p.1 }) =~= l.derivations@);
    assert(us.map_values(|p: (u64, u64)| Used { activity: p.0, entity: p.1 }) =~= l.uses@);
    lemma_all_decode_concat(act_texts, ent_texts);
    lemma_all_decode_concat(act_texts + ent_texts, pair_ids(pairs_view(lw.generations@)));
    lemma_all_decode_concat(act_texts + ent_texts + pair_ids(pairs_view(lw.generations@)), pair_ids(pairs_view(lw.derivations@)));
    lemma_all_decode_concat(
        act_texts + ent_texts + pair_ids(pairs_view(lw.generations@)) + pair_ids(pairs_view(lw.derivations@)),
        pair_ids(pairs_view(lw.uses@)),
    );
    lemma_all_decode_concat(ontology_wire_ids(ow), log_wire_ids(lw));
}

} // verus!
