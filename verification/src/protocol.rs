//! The remote store's RPC protocol: method names, envelopes, responses,
//! errors, and the parts of HTTP framing that need no socket.
use vstd::prelude::*;

use crate::model::ProvenanceId;
use crate::store::SortOrder;

verus! {

/// The store operations reachable over RPC.
#[derive(Clone, Copy, Debug, PartialEq, Eq, Structural)]
pub enum RpcMethod {
    UpsertNode,
    UpsertEdge,
    UpsertAxiom,
    GetNode,
    GetEdge,
    MatchPattern,
    Traverse,
    Snapshot,
    Diff,
    Commit,
    Provenance,
}

/// The wire name of a method.
pub open spec fn method_name(m: RpcMethod) -> Seq<char> {
    match m {
        RpcMethod::UpsertNode => "upsert_node"@,
        RpcMethod::UpsertEdge => "upsert_edge"@,
        RpcMethod::UpsertAxiom => "upsert_axiom"@,
        RpcMethod::GetNode => "get_node"@,
        RpcMethod::GetEdge => "get_edge"@,
        RpcMethod::MatchPattern => "match_pattern"@,
        RpcMethod::Traverse => "traverse"@,
        RpcMethod::Snapshot => "snapshot"@,
        RpcMethod::Diff => "diff"@,
        RpcMethod::Commit => "commit"@,
        RpcMethod::Provenance => "provenance"@,
    }
}

impl RpcMethod {
    /// The wire name of this method.
    pub fn name(&self) -> (r: &'static str)
        ensures
            r@ == method_name(*self),
    {
        match self {
            RpcMethod::UpsertNode => "upsert_node",
            RpcMethod::UpsertEdge => "upsert_edge",
            RpcMethod::UpsertAxiom => "upsert_axiom",
            RpcMethod::GetNode => "get_node",
            RpcMethod::GetEdge => "get_edge",
            RpcMethod::MatchPattern => "match_pattern",
            RpcMethod::Traverse => "traverse",
            RpcMethod::Snapshot => "snapshot",
            RpcMethod::Diff => "diff",
            RpcMethod::Commit => "commit",
            RpcMethod::Provenance => "provenance",
        }
    }

    /// The method with wire name `name`, if any.
    pub fn from_name(name: &str) -> (r: Option<RpcMethod>)
        ensures
            match r {
                Some(m) => method_name(m) == name@,
                None => forall|m: RpcMethod| method_name(m) != name@,
            },
    {
        if str_equal(RpcMethod::UpsertNode.name(), name) {
            return Some(RpcMethod::UpsertNode);
        }
        if str_equal(RpcMethod::UpsertEdge.name(), name) {
            return Some(RpcMethod::UpsertEdge);
        }
        if str_equal(RpcMethod::UpsertAxiom.name(), name) {
            return Some(RpcMethod::UpsertAxiom);
        }
        if str_equal(RpcMethod::GetNode.name(), name) {
            return Some(RpcMethod::GetNode);
        }
        if str_equal(RpcMethod::GetEdge.name(), name) {
            return Some(RpcMethod::GetEdge);
        }
        if str_equal(RpcMethod::MatchPattern.name(), name) {
            return Some(RpcMethod::MatchPattern);
        }
        if str_equal(RpcMethod::Traverse.name(), name) {
            return Some(RpcMethod::Traverse);
        }
        if str_equal(RpcMethod::Snapshot.name(), name) {
            return Some(RpcMethod::Snapshot);
        }
        if str_equal(RpcMethod::Diff.name(), name) {
            return Some(RpcMethod::Diff);
        }
        if str_equal(RpcMethod::Commit.name(), name) {
            return Some(RpcMethod::Commit);
        }
        if str_equal(RpcMethod::Provenance.name(), name) {
            return Some(RpcMethod::Provenance);
        }
        assert forall|m: RpcMethod| method_name(m) != name@ by {
            match m {
                RpcMethod::UpsertNode => {},
                RpcMethod::UpsertEdge => {},
                RpcMethod::UpsertAxiom => {},
                RpcMethod::GetNode => {},
                RpcMethod::GetEdge => {},
                RpcMethod::MatchPattern => {},
                RpcMethod::Traverse => {},
                RpcMethod::Snapshot => {},
                RpcMethod::Diff => {},
                RpcMethod::Commit => {},
                RpcMethod::Provenance => {},
            }
        }
        None
    }
}

/// `true` when `a` and `b` hold the same characters.
fn str_equal(a: &str, b: &str) -> (r: bool)
    ensures
        r == (a@ == b@),
{
    let sa = String::from_str(a);
    let sb = String::from_str(b);
    sa == sb
}

/// A short fingerprint of a wire name: length, first and last two characters.
spec fn name_print(s: Seq<char>) -> (int, char, char, char) {
    (s.len() as int, s[0], s[s.len() - 1], s[s.len() - 2])
}

/// Distinct methods have distinct wire names.
pub proof fn law_method_names_distinct(m: RpcMethod, n: RpcMethod)
    ensures
        method_name(m) == method_name(n) ==> m == n,
{
    reveal_strlit("upsert_node");
    assert(name_print("upsert_node"@) == (11int, 'u', 'e', 'd'));
    reveal_strlit("upsert_edge");
    assert(name_print("upsert_edge"@) == (11int, 'u', 'e', 'g'));
    reveal_strlit("upsert_axiom");
    assert(name_print("upsert_axiom"@) == (12int, 'u', 'm', 'o'));
    reveal_strlit("get_node");
    assert(name_print("get_node"@) == (8int, 'g', 'e', 'd'));
    reveal_strlit("get_edge");
    assert(name_print("get_edge"@) == (8int, 'g', 'e', 'g'));
    reveal_strlit("match_pattern");
    assert(name_print("match_pattern"@) == (13int, 'm', 'n', 'r'));
    reveal_strlit("traverse");
    assert(name_print("traverse"@) == (8int, 't', 'e', 's'));
    reveal_strlit("snapshot");
    assert(name_print("snapshot"@) == (8int, 's', 't', 'o'));
    reveal_strlit("diff");
    assert(name_print("diff"@) == (4int, 'd', 'f', 'f'));
    reveal_strlit("commit");
    assert(name_print("commit"@) == (6int, 'c', 't', 'i'));
    reveal_strlit("provenance");
    assert(name_print("provenance"@) == (10int, 'p', 'e', 'c'));
    if method_name(m) == method_name(n) {
        assert(name_print(method_name(m)) == name_print(method_name(n)));
    }
}

/// An outbound RPC: the method's wire name and its request payload.
#[derive(Clone, Debug)]
pub struct RpcEnvelope<T> {
    pub method: String,
    pub params: T,
}

impl<T> RpcEnvelope<T> {
    /// An envelope for `method` carrying `params`.
    pub fn new(method: String, params: T) -> (r: RpcEnvelope<T>)
        ensures
            r.method == method,
            r.params == params,
    {
        RpcEnvelope { method, params }
    }
}

/// An inbound RPC response: exactly one of a result and an error message.
#[derive(Clone, Debug)]
pub struct RpcResponse<T> {
    pub result: Option<T>,
    pub error: Option<String>,
}

impl<T> RpcResponse<T> {
    /// A successful response.
    pub fn ok(value: T) -> (r: RpcResponse<T>)
        ensures
            r.result == Some(value),
            r.error is None,
    {
        RpcResponse { result: Some(value), error: None }
    }

    /// A failure response carrying a server-rendered message.
    pub fn err(message: String) -> (r: RpcResponse<T>)
        ensures
            r.result is None,
            r.error == Some(message),
    {
        RpcResponse { result: None, error: Some(message) }
    }
}

/// Errors raised at the remote client/server boundary.
#[derive(Clone, Debug)]
pub enum RemoteError {
    /// Network or I/O failure (connect, send, receive).
    Transport(String),
    /// The server returned an error response.
    Server(String),
    /// JSON encoding or decoding failed.
    Encoding(String),
}

impl RemoteError {
    /// The message this error renders as.
    pub fn message(&self) -> (r: String)
        ensures
            r@ == match self {
                RemoteError::Transport(d) => "transport error: "@ + d@,
                RemoteError::Server(d) => "server error: "@ + d@,
                RemoteError::Encoding(d) => "encoding error: "@ + d@,
            },
    {
        match self {
            RemoteError::Transport(d) => String::from_str("transport error: ").concat(d.as_str()),
            RemoteError::Server(d) => String::from_str("server error: ").concat(d.as_str()),
            RemoteError::Encoding(d) => String::from_str("encoding error: ").concat(d.as_str()),
        }
    }
}

/// `upsert_axiom` response (an empty success marker).
#[derive(Clone, Copy, Debug, PartialEq, Eq, Structural)]
pub struct UpsertAxiomResponse {}

/// `snapshot` request (no parameters).
#[derive(Clone, Copy, Debug, PartialEq, Eq, Structural)]
pub struct SnapshotRequest {}

/// `provenance` request (no parameters).
#[derive(Clone, Copy, Debug, PartialEq, Eq, Structural)]
pub struct ProvenanceRequest {}

/// `commit_with_provenance` response: the recorded activity's identifier.
#[derive(Clone, Copy, Debug, PartialEq, Eq, Structural)]
pub struct CommitResponse {
    pub provenance_id: ProvenanceId,
}

/// Sort order as it travels on the wire.
#[derive(Clone, Copy, Debug, PartialEq, Eq, Structural)]
pub enum WireSortOrder {
    Ascending,
    Descending,
}

impl WireSortOrder {
    /// The wire form of a sort order.
    pub fn from_order(o: SortOrder) -> (r: WireSortOrder)
        ensures
            r == match o {
                SortOrder::Ascending => WireSortOrder::Ascending,
                SortOrder::Descending => WireSortOrder::Descending,
            },
    {
        match o {
            SortOrder::Ascending => WireSortOrder::Ascending,
            SortOrder::Descending => WireSortOrder::Descending,
        }
    }

    /// The sort order this wire form denotes.
    pub fn into_order(self) -> (r: SortOrder)
        ensures
            r == match self {
                WireSortOrder::Ascending => SortOrder::Ascending,
                WireSortOrder::Descending => SortOrder::Descending,
            },
    {
        match self {
            WireSortOrder::Ascending => SortOrder::Ascending,
            WireSortOrder::Descending => SortOrder::Descending,
        }
    }
}

// ---------------------------------------------------------------------
// HTTP framing
// ---------------------------------------------------------------------

/// `buf` holds `\r\n\r\n` at `i`.
pub open spec fn terminator_at(buf: Seq<u8>, i: int) -> bool {
    0 <= i && i + 4 <= buf.len() && buf[i] == 13u8 && buf[i + 1] == 10u8 && buf[i + 2] == 13u8
        && buf[i + 3] == 10u8
}

/// The most bytes a request head may take before its blank line is found.
pub const MAX_HEAD_BYTES: usize = 65536;

/// What reading a request head calls for next.
#[derive(Clone, Copy, Debug, PartialEq, Eq, Structural)]
pub enum HeadStep {
    /// The head ends at this position (where `\r\n\r\n` starts).
    Complete(usize),
    /// Read more bytes.
    ReadMore,
    /// The peer closed the connection before the head ended.
    Closed,
    /// The head has outgrown [`MAX_HEAD_BYTES`].
    TooLarge,
}

/// The next step of reading a head, after a read of `read` bytes left
/// `buf` holding everything read so far: a read of nothing means the peer
/// closed; else the head is complete at the first `\r\n\r\n`; else a
/// buffer over the limit is refused; else more is read.
pub fn head_step(buf: &Vec<u8>, read: usize) -> (r: HeadStep)
    ensures
        read == 0 ==> r == HeadStep::Closed,
        read > 0 ==> match r {
            HeadStep::Complete(i) => terminator_at(buf@, i as int) && forall|j: int| 0 <= j < i ==> !terminator_at(buf@, j),
            HeadStep::TooLarge => (forall|j: int| !terminator_at(buf@, j)) && buf@.len() > MAX_HEAD_BYTES,
            HeadStep::ReadMore => (forall|j: int| !terminator_at(buf@, j)) && buf@.len() <= MAX_HEAD_BYTES,
            HeadStep::Closed => false,
        },
{
    if read == 0 {
        return HeadStep::Closed;
    }
    match find_header_terminator(buf.as_slice()) {
        Some(i) => HeadStep::Complete(i),
        None => if buf.len() > MAX_HEAD_BYTES {
            HeadStep::TooLarge
        } else {
            HeadStep::ReadMore
        },
    }
}

/// The body bytes already read with the head: what follows the blank line
/// that ends at `head_end + 4`, if anything.
pub fn body_prefix(buf: &Vec<u8>, head_end: usize) -> (r: Vec<u8>)
    ensures
        r@ == if head_end + 4 < buf@.len() {
            buf@.subrange(head_end + 4, buf@.len() as int)
        } else {
            Seq::<u8>::empty()
        },
{
    let mut r: Vec<u8> = Vec::new();
    if head_end < buf.len() && buf.len() - head_end > 4 {
        let start = head_end + 4;
        let mut i = start;
        while i < buf.len()
            invariant
                start <= i <= buf@.len(),
                start == head_end + 4,
                r@ == buf@.subrange(start as int, i as int),
            decreases buf@.len() - i,
        {
            r.push(buf[i]);
            assert(r@ =~= buf@.subrange(start as int, i + 1));
            i = i + 1;
        }
    }
    r
}

/// The position of the first `\r\n\r\n` in `buf`, which ends the HTTP head.
pub fn find_header_terminator(buf: &[u8]) -> (r: Option<usize>)
    ensures
        match r {
            Some(i) => terminator_at(buf@, i as int) && forall|j: int| 0 <= j < i ==> !terminator_at(buf@, j),
            None => forall|j: int| !terminator_at(buf@, j),
        },
{
    if buf.len() < 4 {
        return None;
    }
    let mut i: usize = 0;
    while i <= buf.len() - 4
        invariant
            buf@.len() >= 4,
            i + 3 <= buf@.len(),
            forall|j: int| 0 <= j < i ==> !terminator_at(buf@, j),
        decreases buf.len() - i,
    {
        if buf[i] == 13 && buf[i + 1] == 10 && buf[i + 2] == 13 && buf[i + 3] == 10 {
            return Some(i);
        }
        i = i + 1;
    }
    None
}

/// The reason phrase the server sends with a status code.
pub open spec fn reason_for(status: u16) -> Seq<char> {
    if status == 200 {
        "OK"@
    } else if status == 400 {
        "Bad Request"@
    } else if status == 404 {
        "Not Found"@
    } else if status == 405 {
        "Method Not Allowed"@
    } else if status == 500 {
        "Internal Server Error"@
    } else {
        "Error"@
    }
}

/// The reason phrase for `status`.
pub fn reason_phrase(status: u16) -> (r: &'static str)
    ensures
        r@ == reason_for(status),
{
    if status == 200 {
        "OK"
    } else if status == 400 {
        "Bad Request"
    } else if status == 404 {
        "Not Found"
    } else if status == 405 {
        "Method Not Allowed"
    } else if status == 500 {
        "Internal Server Error"
    } else {
        "Error"
    }
}

/// `s` without its trailing `/` characters.
pub open spec fn trim_slashes(s: Seq<char>) -> Seq<char>
    decreases s.len(),
{
    if s.len() > 0 && s.last() == '/' {
        trim_slashes(s.drop_last())
    } else {
        s
    }
}

/// A base URL with its trailing slashes removed.
pub fn normalize_base_url(url: &str) -> (r: String)
    ensures
        r@ == trim_slashes(url@),
{
    let n = url.unicode_len();
    let mut end: usize = n;
    assert(url@.subrange(0, n as int) =~= url@);
    while end > 0 && url.get_char(end - 1) == '/'
        invariant
            end <= n,
            n == url@.len(),
            trim_slashes(url@) == trim_slashes(url@.subrange(0, end as int)),
        decreases end,
    {
        assert(url@.subrange(0, end as int).drop_last() =~= url@.subrange(0, end - 1));
        end = end - 1;
    }
    let r = String::from_str(url.substring_char(0, end));
    r
}

/// The URL an RPC is posted to: `<base>/rpc/<method>`.
pub fn rpc_url(base: &String, m: RpcMethod) -> (r: String)
    ensures
        r@ == base@ + "/rpc/"@ + method_name(m),
{
    base.clone().concat("/rpc/").concat(m.name())
}

// ---------------------------------------------------------------------
// Request heads
// ---------------------------------------------------------------------

/// `s` holds `\r\n` at `i`.
pub open spec fn crlf_at(s: Seq<char>, i: int) -> bool {
    0 <= i && i + 1 < s.len() && s[i] == '\r' && s[i + 1] == '\n'
}

/// The position of the first `\r\n` in `s`.
pub open spec fn first_crlf(s: Seq<char>) -> Option<int>
    decreases s.len(),
{
    if s.len() < 2 {
        None
    } else if s[0] == '\r' && s[1] == '\n' {
        Some(0)
    } else {
        match first_crlf(s.drop_first()) {
            Some(i) => Some(i + 1),
            None => None,
        }
    }
}

proof fn lemma_first_crlf(s: Seq<char>)
    ensures
        first_crlf(s) matches Some(i) ==> crlf_at(s, i),
    decreases s.len(),
{
    if s.len() >= 2 && !(s[0] == '\r' && s[1] == '\n') {
        lemma_first_crlf(s.drop_first());
    }
}

/// The pieces of `s` between its `\r\n` separators (at least one).
pub open spec fn crlf_lines(s: Seq<char>) -> Seq<Seq<char>>
    decreases s.len(),
{
    match first_crlf(s) {
        Some(k) => if 0 <= k && k + 2 <= s.len() {
            seq![s.take(k)] + crlf_lines(s.skip(k + 2))
        } else {
            seq![s]
        },
        None => seq![s],
    }
}

/// ASCII whitespace: space, tab, line feed, form feed, carriage return.
pub open spec fn ascii_space(c: char) -> bool {
    c == ' ' || c == '\t' || c == '\n' || c == '\x0C' || c == '\r'
}

/// The length of the run of non-space characters that starts `s`.
pub open spec fn word_len(s: Seq<char>) -> int
    decreases s.len(),
{
    if s.len() == 0 || ascii_space(s[0]) {
        0
    } else {
        1 + word_len(s.drop_first())
    }
}

/// `s` without its leading ASCII whitespace.
pub open spec fn skip_ascii_space(s: Seq<char>) -> Seq<char>
    decreases s.len(),
{
    if s.len() > 0 && ascii_space(s[0]) {
        skip_ascii_space(s.drop_first())
    } else {
        s
    }
}

/// The first two whitespace-separated words of `s`.
pub open spec fn two_words(s: Seq<char>) -> (Option<Seq<char>>, Option<Seq<char>>) {
    let a = skip_ascii_space(s);
    if a.len() == 0 {
        (None, None)
    } else {
        let w1 = a.take(word_len(a));
        let b = skip_ascii_space(a.skip(word_len(a)));
        if b.len() == 0 {
            (Some(w1), None)
        } else {
            (Some(w1), Some(b.take(word_len(b))))
        }
    }
}

/// The ASCII lower-case form of a character.
pub open spec fn ascii_lower(c: char) -> char {
    if 'A' <= c <= 'Z' {
        ((c as u32) + 32) as char
    } else {
        c
    }
}

/// `a` and `b` are equal up to ASCII case.
pub open spec fn same_ignoring_case(a: Seq<char>, b: Seq<char>) -> bool {
    a.len() == b.len() && forall|i: int| 0 <= i < a.len() ==> ascii_lower(#[trigger] a[i]) == ascii_lower(b[i])
}

/// The message `usize::from_str` renders for each failure.
pub open spec fn empty_number() -> Seq<char> {
    "cannot parse integer from empty string"@
}

/// See [`empty_number`].
pub open spec fn invalid_digit_text() -> Seq<char> {
    "invalid digit found in string"@
}

/// See [`empty_number`].
pub open spec fn too_large() -> Seq<char> {
    "number too large to fit in target type"@
}

/// The value of `digits` read after `acc`, left to right, failing at the
/// first non-digit or the first step past `usize::MAX`.
pub open spec fn digits_value(digits: Seq<char>, acc: nat) -> Result<nat, Seq<char>>
    decreases digits.len(),
{
    if digits.len() == 0 {
        Ok(acc)
    } else if !('0' <= digits[0] <= '9') {
        Err(invalid_digit_text())
    } else {
        let next = acc * 10 + (digits[0] as nat - 48);
        if next > usize::MAX {
            Err(too_large())
        } else {
            digits_value(digits.drop_first(), next as nat)
        }
    }
}

/// `usize::from_str`: an optional `+`, then decimal digits.
pub open spec fn usize_value(s: Seq<char>) -> Result<nat, Seq<char>> {
    if s.len() == 0 {
        Err(empty_number())
    } else if s[0] == '+' {
        if s.len() == 1 {
            Err(invalid_digit_text())
        } else {
            digits_value(s.drop_first(), 0)
        }
    } else {
        digits_value(s, 0)
    }
}

/// The `Content-Length` the header lines `ls` declare: the last such line
/// wins; an unreadable value fails with `bad content-length: <reason>`.
pub open spec fn content_length(ls: Seq<Seq<char>>, current: nat) -> Result<nat, Seq<char>>
    decreases ls.len(),
{
    if ls.len() == 0 {
        Ok(current)
    } else {
        let l = ls[0];
        if l.len() > 0 && crate::text::has_colon(l) {
            let k = crate::text::first_colon(l);
            if same_ignoring_case(crate::text::trim(l.take(k)), "content-length"@) {
                match usize_value(crate::text::trim(l.skip(k + 1))) {
                    Ok(v) => content_length(ls.drop_first(), v),
                    Err(e) => Err("bad content-length: "@ + e),
                }
            } else {
                content_length(ls.drop_first(), current)
            }
        } else {
            content_length(ls.drop_first(), current)
        }
    }
}

/// The method, path and body length a request head declares.
#[derive(Debug)]
pub struct RequestHead {
    pub method: String,
    pub path: String,
    pub content_length: usize,
}

/// What a request head (the text before `\r\n\r\n`) declares: the method
/// and path of its request line, and its `Content-Length` (0 when absent).
pub open spec fn head_of(head: Seq<char>) -> Result<(Seq<char>, Seq<char>, nat), Seq<char>> {
    let ls = crlf_lines(head);
    match two_words(ls[0]) {
        (None, _) => Err("missing method"@),
        (Some(_), None) => Err("missing path"@),
        (Some(m), Some(p)) => match content_length(ls.drop_first(), 0) {
            Ok(n) => Ok((m, p, n)),
            Err(e) => Err(e),
        },
    }
}

fn find_crlf(v: &Vec<char>, a: usize) -> (r: Option<usize>)
    requires
        a <= v@.len(),
    ensures
        match r {
            Some(i) => a <= i && i + 2 <= v@.len() && first_crlf(v@.skip(a as int)) == Some(i - a),
            None => first_crlf(v@.skip(a as int)) is None,
        },
{
    let n = v.len();
    let mut i = a;
    while n - i > 1
        invariant
            a <= i <= n,
            n == v@.len(),
            first_crlf(v@.skip(a as int)) == match first_crlf(v@.skip(i as int)) {
                Some(k) => Some(k + (i - a)),
                None => None::<int>,
            },
        decreases n - i,
    {
        let ghost s = v@.skip(i as int);
        assert(s[0] == v@[i as int] && s[1] == v@[i + 1]);
        if v[i] == '\r' && v[i + 1] == '\n' {
            return Some(i);
        }
        assert(s.drop_first() =~= v@.skip(i + 1));
        i = i + 1;
    }
    None
}

fn is_ascii_space(c: char) -> (r: bool)
    ensures
        r == ascii_space(c),
{
    c == ' ' || c == '\t' || c == '\n' || c == '\x0C' || c == '\r'
}

fn skip_ascii(v: &Vec<char>, a: usize, b: usize) -> (r: usize)
    requires
        a <= b <= v@.len(),
    ensures
        a <= r <= b,
        v@.subrange(r as int, b as int) == skip_ascii_space(v@.subrange(a as int, b as int)),
{
    let mut i = a;
    while i < b && is_ascii_space(v[i])
        invariant
            a <= i <= b,
            b <= v@.len(),
            skip_ascii_space(v@.subrange(a as int, b as int)) == skip_ascii_space(v@.subrange(i as int, b as int)),
        decreases b - i,
    {
        assert(v@.subrange(i as int, b as int).drop_first() =~= v@.subrange(i + 1, b as int));
        i = i + 1;
    }
    i
}

fn word_end(v: &Vec<char>, a: usize, b: usize) -> (r: usize)
    requires
        a <= b <= v@.len(),
    ensures
        a <= r <= b,
        r - a == word_len(v@.subrange(a as int, b as int)),
{
    let mut i = a;
    while i < b && !is_ascii_space(v[i])
        invariant
            a <= i <= b,
            b <= v@.len(),
            word_len(v@.subrange(a as int, b as int)) == (i - a) + word_len(v@.subrange(i as int, b as int)),
        decreases b - i,
    {
        assert(v@.subrange(i as int, b as int).drop_first() =~= v@.subrange(i + 1, b as int));
        i = i + 1;
    }
    i
}

fn is_content_length(v: &Vec<char>, a: usize, b: usize) -> (r: bool)
    requires
        a <= b <= v@.len(),
    ensures
        r == same_ignoring_case(v@.subrange(a as int, b as int), "content-length"@),
{
    let want = crate::text::chars_of("content-length");
    if b - a != want.len() {
        return false;
    }
    let mut i: usize = 0;
    while i < want.len()
        invariant
            i <= want@.len(),
            want@ == "content-length"@,
            b - a == want@.len(),
            b <= v@.len(),
            forall|j: int| 0 <= j < i ==> ascii_lower(#[trigger] v@[a + j]) == ascii_lower(want@[j]),
        decreases want.len() - i,
    {
        let x = v[a + i];
        let y = want[i];
        let lx = if 'A' <= x && x <= 'Z' { ((x as u32) + 32) as u8 as char } else { x };
        let ly = if 'A' <= y && y <= 'Z' { ((y as u32) + 32) as u8 as char } else { y };
        assert(lx == ascii_lower(x) && ly == ascii_lower(y));
        if lx != ly {
            assert(v@.subrange(a as int, b as int)[i as int] == x);
            return false;
        }
        i = i + 1;
    }
    assert forall|j: int| 0 <= j < (b - a) implies ascii_lower(#[trigger] v@.subrange(a as int, b as int)[j]) == ascii_lower(
        "content-length"@[j],
    ) by {
        assert(v@.subrange(a as int, b as int)[j] == v@[a + j]);
    }
    true
}

fn parse_usize_at(v: &Vec<char>, a: usize, b: usize) -> (r: Result<usize, String>)
    requires
        a <= b <= v@.len(),
    ensures
        match r {
            Ok(x) => usize_value(v@.subrange(a as int, b as int)) == Ok::<nat, Seq<char>>(x as nat),
            Err(e) => usize_value(v@.subrange(a as int, b as int)) == Err::<nat, Seq<char>>(e@),
        },
{
    let ghost s = v@.subrange(a as int, b as int);
    if a == b {
        return Err(String::from_str("cannot parse integer from empty string"));
    }
    let mut start = a;
    if v[a] == '+' {
        assert(s[0] == '+');
        if b - a == 1 {
            return Err(String::from_str("invalid digit found in string"));
        }
        start = a + 1;
        assert(s.drop_first() =~= v@.subrange(start as int, b as int));
    } else {
        assert(s[0] == v@[a as int]);
    }
    let ghost digits = v@.subrange(start as int, b as int);
    assert(usize_value(s) == digits_value(digits, 0));
    let mut acc: usize = 0;
    let mut i = start;
    while i < b
        invariant
            start <= i <= b,
            b <= v@.len(),
            digits == v@.subrange(start as int, b as int),
            usize_value(s) == digits_value(digits, 0),
            s == v@.subrange(a as int, b as int),
            digits_value(digits, 0) == digits_value(v@.subrange(i as int, b as int), acc as nat),
        decreases b - i,
    {
        let ghost rest = v@.subrange(i as int, b as int);
        let c = v[i];
        assert(rest[0] == c);
        assert(rest.drop_first() =~= v@.subrange(i + 1, b as int));
        if !('0' <= c && c <= '9') {
            return Err(String::from_str("invalid digit found in string"));
        }
        let d = (c as u32 - 48) as usize;
        if acc > (usize::MAX - d) / 10 {
            assert(acc * 10 + d > usize::MAX) by (nonlinear_arith)
                requires
                    acc > (usize::MAX - d) / 10,
                    d <= 9,
            ;
            return Err(String::from_str("number too large to fit in target type"));
        }
        assert(acc * 10 + d <= usize::MAX) by (nonlinear_arith)
            requires
                acc <= (usize::MAX - d) / 10,
                d <= 9,
        ;
        acc = acc * 10 + d;
        i = i + 1;
    }
    Ok(acc)
}

/// What the head of an HTTP request (the text before `\r\n\r\n`)
/// declares: the method and path of its request line, and its
/// `Content-Length` (0 when absent).
pub fn parse_request_head(head: &str) -> (r: Result<RequestHead, RemoteError>)
    ensures
        match head_of(head@) {
            Ok((m, p, n)) => r matches Ok(h) && h.method@ == m && h.path@ == p && h.content_length == n,
            Err(e) => r matches Err(RemoteError::Transport(t)) && t@ == e,
        },
{
    let v = crate::text::chars_of(head);
    let n = v.len();
    assert(v@.skip(0) =~= v@);
    let e1 = match find_crlf(&v, 0) {
        Some(i) => i,
        None => n,
    };
    let ghost ls = crlf_lines(v@);
    proof {
        lemma_first_crlf(v@);
        if e1 < n {
            assert(v@.take(e1 as int) =~= v@.subrange(0, e1 as int));
            assert(ls[0] == v@.take(e1 as int));
            assert(ls.drop_first() =~= crlf_lines(v@.skip(e1 + 2)));
        } else {
            assert(v@.subrange(0, n as int) =~= v@);
            assert(ls =~= seq![v@]);
        }
    }
    let ghost first = v@.subrange(0, e1 as int);
    assert(ls[0] == first);
    let a = skip_ascii(&v, 0, e1);
    if a == e1 {
        return Err(RemoteError::Transport(String::from_str("missing method")));
    }
    let w1 = word_end(&v, a, e1);
    let ghost sa = v@.subrange(a as int, e1 as int);
    assert(sa.take(word_len(sa)) =~= v@.subrange(a as int, w1 as int));
    assert(sa.skip(word_len(sa)) =~= v@.subrange(w1 as int, e1 as int));
    let b = skip_ascii(&v, w1, e1);
    if b == e1 {
        return Err(RemoteError::Transport(String::from_str("missing path")));
    }
    let w2 = word_end(&v, b, e1);
    let ghost sb = v@.subrange(b as int, e1 as int);
    assert(sb.take(word_len(sb)) =~= v@.subrange(b as int, w2 as int));
    let method = crate::text::string_of_range(&v, a, w1);
    let path = crate::text::string_of_range(&v, b, w2);
    // header lines
    let mut len: usize = 0;
    let mut more = e1 < n;
    let mut pos = if more { e1 + 2 } else { n };
    proof {
        if !more {
            assert(ls.drop_first() =~= Seq::<Seq<char>>::empty());
        }
    }
    assert(two_words(ls[0]) == (Some(method@), Some(path@)));
    while more
        invariant
            pos <= n,
            n == v@.len(),
            v@ == head@,
            ls == crlf_lines(v@),
            ls.len() > 0,
            two_words(ls[0]) == (Some(method@), Some(path@)),
            content_length(ls.drop_first(), 0) == if more {
                content_length(crlf_lines(v@.skip(pos as int)), len as nat)
            } else {
                content_length(Seq::<Seq<char>>::empty(), len as nat)
            },
        decreases (if more { n - pos + 1 } else { 0 }),
    {
        let ghost lsr = crlf_lines(v@.skip(pos as int));
        let e = match find_crlf(&v, pos) {
            Some(i) => i,
            None => n,
        };
        proof {
            lemma_first_crlf(v@.skip(pos as int));
            if e < n {
                assert(v@.skip(pos as int).take(e - pos) =~= v@.subrange(pos as int, e as int));
                assert(v@.skip(pos as int).skip(e - pos + 2) =~= v@.skip(e + 2));
                assert(lsr[0] == v@.subrange(pos as int, e as int));
                assert(lsr.drop_first() =~= crlf_lines(v@.skip(e + 2)));
            } else {
                assert(v@.skip(pos as int) =~= v@.subrange(pos as int, n as int));
                assert(lsr =~= seq![v@.subrange(pos as int, n as int)]);
                assert(lsr.drop_first() =~= Seq::<Seq<char>>::empty());
            }
        }
        let ghost line = v@.subrange(pos as int, e as int);
        if e > pos {
            match crate::text::find_char(&v, pos, e, ':') {
                Some(k) => {
                    proof {
                        crate::text::lemma_index_of_colon(line);
                    }
                    let ghost kk = k - pos;
                    let na = crate::text::skip_space(&v, pos, k);
                    let nb = crate::text::back_space(&v, na, k);
                    assert(v@.subrange(pos as int, k as int) =~= line.take(kk));
                    if is_content_length(&v, na, nb) {
                        let va = crate::text::skip_space(&v, k + 1, e);
                        let vb = crate::text::back_space(&v, va, e);
                        assert(v@.subrange(k + 1, e as int) =~= line.skip(kk + 1));
                        match parse_usize_at(&v, va, vb) {
                            Ok(x) => {
                                len = x;
                            },
                            Err(msg) => {
                                let t = String::from_str("bad content-length: ").concat(msg.as_str());
                                return Err(RemoteError::Transport(t));
                            },
                        }
                    }
                },
                None => {
                    proof {
                        crate::text::lemma_index_of_colon(line);
                    }
                },
            }
        }
        if e < n {
            pos = e + 2;
        } else {
            more = false;
        }
    }
    Ok(RequestHead { method, path, content_length: len })
}

/// Where a request goes: `POST /rpc/<name>` names a method; another HTTP
/// method is refused with 405; another path with 404.
#[derive(Debug)]
pub enum Route {
    Rpc(String),
    MethodNotAllowed,
    UnknownRoute,
}

/// The route of a request with `method` and `path`.
pub open spec fn route_of(method: Seq<char>, path: Seq<char>) -> Result<Seq<char>, u16> {
    if method != "POST"@ {
        Err(405)
    } else if "/rpc/"@.is_prefix_of(path) && path.len() > 5 {
        Ok(path.skip(5))
    } else {
        Err(404)
    }
}

/// Route a request by its method and path.
pub fn route(method: &String, path: &String) -> (r: Route)
    ensures
        match route_of(method@, path@) {
            Ok(name) => r matches Route::Rpc(n) && n@ == name,
            Err(405) => r is MethodNotAllowed,
            Err(_) => r is UnknownRoute,
        },
{
    proof {
        reveal_strlit("/rpc/");
    }
    let post = String::from_str("POST");
    if *method != post {
        return Route::MethodNotAllowed;
    }
    let v = crate::text::chars_of(path.as_str());
    let want = crate::text::chars_of("/rpc/");
    if v.len() <= 5 {
        return Route::UnknownRoute;
    }
    let mut i: usize = 0;
    while i < 5
        invariant
            i <= 5,
            v@.len() > 5,
            v@ == path@,
            method@ == "POST"@,
            want@ == "/rpc/"@,
            want@.len() == 5,
            forall|j: int| 0 <= j < i ==> want@[j] == v@[j],
        decreases 5 - i,
    {
        if v[i] != want[i] {
            assert(!"/rpc/"@.is_prefix_of(path@)) by {
                if "/rpc/"@.is_prefix_of(path@) {
                    assert("/rpc/"@[i as int] == path@[i as int]);
                }
            }
            return Route::UnknownRoute;
        }
        i = i + 1;
    }
    assert("/rpc/"@.is_prefix_of(path@));
    let name = String::from_str(path.as_str().substring_char(5, v.len()));
    assert(name@ =~= path@.skip(5));
    Route::Rpc(name)
}

/// The head of a JSON response with `status` and a body of `len` bytes.
pub open spec fn response_head_of(status: u16, len: nat) -> Seq<char> {
    "HTTP/1.1 "@ + crate::rdf::decimal(status as nat) + " "@ + reason_for(status)
        + "\r\nContent-Type: application/json\r\nContent-Length: "@ + crate::rdf::decimal(len)
        + "\r\nConnection: close\r\n\r\n"@
}

/// The head of a JSON response with `status` and a body of `len` bytes.
pub fn response_head(status: u16, len: usize) -> (r: String)
    ensures
        r@ == response_head_of(status, len as nat),
{
    let code = crate::rdf::unsigned_text(status as u64);
    let size = crate::rdf::unsigned_text(len as u64);
    String::from_str("HTTP/1.1 ").concat(crate::text::string_of_chars(&code).as_str()).concat(" ").concat(
        reason_phrase(status),
    ).concat("\r\nContent-Type: application/json\r\nContent-Length: ").concat(
        crate::text::string_of_chars(&size).as_str(),
    ).concat("\r\nConnection: close\r\n\r\n")
}

} // verus!
