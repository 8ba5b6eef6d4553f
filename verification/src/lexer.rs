//! A byte cursor and the token scanners the query parsers share:
//! whitespace and comments, case-insensitive keywords, identifiers,
//! unsigned integers and bracketed IRIs.
use vstd::prelude::*;

verus! {

/// ASCII whitespace: space, tab, line feed, form feed, carriage return.
pub open spec fn is_ws(b: u8) -> bool {
    b == 32 || b == 9 || b == 10 || b == 12 || b == 13
}

/// An ASCII letter.
pub open spec fn is_alpha(b: u8) -> bool {
    (65 <= b <= 90) || (97 <= b <= 122)
}

/// An ASCII digit.
pub open spec fn is_digit(b: u8) -> bool {
    48 <= b <= 57
}

/// `b` may start an identifier: `_` or an ASCII letter.
pub open spec fn ident_start(b: u8) -> bool {
    b == 95 || is_alpha(b)
}

/// `b` may continue an identifier: `_`, an ASCII letter or digit.
pub open spec fn ident_continue(b: u8) -> bool {
    b == 95 || is_alpha(b) || is_digit(b)
}

/// `true` when `b` may start an identifier (`_` or an ASCII letter).
pub fn is_ident_start(b: u8) -> (r: bool)
    ensures
        r == ident_start(b),
{
    b == 95 || (65 <= b && b <= 90) || (97 <= b && b <= 122)
}

/// `true` when `b` may continue an identifier (`_`, an ASCII letter or digit).
pub fn is_ident_continue(b: u8) -> (r: bool)
    ensures
        r == ident_continue(b),
{
    b == 95 || (65 <= b && b <= 90) || (97 <= b && b <= 122) || (48 <= b && b <= 57)
}

/// `true` when `b` is ASCII whitespace.
pub fn is_whitespace(b: u8) -> (r: bool)
    ensures
        r == is_ws(b),
{
    b == 32 || b == 9 || b == 10 || b == 12 || b == 13
}

/// The ASCII lower-case form of `b`.
pub open spec fn lower(b: u8) -> u8 {
    if 65 <= b <= 90 {
        (b + 32) as u8
    } else {
        b
    }
}

/// The first position at or after `p` that is not whitespace.
pub open spec fn ws_end(s: Seq<u8>, p: int) -> int
    decreases s.len() - p,
{
    if 0 <= p < s.len() && is_ws(s[p]) {
        ws_end(s, p + 1)
    } else {
        p
    }
}

/// The position just past the first line feed at or after `p` (or the end).
pub open spec fn line_end(s: Seq<u8>, p: int) -> int
    decreases s.len() - p,
{
    if p >= s.len() || p < 0 {
        p
    } else if s[p] == 10 {
        p + 1
    } else {
        line_end(s, p + 1)
    }
}

/// A line ends at or after where the search starts, and within the input.
pub proof fn lemma_line_end_bounds(s: Seq<u8>, q: int)
    requires
        0 <= q <= s.len(),
    ensures
        q <= line_end(s, q) <= s.len(),
    decreases s.len() - q,
{
    if q < s.len() && s[q] != 10 {
        lemma_line_end_bounds(s, q + 1);
    }
}

/// The first position at or after `p` past whitespace and `#` line comments.
pub open spec fn ws_comment_end(s: Seq<u8>, p: int) -> int
    decreases s.len() - p, 1int,
{
    if 0 <= p < s.len() && is_ws(s[p]) {
        ws_comment_end(s, p + 1)
    } else if 0 <= p < s.len() && s[p] == 35 {
        proof {
            lemma_line_end_bounds(s, p + 1);
        }
        ws_comment_end(s, line_end(s, p + 1))
    } else {
        p
    }
}

/// After whitespace and comments, no whitespace or comment is left to skip.
pub proof fn lemma_ws_settled(s: Seq<u8>, p: int)
    requires
        0 <= p <= s.len(),
    ensures
        p <= ws_comment_end(s, p) <= s.len(),
        ws_end(s, ws_comment_end(s, p)) == ws_comment_end(s, p),
        ws_comment_end(s, ws_comment_end(s, p)) == ws_comment_end(s, p),
    decreases s.len() - p, 1int,
{
    if p < s.len() && is_ws(s[p]) {
        lemma_ws_settled(s, p + 1);
    } else if p < s.len() && s[p] == 35 {
        lemma_line_end_bounds(s, p + 1);
        lemma_ws_settled(s, line_end(s, p + 1));
    }
}

/// The first position at or after `p` whose byte does not continue an identifier.
pub open spec fn ident_end(s: Seq<u8>, p: int) -> int
    decreases s.len() - p,
{
    if 0 <= p < s.len() && ident_continue(s[p]) {
        ident_end(s, p + 1)
    } else {
        p
    }
}

/// The first position at or after `p` whose byte is not a digit.
pub open spec fn digits_end(s: Seq<u8>, p: int) -> int
    decreases s.len() - p,
{
    if 0 <= p < s.len() && is_digit(s[p]) {
        digits_end(s, p + 1)
    } else {
        p
    }
}

/// An identifier's end lies between its start and the end of the input.
pub proof fn lemma_ident_end_bounds(s: Seq<u8>, p: int)
    requires
        0 <= p <= s.len(),
    ensures
        p <= ident_end(s, p) <= s.len(),
    decreases s.len() - p,
{
    if p < s.len() && ident_continue(s[p]) {
        lemma_ident_end_bounds(s, p + 1);
    }
}

/// A run of digits ends between its start and the end of the input.
pub proof fn lemma_digits_end_bounds(s: Seq<u8>, p: int)
    requires
        0 <= p <= s.len(),
    ensures
        p <= digits_end(s, p) <= s.len(),
    decreases s.len() - p,
{
    if p < s.len() && is_digit(s[p]) {
        lemma_digits_end_bounds(s, p + 1);
    }
}

/// Whitespace ends between its start and the end of the input, and
/// skipping it again moves nowhere.
pub proof fn lemma_ws_end(s: Seq<u8>, p: int)
    requires
        0 <= p <= s.len(),
    ensures
        p <= ws_end(s, p) <= s.len(),
        ws_end(s, ws_end(s, p)) == ws_end(s, p),
    decreases s.len() - p,
{
    if p < s.len() && is_ws(s[p]) {
        lemma_ws_end(s, p + 1);
    }
}

/// The decimal value of the digits `s[from..to]`.
pub open spec fn decimal(s: Seq<u8>, from: int, to: int) -> nat
    decreases to - from,
{
    if to <= from {
        0
    } else {
        (decimal(s, from, to - 1) * 10 + (s[to - 1] - 48)) as nat
    }
}

/// `s` holds keyword `kw` at `p` (ASCII case-insensitively), not followed
/// by an identifier byte.
pub open spec fn keyword_at(s: Seq<u8>, p: int, kw: Seq<u8>) -> bool {
    &&& 0 <= p
    &&& p + kw.len() <= s.len()
    &&& forall|i: int| 0 <= i < kw.len() ==> lower(#[trigger] s[p + i]) == lower(kw[i])
    &&& (p + kw.len() == s.len() || !ident_continue(s[p + kw.len()]))
}

/// The characters of ASCII bytes.
pub open spec fn ascii_chars(b: Seq<u8>) -> Seq<char> {
    b.map_values(|x: u8| x as char)
}

/// Every byte of `b` is ASCII.
pub open spec fn all_ascii(b: Seq<u8>) -> bool {
    forall|i: int| 0 <= i < b.len() ==> b[i] < 128
}

/// The text `String::from_utf8_lossy` makes of `bytes`.
pub uninterp spec fn utf8_lossy(bytes: Seq<u8>) -> Seq<char>;

/// Calls `String::from_utf8_lossy` (then `into_owned`): the text of
/// `bytes`, named [`utf8_lossy`]. For ASCII bytes the text is those bytes
/// as characters; how other sequences decode is not stated.
#[verifier::external_body]
pub(crate) fn text_of(bytes: &[u8]) -> (r: String)
    ensures
        r@ == utf8_lossy(bytes@),
        all_ascii(bytes@) ==> r@ == ascii_chars(bytes@),
{
    String::from_utf8_lossy(bytes).into_owned()
}

/// A position in a byte string.
pub struct Cursor<'a> {
    pub src: &'a [u8],
    pub pos: usize,
}

impl<'a> Cursor<'a> {
    /// The position is within the input.
    pub open spec fn wf(&self) -> bool {
        self.pos <= self.src@.len() <= usize::MAX
    }

    /// A cursor at the start of `src`.
    pub fn new(src: &'a [u8]) -> (r: Cursor<'a>)
        ensures
            r.src@ == src@,
            r.pos == 0,
            r.wf(),
    {
        let _n = src.len();
        Cursor { src, pos: 0 }
    }

    /// `true` at the end of the input.
    pub fn eof(&self) -> (r: bool)
        ensures
            r == (self.pos >= self.src@.len()),
    {
        self.pos >= self.src.len()
    }

    /// The byte at the position, if any.
    pub fn peek(&self) -> (r: Option<u8>)
        ensures
            r == if self.pos < self.src@.len() {
                Some(self.src@[self.pos as int])
            } else {
                None::<u8>
            },
    {
        if self.pos < self.src.len() {
            Some(self.src[self.pos])
        } else {
            None
        }
    }

    /// The byte `off` past the position, if any.
    pub fn peek_at(&self, off: usize) -> (r: Option<u8>)
        ensures
            r == if self.pos + off < self.src@.len() {
                Some(self.src@[self.pos + off])
            } else {
                None::<u8>
            },
    {
        if off < self.src.len() && self.pos < self.src.len() - off {
            Some(self.src[self.pos + off])
        } else {
            None
        }
    }

    /// Skip whitespace.
    pub fn skip_ws(&mut self)
        requires
            old(self).wf(),
        ensures
            final(self).wf(),
            final(self).pos >= old(self).pos,
            final(self).src == old(self).src,
            final(self).pos == ws_end(old(self).src@, old(self).pos as int),
    {
        while self.pos < self.src.len() && is_whitespace(self.src[self.pos])
            invariant
                self.wf(),
                self.src == old(self).src,
                self.pos >= old(self).pos,
                ws_end(self.src@, self.pos as int) == ws_end(old(self).src@, old(self).pos as int),
            decreases self.src@.len() - self.pos,
        {
            self.pos = self.pos + 1;
        }
    }

    /// Skip whitespace and `#` line comments.
    pub fn skip_ws_and_comments(&mut self)
        requires
            old(self).wf(),
        ensures
            final(self).wf(),
            final(self).pos >= old(self).pos,
            final(self).src == old(self).src,
            final(self).pos == ws_comment_end(old(self).src@, old(self).pos as int),
    {
        loop
            invariant
                self.wf(),
                self.src == old(self).src,
                self.pos >= old(self).pos,
                ws_comment_end(self.src@, self.pos as int) == ws_comment_end(old(self).src@, old(self).pos as int),
            ensures
                ws_comment_end(self.src@, self.pos as int) == self.pos,
            decreases self.src@.len() - self.pos,
        {
            if self.pos < self.src.len() && is_whitespace(self.src[self.pos]) {
                self.pos = self.pos + 1;
            } else if self.pos < self.src.len() && self.src[self.pos] == 35 {
                let start = self.pos;
                self.pos = self.pos + 1;
                while self.pos < self.src.len() && self.src[self.pos] != 10
                    invariant
                        self.wf(),
                        self.src == old(self).src,
                        self.pos >= old(self).pos,
                        start < self.pos,
                        line_end(self.src@, start + 1) == line_end(self.src@, self.pos as int),
                    decreases self.src@.len() - self.pos,
                {
                    self.pos = self.pos + 1;
                }
                if self.pos < self.src.len() {
                    self.pos = self.pos + 1;
                }
                assert(line_end(self.src@, start + 1) == self.pos);
            } else {
                break;
            }
        }
    }

    /// Consume keyword `kw` (ASCII case-insensitively) when it stands here
    /// and is not followed by an identifier byte.
    pub fn try_keyword(&mut self, kw: &[u8]) -> (r: bool)
        requires
            old(self).wf(),
        ensures
            final(self).wf(),
            final(self).pos >= old(self).pos,
            final(self).src == old(self).src,
            r == keyword_at(old(self).src@, old(self).pos as int, kw@),
            final(self).pos == if r { old(self).pos + kw@.len() } else { old(self).pos as int },
    {
        let n = self.src.len();
        let base = self.pos;
        if n - base < kw.len() {
            return false;
        }
        let mut i: usize = 0;
        while i < kw.len()
            invariant
                i <= kw@.len(),
                n == self.src@.len(),
                base == self.pos,
                base + kw@.len() <= n,
                forall|j: int| 0 <= j < i ==> lower(#[trigger] self.src@[base + j]) == lower(kw@[j]),
            decreases kw@.len() - i,
        {
            let a = self.src[base + i];
            let b = kw[i];
            let la = if 65 <= a && a <= 90 { a + 32 } else { a };
            let lb = if 65 <= b && b <= 90 { b + 32 } else { b };
            if la != lb {
                return false;
            }
            i = i + 1;
        }
        let end = self.pos + kw.len();
        if end < self.src.len() && is_ident_continue(self.src[end]) {
            return false;
        }
        self.pos = end;
        true
    }

    /// After whitespace, an identifier: `_` or a letter, then `_`, letters
    /// and digits. `None` (position after the whitespace) when none starts there.
    pub fn scan_ident(&mut self) -> (r: Option<String>)
        requires
            old(self).wf(),
        ensures
            final(self).wf(),
            final(self).pos >= old(self).pos,
            r is Some ==> final(self).pos > old(self).pos,
            final(self).src == old(self).src,
            ({
                let p = ws_end(old(self).src@, old(self).pos as int);
                let s = old(self).src@;
                if p < s.len() && ident_start(s[p]) {
                    final(self).pos == ident_end(s, p + 1) && (r matches Some(t) && t@ == ascii_chars(
                        s.subrange(p, ident_end(s, p + 1)),
                    ))
                } else {
                    final(self).pos == p && r is None
                }
            }),
    {
        self.skip_ws();
        let start = self.pos;
        if start < self.src.len() && is_ident_start(self.src[start]) {
            self.pos = self.pos + 1;
            while self.pos < self.src.len() && is_ident_continue(self.src[self.pos])
                invariant
                    self.wf(),
                    self.src == old(self).src,
                    old(self).pos <= start < self.pos,
                    ident_end(self.src@, start + 1) == ident_end(self.src@, self.pos as int),
                    forall|j: int| start <= j < self.pos ==> self.src@[j] < 128,
                decreases self.src@.len() - self.pos,
            {
                self.pos = self.pos + 1;
            }
            let bytes = slice_of(self.src, start, self.pos);
            assert(all_ascii(bytes@));
            Some(text_of(bytes))
        } else {
            None
        }
    }

    /// After whitespace, a run of digits and its decimal value. `None`
    /// when no digit stands there; `Some(None)` when the value exceeds `usize`.
    pub fn scan_uint(&mut self) -> (r: Option<Option<usize>>)
        requires
            old(self).wf(),
        ensures
            final(self).wf(),
            final(self).pos >= old(self).pos,
            final(self).src == old(self).src,
            ({
                let s = old(self).src@;
                let p = ws_end(s, old(self).pos as int);
                let e = digits_end(s, p);
                final(self).pos == e && if e == p {
                    r is None
                } else if decimal(s, p, e) <= usize::MAX {
                    r == Some(Some(decimal(s, p, e) as usize))
                } else {
                    r == Some(None::<usize>)
                }
            }),
    {
        self.skip_ws();
        let start = self.pos;
        let mut value: usize = 0;
        let mut overflow = false;
        while self.pos < self.src.len() && 48 <= self.src[self.pos] && self.src[self.pos] <= 57
            invariant
                self.wf(),
                self.src == old(self).src,
                start <= self.pos,
                digits_end(self.src@, start as int) == digits_end(self.src@, self.pos as int),
                forall|j: int| start <= j < self.pos ==> is_digit(self.src@[j]),
                !overflow ==> value == decimal(self.src@, start as int, self.pos as int),
                overflow ==> decimal(self.src@, start as int, self.pos as int) > usize::MAX,
            decreases self.src@.len() - self.pos,
        {
            let d = (self.src[self.pos] - 48) as usize;
            let ghost before = decimal(self.src@, start as int, self.pos as int);
            if !overflow {
                if value > (usize::MAX - d) / 10 {
                    overflow = true;
                    assert(value * 10 + d > usize::MAX) by (nonlinear_arith)
                        requires
                            value > (usize::MAX - d) / 10,
                            d <= 9,
                    ;
                } else {
                    assert(value * 10 + d <= usize::MAX) by (nonlinear_arith)
                        requires
                            value <= (usize::MAX - d) / 10,
                            d <= 9,
                    ;
                    value = value * 10 + d;
                }
            } else {
                assert(before * 10 + d > usize::MAX) by (nonlinear_arith)
                    requires
                        before > usize::MAX,
                ;
            }
            self.pos = self.pos + 1;
        }
        if self.pos == start {
            None
        } else if overflow {
            Some(None)
        } else {
            Some(Some(value))
        }
    }
}

/// The bytes `s[from..to]`.
pub fn slice_of<'b>(s: &'b [u8], from: usize, to: usize) -> (r: &'b [u8])
    requires
        from <= to <= s@.len(),
    ensures
        r@ == s@.subrange(from as int, to as int),
{
    let ghost whole = s@;
    let (_, rest) = s.split_at(from);
    let (mid, _) = rest.split_at(to - from);
    assert(mid@ =~= whole.subrange(from as int, to as int));
    mid
}

} // verus!
