//! Character-level text helpers shared by the RDF codecs: the characters
//! of a string, Unicode whitespace, and decimal rendering of integers.
use vstd::prelude::*;
use vstd::std_specs::iter::IteratorSpec;

verus! {

broadcast use vstd::string::group_string_axioms;

/// Calls `String::from_iter` over the characters of `chars`: the string
/// of those characters.
#[verifier::external_body]
pub(crate) fn string_of_chars(chars: &Vec<char>) -> (r: String)
    ensures
        r@ == chars@,
{
    String::from_iter(chars.iter())
}

/// The characters of `s`, in order.
pub fn chars_of(s: &str) -> (r: Vec<char>)
    ensures
        r@ == s@,
{
    let mut it = s.chars();
    let mut out: Vec<char> = Vec::new();
    loop
        invariant
            out@ + it.remaining() == s@,
            it.obeys_prophetic_iter_laws(),
            it.decrease() is Some,
        decreases it.decrease()->0,
    {
        let ghost before = it.remaining();
        match it.next() {
            Some(c) => {
                out.push(c);
                assert(out@ + it.remaining() =~= s@);
            },
            None => {
                assert(before.len() == 0);
                assert(out@ =~= s@);
                return out;
            },
        }
    }
}

/// `i` is the position of the first `:` in `s`.
pub open spec fn colon_at(s: Seq<char>, i: int) -> bool {
    0 <= i < s.len() && s[i] == ':' && forall|j: int| 0 <= j < i ==> s[j] != ':'
}

/// `s` holds a `:`.
pub open spec fn has_colon(s: Seq<char>) -> bool {
    exists|i: int| 0 <= i < s.len() && s[i] == ':'
}

/// The position of the first `:` in `s` (meaningful when it has one).
pub open spec fn first_colon(s: Seq<char>) -> int {
    choose|i: int| colon_at(s, i)
}

/// A `:` in `s` means there is a first one.
pub proof fn lemma_first_colon(s: Seq<char>)
    requires
        has_colon(s),
    ensures
        colon_at(s, first_colon(s)),
{
    lemma_colon_exists(s);
}

proof fn lemma_colon_exists(s: Seq<char>)
    requires
        has_colon(s),
    ensures
        exists|i: int| colon_at(s, i),
    decreases s.len(),
{
    let t = s.drop_last();
    if has_colon(t) {
        lemma_colon_exists(t);
        let i = choose|i: int| colon_at(t, i);
        assert forall|j: int| 0 <= j < i implies s[j] != ':' by {
            assert(s[j] == t[j]);
        }
        assert(s[i] == t[i]);
        assert(colon_at(s, i));
    } else {
        let k = choose|i: int| 0 <= i < s.len() && s[i] == ':';
        if k < s.len() - 1 {
            assert(t[k] == ':');
        }
        assert forall|j: int| 0 <= j < s.len() - 1 implies s[j] != ':' by {
            assert(s[j] == t[j]);
        }
        assert(colon_at(s, s.len() - 1));
    }
}

/// The position of the first `:` among `chars`.
pub fn colon_position(chars: &Vec<char>) -> (r: Option<usize>)
    ensures
        match r {
            Some(i) => colon_at(chars@, i as int) && first_colon(chars@) == i,
            None => !has_colon(chars@),
        },
{
    let mut i: usize = 0;
    while i < chars.len()
        invariant
            i <= chars.len(),
            forall|j: int| 0 <= j < i ==> chars@[j] != ':',
        decreases chars.len() - i,
    {
        if chars[i] == ':' {
            proof {
                lemma_first_colon(chars@);
                let k = first_colon(chars@);
                assert(k == i as int);
            }
            return Some(i);
        }
        i = i + 1;
    }
    None
}

/// The string of `v[a..b]`.
pub fn string_of_range(v: &Vec<char>, a: usize, b: usize) -> (r: String)
    requires
        a <= b <= v@.len(),
    ensures
        r@ == v@.subrange(a as int, b as int),
{
    let mut out: Vec<char> = Vec::new();
    let mut i: usize = a;
    while i < b
        invariant
            a <= i <= b,
            b <= v@.len(),
            out@ == v@.subrange(a as int, i as int),
        decreases b - i,
    {
        out.push(v[i]);
        assert(out@ =~= v@.subrange(a as int, i + 1));
        i = i + 1;
    }
    string_of_chars(&out)
}

// ---------------------------------------------------------------------
// Whitespace
// ---------------------------------------------------------------------

/// Unicode `White_Space`, as `char::is_whitespace` documents it.
pub open spec fn is_space(c: char) -> bool {
    let u = c as u32;
    (9 <= u <= 13) || u == 32 || u == 0x85 || u == 0xA0 || u == 0x1680 || (0x2000 <= u <= 0x200A) || u == 0x2028
        || u == 0x2029 || u == 0x202F || u == 0x205F || u == 0x3000
}

/// `true` when `c` is Unicode whitespace.
pub fn is_space_char(c: char) -> (r: bool)
    ensures
        r == is_space(c),
{
    let u = c as u32;
    (9 <= u && u <= 13) || u == 32 || u == 0x85 || u == 0xA0 || u == 0x1680 || (0x2000 <= u && u <= 0x200A)
        || u == 0x2028 || u == 0x2029 || u == 0x202F || u == 0x205F || u == 0x3000
}

/// `s` without its leading whitespace.
pub open spec fn trim_start(s: Seq<char>) -> Seq<char>
    decreases s.len(),
{
    if s.len() > 0 && is_space(s[0]) {
        trim_start(s.drop_first())
    } else {
        s
    }
}

/// `s` without its trailing whitespace.
pub open spec fn trim_end(s: Seq<char>) -> Seq<char>
    decreases s.len(),
{
    if s.len() > 0 && is_space(s.last()) {
        trim_end(s.drop_last())
    } else {
        s
    }
}

/// `s` without leading and trailing whitespace.
pub open spec fn trim(s: Seq<char>) -> Seq<char> {
    trim_end(trim_start(s))
}

/// The first position in `a..b` after the whitespace that starts `v[a..b]`.
pub fn skip_space(v: &Vec<char>, a: usize, b: usize) -> (r: usize)
    requires
        a <= b <= v@.len(),
    ensures
        a <= r <= b,
        v@.subrange(r as int, b as int) == trim_start(v@.subrange(a as int, b as int)),
{
    let mut i = a;
    while i < b && is_space_char(v[i])
        invariant
            a <= i <= b,
            b <= v@.len(),
            trim_start(v@.subrange(a as int, b as int)) == trim_start(v@.subrange(i as int, b as int)),
        decreases b - i,
    {
        assert(v@.subrange(i as int, b as int).drop_first() =~= v@.subrange(i + 1, b as int));
        i = i + 1;
    }
    i
}

/// The end of `v[a..b]` once its trailing whitespace is dropped.
pub fn back_space(v: &Vec<char>, a: usize, b: usize) -> (r: usize)
    requires
        a <= b <= v@.len(),
    ensures
        a <= r <= b,
        v@.subrange(a as int, r as int) == trim_end(v@.subrange(a as int, b as int)),
{
    let mut j = b;
    while j > a && is_space_char(v[j - 1])
        invariant
            a <= j <= b,
            b <= v@.len(),
            trim_end(v@.subrange(a as int, b as int)) == trim_end(v@.subrange(a as int, j as int)),
        decreases j - a,
    {
        assert(v@.subrange(a as int, j as int).drop_last() =~= v@.subrange(a as int, j - 1));
        j = j - 1;
    }
    j
}

// ---------------------------------------------------------------------
// Searching
// ---------------------------------------------------------------------

/// The position of the first `c` in `s`.
pub open spec fn index_of(s: Seq<char>, c: char) -> Option<int>
    decreases s.len(),
{
    if s.len() == 0 {
        None
    } else if s[0] == c {
        Some(0)
    } else {
        match index_of(s.drop_first(), c) {
            Some(i) => Some(i + 1),
            None => None,
        }
    }
}

/// A found position is in range.
pub proof fn lemma_index_of(s: Seq<char>, c: char)
    ensures
        index_of(s, c) matches Some(i) ==> 0 <= i < s.len() && s[i] == c,
    decreases s.len(),
{
    if s.len() > 0 {
        lemma_index_of(s.drop_first(), c);
    }
}

/// The position of the first `c` in `v[a..b]`, counted from `a`.
pub fn find_char(v: &Vec<char>, a: usize, b: usize, c: char) -> (r: Option<usize>)
    requires
        a <= b <= v@.len(),
    ensures
        match r {
            Some(i) => a <= i < b && index_of(v@.subrange(a as int, b as int), c) == Some(i - a),
            None => index_of(v@.subrange(a as int, b as int), c) is None,
        },
{
    let mut i = a;
    while i < b
        invariant
            a <= i <= b,
            b <= v@.len(),
            index_of(v@.subrange(a as int, b as int), c) == match index_of(v@.subrange(i as int, b as int), c) {
                Some(k) => Some(k + (i - a)),
                None => None,
            },
        decreases b - i,
    {
        assert(v@.subrange(i as int, b as int).drop_first() =~= v@.subrange(i + 1, b as int));
        if v[i] == c {
            return Some(i);
        }
        i = i + 1;
    }
    None
}

/// The length of the label that starts `s`: up to the first whitespace or `.`.
pub open spec fn label_end(s: Seq<char>) -> int
    decreases s.len(),
{
    if s.len() == 0 || is_space(s[0]) || s[0] == '.' {
        0
    } else {
        1 + label_end(s.drop_first())
    }
}

/// A label fits in its text.
pub proof fn lemma_label_end(s: Seq<char>)
    ensures
        0 <= label_end(s) <= s.len(),
    decreases s.len(),
{
    if s.len() > 0 {
        lemma_label_end(s.drop_first());
    }
}

/// The end of the label that starts `v[a..b]`.
pub fn scan_label(v: &Vec<char>, a: usize, b: usize) -> (r: usize)
    requires
        a <= b <= v@.len(),
    ensures
        a <= r <= b,
        r - a == label_end(v@.subrange(a as int, b as int)),
{
    let mut i = a;
    while i < b && !is_space_char(v[i]) && v[i] != '.'
        invariant
            a <= i <= b,
            b <= v@.len(),
            label_end(v@.subrange(a as int, b as int)) == (i - a) + label_end(v@.subrange(i as int, b as int)),
        decreases b - i,
    {
        assert(v@.subrange(i as int, b as int).drop_first() =~= v@.subrange(i + 1, b as int));
        i = i + 1;
    }
    i
}

/// Searching past a prefix that lacks `c`.
pub proof fn lemma_index_of_after(a: Seq<char>, b: Seq<char>, c: char)
    requires
        !a.contains(c),
    ensures
        index_of(a + b, c) == match index_of(b, c) {
            Some(i) => Some(i + a.len()),
            None => None::<int>,
        },
    decreases a.len(),
{
    if a.len() > 0 {
        assert(a[0] != c);
        assert((a + b)[0] == a[0]);
        assert((a + b).drop_first() =~= a.drop_first() + b);
        assert(!a.drop_first().contains(c)) by {
            if a.drop_first().contains(c) {
                let k = choose|k: int| 0 <= k < a.drop_first().len() && a.drop_first()[k] == c;
                assert(a[k + 1] == c);
            }
        }
        lemma_index_of_after(a.drop_first(), b, c);
    } else {
        assert(a + b =~= b);
    }
}

/// `c` right after a prefix that lacks it is found there.
pub proof fn lemma_index_of_at(a: Seq<char>, b: Seq<char>, c: char)
    requires
        !a.contains(c),
    ensures
        index_of(a + seq![c] + b, c) == Some(a.len() as int),
{
    assert(a + seq![c] + b =~= a + (seq![c] + b));
    lemma_index_of_after(a, seq![c] + b, c);
    assert((seq![c] + b)[0] == c);
}

/// A label made of no whitespace and no `.`, followed by a stop or nothing.
pub proof fn lemma_label_end_at(a: Seq<char>, b: Seq<char>)
    requires
        forall|i: int| 0 <= i < a.len() ==> !is_space(#[trigger] a[i]) && a[i] != '.',
        b.len() == 0 || is_space(b[0]) || b[0] == '.',
    ensures
        label_end(a + b) == a.len(),
    decreases a.len(),
{
    if a.len() > 0 {
        assert((a + b)[0] == a[0]);
        assert((a + b).drop_first() =~= a.drop_first() + b);
        assert forall|i: int| 0 <= i < a.drop_first().len() implies !is_space(#[trigger] a.drop_first()[i])
            && a.drop_first()[i] != '.' by {
            assert(a.drop_first()[i] == a[i + 1]);
        }
        lemma_label_end_at(a.drop_first(), b);
    } else {
        assert(a + b =~= b);
    }
}

/// Text that starts with a non-space has no leading whitespace to trim.
pub proof fn lemma_trim_start_none(s: Seq<char>)
    requires
        s.len() == 0 || !is_space(s[0]),
    ensures
        trim_start(s) == s,
{
}

/// Text that ends with a non-space has no trailing whitespace to trim.
pub proof fn lemma_trim_end_none(s: Seq<char>)
    requires
        s.len() == 0 || !is_space(s.last()),
    ensures
        trim_end(s) == s,
{
}

/// A leading space is trimmed.
pub proof fn lemma_trim_start_space(s: Seq<char>)
    ensures
        trim_start(seq![' '] + s) == trim_start(s),
{
    assert((seq![' '] + s)[0] == ' ');
    assert((seq![' '] + s).drop_first() =~= s);
}

/// A trailing space is trimmed.
pub proof fn lemma_trim_end_space(s: Seq<char>)
    ensures
        trim_end(s + seq![' ']) == trim_end(s),
{
    assert((s + seq![' ']).last() == ' ');
    assert((s + seq![' ']).drop_last() =~= s);
}

/// The first `:` found by [`index_of`] is the first colon.
pub proof fn lemma_index_of_colon(s: Seq<char>)
    ensures
        index_of(s, ':') matches Some(k) ==> has_colon(s) && first_colon(s) == k,
        index_of(s, ':') is None ==> !has_colon(s),
    decreases s.len(),
{
    lemma_index_of(s, ':');
    if s.len() > 0 {
        lemma_index_of_colon(s.drop_first());
        if s[0] != ':' {
            if has_colon(s) && index_of(s, ':') is None {
                let k = choose|i: int| 0 <= i < s.len() && s[i] == ':';
                assert(s.drop_first()[k - 1] == ':');
            }
        }
    }
    if let Some(k) = index_of(s, ':') {
        lemma_first_colon(s);
        let f = first_colon(s);
        assert(colon_at(s, k)) by {
            lemma_index_of_first(s, ':');
        }
        if f < k {
            assert(s[f] == ':');
        } else if k < f {
            assert(s[k] == ':');
        }
    }
}

/// Nothing before the found position is the character searched for.
pub proof fn lemma_index_of_first(s: Seq<char>, c: char)
    ensures
        index_of(s, c) matches Some(k) ==> forall|j: int| 0 <= j < k ==> s[j] != c,
    decreases s.len(),
{
    lemma_index_of(s, c);
    if s.len() > 0 && s[0] != c {
        lemma_index_of_first(s.drop_first(), c);
        if let Some(k) = index_of(s, c) {
            assert forall|j: int| 0 <= j < k implies s[j] != c by {
                if j > 0 {
                    assert(s[j] == s.drop_first()[j - 1]);
                }
            }
        }
    }
}

} // verus!
