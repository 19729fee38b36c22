//! Byte-level views of UTF-8 text, searching for ASCII delimiters, and
//! cutting `&str` values at the positions found.
//!
//! Every string in this crate is described by its UTF-8 bytes (`spec_bytes`).
//! Because all delimiters of the HTTP grammar are ASCII, a byte position
//! that holds a delimiter is always a character boundary, so searching the
//! bytes is the same as searching the characters.
use vstd::prelude::*;
use vstd::string::*;
use vstd::utf8::*;

verus! {

broadcast use vstd::utf8::group_utf8_lib;

// ---------------------------------------------------------------------------
// Searching
// ---------------------------------------------------------------------------

/// `i` is the first position of `s` holding the byte `a` or the byte `b`.
pub open spec fn is_first_of(s: Seq<u8>, a: u8, b: u8, i: int) -> bool {
    &&& 0 <= i < s.len()
    &&& (s[i] == a || s[i] == b)
    &&& forall|j: int| 0 <= j < i ==> #[trigger] s[j] != a && s[j] != b
}

/// The first position of `s` holding `a` or `b`, if there is one.
pub open spec fn first_of(s: Seq<u8>, a: u8, b: u8) -> Option<int> {
    if exists|i: int| is_first_of(s, a, b, i) {
        Some(choose|i: int| is_first_of(s, a, b, i))
    } else {
        None
    }
}

/// The first position of the byte `c` in `s`, if there is one.
pub open spec fn first_index(s: Seq<u8>, c: u8) -> Option<int> {
    first_of(s, c, c)
}

/// `i` is the last position of `s` holding the byte `c`.
pub open spec fn is_last_of(s: Seq<u8>, c: u8, i: int) -> bool {
    &&& 0 <= i < s.len()
    &&& s[i] == c
    &&& forall|j: int| i < j < s.len() ==> #[trigger] s[j] != c
}

/// The last position of the byte `c` in `s`, if there is one.
pub open spec fn last_index(s: Seq<u8>, c: u8) -> Option<int> {
    if exists|i: int| is_last_of(s, c, i) {
        Some(choose|i: int| is_last_of(s, c, i))
    } else {
        None
    }
}

/// A position that is first is the one `first_of` gives.
pub proof fn lemma_first_of_is(s: Seq<u8>, a: u8, b: u8, i: int)
    requires
        is_first_of(s, a, b, i),
    ensures
        first_of(s, a, b) == Some(i),
{
    let k = choose|k: int| is_first_of(s, a, b, k);
    assert(is_first_of(s, a, b, k));
    if k < i {
        assert(s[k] != a && s[k] != b);
    }
    if i < k {
        assert(s[i] != a && s[i] != b);
    }
}

/// Where `a` occurs at all, there is a first position holding it.
pub proof fn lemma_exists_first(s: Seq<u8>, a: u8, k: int)
    requires
        0 <= k < s.len(),
        s[k] == a,
    ensures
        exists|i: int| is_first_of(s, a, a, i),
    decreases k,
{
    if forall|j: int| 0 <= j < k ==> #[trigger] s[j] != a && s[j] != a {
        assert(is_first_of(s, a, a, k));
    } else {
        let j = choose|j: int| 0 <= j < k && !(#[trigger] s[j] != a && s[j] != a);
        lemma_exists_first(s, a, j);
    }
}

/// Without `a` and `b`, `first_of` gives nothing.
pub proof fn lemma_first_of_none(s: Seq<u8>, a: u8, b: u8)
    requires
        forall|j: int| 0 <= j < s.len() ==> #[trigger] s[j] != a && s[j] != b,
    ensures
        first_of(s, a, b) is None,
{
    if exists|i: int| is_first_of(s, a, b, i) {
        let k = choose|k: int| is_first_of(s, a, b, k);
        assert(s[k] != a && s[k] != b);
    }
}

/// What `first_of` gives is a first position.
pub proof fn lemma_first_of_bounds(s: Seq<u8>, a: u8, b: u8)
    ensures
        first_of(s, a, b) matches Some(i) ==> is_first_of(s, a, b, i),
{
}

/// A position that is last is the one `last_index` gives.
pub proof fn lemma_last_index_is(s: Seq<u8>, c: u8, i: int)
    requires
        is_last_of(s, c, i),
    ensures
        last_index(s, c) == Some(i),
{
    let k = choose|k: int| is_last_of(s, c, k);
    assert(is_last_of(s, c, k));
    if k < i {
        assert(s[i] != c);
    }
    if i < k {
        assert(s[k] != c);
    }
}

/// Without `c`, `last_index` gives nothing.
pub proof fn lemma_last_index_none(s: Seq<u8>, c: u8)
    requires
        forall|j: int| 0 <= j < s.len() ==> #[trigger] s[j] != c,
    ensures
        last_index(s, c) is None,
{
    if exists|i: int| is_last_of(s, c, i) {
        let k = choose|k: int| is_last_of(s, c, k);
        assert(s[k] != c);
    }
}

/// Position of the first byte of `bytes` that is `a` or `b`.
pub fn find_first_of(bytes: &[u8], a: u8, b: u8) -> (res: Option<usize>)
    ensures
        match res {
            Some(i) => first_of(bytes@, a, b) == Some(i as int),
            None => first_of(bytes@, a, b) is None,
        },
{
    let mut i: usize = 0;
    while i < bytes.len()
        invariant
            i <= bytes@.len(),
            forall|j: int| 0 <= j < i ==> #[trigger] bytes@[j] != a && bytes@[j] != b,
        decreases bytes@.len() - i,
    {
        if bytes[i] == a || bytes[i] == b {
            proof {
                lemma_first_of_is(bytes@, a, b, i as int);
            }
            return Some(i);
        }
        i = i + 1;
    }
    proof {
        lemma_first_of_none(bytes@, a, b);
    }
    None
}

/// Position of the first occurrence of the byte `c` in `bytes`.
pub fn find_byte(bytes: &[u8], c: u8) -> (res: Option<usize>)
    ensures
        match res {
            Some(i) => first_index(bytes@, c) == Some(i as int),
            None => first_index(bytes@, c) is None,
        },
{
    find_first_of(bytes, c, c)
}

/// Position of the last occurrence of the byte `c` in `bytes`.
pub fn find_last_byte(bytes: &[u8], c: u8) -> (res: Option<usize>)
    ensures
        match res {
            Some(i) => last_index(bytes@, c) == Some(i as int),
            None => last_index(bytes@, c) is None,
        },
{
    let mut i: usize = bytes.len();
    while i > 0
        invariant
            i <= bytes@.len(),
            forall|j: int| i <= j < bytes@.len() ==> #[trigger] bytes@[j] != c,
        decreases i,
    {
        if bytes[i - 1] == c {
            proof {
                lemma_last_index_is(bytes@, c, i - 1);
            }
            return Some(i - 1);
        }
        i = i - 1;
    }
    proof {
        lemma_last_index_none(bytes@, c);
    }
    None
}

/// Byte-wise equality of two slices.
pub fn bytes_equal(x: &[u8], y: &[u8]) -> (res: bool)
    ensures
        res == (x@ == y@),
{
    if x.len() != y.len() {
        return false;
    }
    let mut i: usize = 0;
    while i < x.len()
        invariant
            x@.len() == y@.len(),
            i <= x@.len(),
            forall|j: int| 0 <= j < i ==> x@[j] == y@[j],
        decreases x@.len() - i,
    {
        if x[i] != y[i] {
            return false;
        }
        i = i + 1;
    }
    assert(x@ =~= y@);
    true
}

// ---------------------------------------------------------------------------
// Pieces of byte sequences
// ---------------------------------------------------------------------------

/// `part` is a contiguous piece of `whole`.
pub open spec fn is_slice_of(part: Seq<u8>, whole: Seq<u8>) -> bool {
    exists|a: int|
        0 <= a && a + part.len() <= whole.len() && #[trigger] whole.subrange(a, a + part.len())
            == part
}

/// A piece found at a known position.
pub proof fn lemma_slice_at(part: Seq<u8>, whole: Seq<u8>, a: int)
    requires
        0 <= a,
        a + part.len() <= whole.len(),
        whole.subrange(a, a + part.len()) == part,
    ensures
        is_slice_of(part, whole),
{
}

/// A subrange is a piece.
pub proof fn lemma_slice_subrange(whole: Seq<u8>, i: int, j: int)
    requires
        0 <= i <= j <= whole.len(),
    ensures
        is_slice_of(whole.subrange(i, j), whole),
{
    lemma_slice_at(whole.subrange(i, j), whole, i);
}

/// A piece of a piece is a piece.
pub proof fn lemma_slice_trans(x: Seq<u8>, y: Seq<u8>, z: Seq<u8>)
    requires
        is_slice_of(x, y),
        is_slice_of(y, z),
    ensures
        is_slice_of(x, z),
{
    let a = choose|a: int|
        0 <= a && a + x.len() <= y.len() && #[trigger] y.subrange(a, a + x.len()) == x;
    let b = choose|b: int|
        0 <= b && b + y.len() <= z.len() && #[trigger] z.subrange(b, b + y.len()) == y;
    assert(z.subrange(a + b, a + b + x.len()) =~= x);
    lemma_slice_at(x, z, a + b);
}

// ---------------------------------------------------------------------------
// Character boundaries
// ---------------------------------------------------------------------------

/// After an ASCII byte at the front of valid UTF-8, the next character starts.
proof fn lemma_ascii_head_boundary(b: Seq<u8>)
    requires
        valid_utf8(b),
        b.len() > 0,
        b[0] < 128,
    ensures
        is_char_boundary(b, 1),
{
    reveal_with_fuel(is_char_boundary, 2);
    assert(length_of_first_scalar(b) == 1);
    assert(valid_utf8(pop_first_scalar(b)));
}

/// In valid UTF-8 the position just after an ASCII byte is a character boundary.
pub proof fn lemma_boundary_after_ascii(b: Seq<u8>, i: int)
    requires
        valid_utf8(b),
        0 <= i < b.len(),
        b[i] < 128,
    ensures
        is_char_boundary(b, i + 1),
    decreases b.len(),
{
    if i == 0 {
        lemma_ascii_head_boundary(b);
    } else {
        is_char_boundary_iff_not_is_continuation_byte(b, i);
        assert(is_char_boundary(b, i));
        let k = length_of_first_scalar(b);
        let p = pop_first_scalar(b);
        assert(valid_utf8(p));
        assert(is_char_boundary(p, i - k));
        assert(i - k >= 0);
        assert(p[i - k] == b[i]);
        lemma_boundary_after_ascii(p, i - k);
        assert(is_char_boundary(b, i + 1) == is_char_boundary(p, i + 1 - k));
    }
}

/// In valid UTF-8, the position of an ASCII byte is a character boundary.
pub proof fn lemma_boundary_at_ascii(b: Seq<u8>, i: int)
    requires
        valid_utf8(b),
        0 <= i < b.len(),
        b[i] < 128,
    ensures
        is_char_boundary(b, i),
{
    is_char_boundary_iff_not_is_continuation_byte(b, i);
}

/// The bytes of a `&str` are valid UTF-8, with boundaries at both ends.
pub proof fn lemma_str_bytes(s: &str)
    ensures
        valid_utf8(s.spec_bytes()),
        is_char_boundary(s.spec_bytes(), 0),
        is_char_boundary(s.spec_bytes(), s.spec_bytes().len() as int),
{
    is_char_boundary_start_end_of_seq(s.spec_bytes());
}

// ---------------------------------------------------------------------------
// Cutting strings
// ---------------------------------------------------------------------------

/// The part of `s` between the byte positions `start` and `end`.
pub fn substring(s: &str, start: usize, end: usize) -> (res: &str)
    requires
        start <= end <= s.spec_bytes().len(),
        is_char_boundary(s.spec_bytes(), start as int),
        is_char_boundary(s.spec_bytes(), end as int),
    ensures
        res.spec_bytes() == s.spec_bytes().subrange(start as int, end as int),
{
    let ghost b = s.spec_bytes();
    proof {
        lemma_str_bytes(s);
    }
    let (prefix, _) = s.split_at(end);
    let ghost pb = prefix.spec_bytes();
    proof {
        valid_utf8_split(b, end as int);
        assert(pb =~= b.subrange(0, end as int));
        is_char_boundary_start_end_of_seq(pb);
        if start < end {
            is_char_boundary_iff_not_is_continuation_byte(b, start as int);
            is_char_boundary_iff_not_is_continuation_byte(pb, start as int);
        }
    }
    let (_, middle) = prefix.split_at(start);
    assert(middle.spec_bytes() =~= b.subrange(start as int, end as int));
    middle
}

/// Cuts `s` around the ASCII byte at position `i`, dropping that byte.
pub fn split_around(s: &str, i: usize) -> (res: (&str, &str))
    requires
        i < s.spec_bytes().len(),
        s.spec_bytes()[i as int] < 128,
    ensures
        res.0.spec_bytes() == s.spec_bytes().take(i as int),
        res.1.spec_bytes() == s.spec_bytes().skip(i + 1),
{
    let ghost b = s.spec_bytes();
    proof {
        lemma_str_bytes(s);
        lemma_boundary_at_ascii(b, i as int);
        lemma_boundary_after_ascii(b, i as int);
    }
    let len = s.as_bytes().len();
    let head = substring(s, 0, i);
    let tail = substring(s, i + 1, len);
    assert(head.spec_bytes() =~= b.take(i as int));
    assert(tail.spec_bytes() =~= b.skip(i + 1));
    (head, tail)
}

// ---------------------------------------------------------------------------
// Building strings
// ---------------------------------------------------------------------------

/// UTF-8 encoding distributes over concatenation.
pub proof fn lemma_encode_concat(a: Seq<char>, b: Seq<char>)
    ensures
        encode_utf8(a + b) == encode_utf8(a) + encode_utf8(b),
    decreases a.len(),
{
    if a.len() == 0 {
        assert(a + b =~= b);
        assert(encode_utf8(a) =~= Seq::<u8>::empty());
        assert(encode_utf8(a) + encode_utf8(b) =~= encode_utf8(b));
    } else {
        lemma_encode_concat(a.drop_first(), b);
        assert((a + b).drop_first() =~= a.drop_first() + b);
        assert((a + b)[0] == a[0]);
        assert(encode_utf8(a + b) =~= encode_scalar(a[0] as u32) + encode_utf8(
            a.drop_first() + b,
        ));
        assert(encode_utf8(a) =~= encode_scalar(a[0] as u32) + encode_utf8(a.drop_first()));
    }
}

/// The UTF-8 bytes of an owned string.
pub open spec fn string_bytes(s: &String) -> Seq<u8> {
    encode_utf8(s@)
}

/// An empty owned string.
pub fn empty_string() -> (res: String)
    ensures
        string_bytes(&res) == Seq::<u8>::empty(),
{
    let res = String::new();
    assert(encode_utf8(res@) =~= Seq::<u8>::empty());
    res
}

/// Appends `s` to `out`.
pub fn push_text(out: &mut String, s: &str)
    ensures
        string_bytes(final(out)) == string_bytes(old(out)) + s.spec_bytes(),
{
    let ghost before = out@;
    out.append(s);
    proof {
        lemma_encode_concat(before, s@);
    }
}

/// Borrows the text of an owned string.
pub fn string_text(s: &String) -> (res: &str)
    ensures
        res.spec_bytes() == string_bytes(s),
{
    s.as_str()
}

/// Appends the bytes `b` to `out`.
pub fn append_bytes(out: &mut Vec<u8>, b: &[u8])
    ensures
        final(out)@ == old(out)@ + b@,
{
    out.extend_from_slice(b);
    assert(final(out)@ =~= old(out)@ + b@);
}

// ---------------------------------------------------------------------------
// Decimal numbers
// ---------------------------------------------------------------------------

/// The decimal digits of `n` in ASCII, most significant first, without
/// leading zeros ("0" for zero).
pub open spec fn decimal(n: nat) -> Seq<u8>
    decreases n,
{
    if n < 10 {
        seq![(48 + n) as u8]
    } else {
        decimal(n / 10).push((48 + n % 10) as u8)
    }
}

/// The number that a sequence of ASCII decimal digits denotes.
pub open spec fn digits_value(s: Seq<u8>) -> nat
    decreases s.len(),
{
    if s.len() == 0 {
        0
    } else {
        digits_value(s.drop_last()) * 10 + (s.last() - 48) as nat
    }
}

/// Every byte of `s` is an ASCII decimal digit.
pub open spec fn all_digits(s: Seq<u8>) -> bool {
    forall|i: int| 0 <= i < s.len() ==> 48 <= #[trigger] s[i] <= 57
}

/// Decimal text is digits only, and reading it back gives the number.
pub proof fn lemma_decimal_roundtrip(n: nat)
    ensures
        all_digits(decimal(n)),
        decimal(n).len() > 0,
        digits_value(decimal(n)) == n,
    decreases n,
{
    if n >= 10 {
        lemma_decimal_roundtrip(n / 10);
        assert(decimal(n).drop_last() =~= decimal(n / 10));
        let d = n % 10;
        assert(0 <= d < 10);
        assert(decimal(n).last() == (48 + d) as u8);
        assert(((48 + d) as u8 - 48) as nat == d);
        assert(n == (n / 10) * 10 + d);
        assert(digits_value(decimal(n)) == digits_value(decimal(n / 10)) * 10 + d);
    } else {
        assert(seq![(48 + n) as u8].drop_last() =~= Seq::<u8>::empty());
        assert(((48 + n) as u8 - 48) as nat == n);
        assert(digits_value(Seq::<u8>::empty()) == 0);
        assert(digits_value(decimal(n)) == digits_value(Seq::<u8>::empty()) * 10 + n);
    }
}

/// The text of a single decimal digit.
fn digit_text(d: u64) -> (res: &'static str)
    requires
        d < 10,
    ensures
        res.spec_bytes() == seq![(48 + d) as u8],
{
    proof {
        reveal_strlit("0");
        reveal_strlit("1");
        reveal_strlit("2");
        reveal_strlit("3");
        reveal_strlit("4");
        reveal_strlit("5");
        reveal_strlit("6");
        reveal_strlit("7");
        reveal_strlit("8");
        reveal_strlit("9");
    }
    let res = match d {
        0 => "0",
        1 => "1",
        2 => "2",
        3 => "3",
        4 => "4",
        5 => "5",
        6 => "6",
        7 => "7",
        8 => "8",
        _ => "9",
    };
    proof {
        assert(is_ascii_chars(res@));
        is_ascii_chars_encode_utf8(res@);
        assert(res.spec_bytes() =~= seq![(48 + d) as u8]);
    }
    res
}

/// The decimal text of `n`.
pub fn decimal_text(n: u64) -> (res: String)
    ensures
        string_bytes(&res) == decimal(n as nat),
    decreases n,
{
    if n < 10 {
        let mut s = empty_string();
        push_text(&mut s, digit_text(n));
        assert(string_bytes(&s) =~= decimal(n as nat));
        s
    } else {
        let mut s = decimal_text(n / 10);
        push_text(&mut s, digit_text(n % 10));
        assert(string_bytes(&s) =~= decimal(n as nat));
        s
    }
}

} // verus!
