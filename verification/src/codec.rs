//! Field values and their fixed-width binary encodings.
//!
//! A row is the concatenation of its field encodings: Varchar text as its
//! UTF-8 bytes right-padded with zero bytes to the field's declared length,
//! and Integer and Float values as 4 big-endian bytes.

use vstd::prelude::*;
use vstd::utf8::{decode_utf8, encode_utf8, valid_utf8};
use crate::schema::Type;

verus! {

/// One field value as a caller hands it in and as `read_all` hands it back.
#[derive(Debug)]
pub enum Value {
    /// Free text for a Varchar field.
    Varchar(String),
    /// The decimal text of a 32-bit signed integer for an Integer field.
    Integer(String),
    /// A single-precision value for a Float field, carried by its IEEE-754
    /// bit pattern; the store only moves its four bytes, and text conversion
    /// is left to callers.
    Float(u32),
}

/// The mathematical shape of a `Value`: text as a character sequence.
pub enum ValueView {
    Varchar(Seq<char>),
    Integer(Seq<char>),
    Float(u32),
}

impl View for Value {
    type V = ValueView;

    open spec fn view(&self) -> ValueView {
        match self {
            Value::Varchar(s) => ValueView::Varchar(s@),
            Value::Integer(s) => ValueView::Integer(s@),
            Value::Float(b) => ValueView::Float(*b),
        }
    }
}

impl DeepView for Value {
    type V = ValueView;

    open spec fn deep_view(&self) -> ValueView {
        self.view()
    }
}

impl PartialEq for Value {
    fn eq(&self, other: &Value) -> bool {
        match (self, other) {
            (Value::Varchar(a), Value::Varchar(b)) => *a == *b,
            (Value::Integer(a), Value::Integer(b)) => *a == *b,
            (Value::Float(a), Value::Float(b)) => *a == *b,
            _ => false,
        }
    }
}

impl vstd::std_specs::cmp::PartialEqSpecImpl for Value {
    open spec fn obeys_eq_spec() -> bool {
        true
    }

    open spec fn eq_spec(&self, other: &Value) -> bool {
        match (self, other) {
            (Value::Varchar(a), Value::Varchar(b)) => a@ == b@,
            (Value::Integer(a), Value::Integer(b)) => a@ == b@,
            (Value::Float(a), Value::Float(b)) => a == b,
            _ => false,
        }
    }
}

// ---------------------------------------------------------------------------
// Big-endian 4-byte encoding of a 32-bit quantity.
// ---------------------------------------------------------------------------

/// The four big-endian bytes of `x`.
pub open spec fn be_bytes(x: u32) -> Seq<u8> {
    seq![(x >> 24) as u8, (x >> 16) as u8, (x >> 8) as u8, x as u8]
}

/// The 32-bit quantity read big-endian from the first four bytes of `b`.
pub open spec fn u32_of_be(b: Seq<u8>) -> u32
    recommends
        b.len() >= 4,
{
    ((b[0] as u32) << 24) | ((b[1] as u32) << 16) | ((b[2] as u32) << 8) | (b[3] as u32)
}

pub proof fn lemma_be_round_trip(x: u32)
    ensures
        be_bytes(x).len() == 4,
        u32_of_be(be_bytes(x)) == x,
{
    let b0 = (x >> 24) as u8;
    let b1 = (x >> 16) as u8;
    let b2 = (x >> 8) as u8;
    let b3 = x as u8;
    assert(((b0 as u32) << 24) | ((b1 as u32) << 16) | ((b2 as u32) << 8) | (b3 as u32)
        == x) by (bit_vector)
        requires
            b0 == (x >> 24) as u8,
            b1 == (x >> 16) as u8,
            b2 == (x >> 8) as u8,
            b3 == x as u8,
    ;
}

/// Appends the four big-endian bytes of `x` to `out`.
pub fn push_be_bytes(out: &mut Vec<u8>, x: u32)
    ensures
        final(out)@ == old(out)@ + be_bytes(x),
{
    out.push(#[verifier::truncate] ((x >> 24) as u8));
    out.push(#[verifier::truncate] ((x >> 16) as u8));
    out.push(#[verifier::truncate] ((x >> 8) as u8));
    out.push(#[verifier::truncate] (x as u8));
    assert(out@ =~= old(out)@ + be_bytes(x));
}

/// Reads a 32-bit quantity big-endian from the first four bytes of `b`.
pub fn read_u32_be(b: &[u8]) -> (r: u32)
    requires
        b@.len() >= 4,
    ensures
        r == u32_of_be(b@),
{
    ((b[0] as u32) << 24) | ((b[1] as u32) << 16) | ((b[2] as u32) << 8) | (b[3] as u32)
}

// ---------------------------------------------------------------------------
// Two's-complement correspondence between a signed value and its bit pattern.
// ---------------------------------------------------------------------------

/// The 32-bit two's-complement bit pattern of `n`.
pub open spec fn u32_repr(n: int) -> u32
    recommends
        i32::MIN <= n <= i32::MAX,
{
    if n >= 0 {
        n as u32
    } else {
        (n + 0x1_0000_0000) as u32
    }
}

/// The signed value whose 32-bit two's-complement bit pattern is `x`.
pub open spec fn i32_val(x: u32) -> int {
    if x <= i32::MAX as u32 {
        x as int
    } else {
        x as int - 0x1_0000_0000
    }
}

pub proof fn lemma_i32_repr_round_trip(n: int)
    requires
        i32::MIN <= n <= i32::MAX,
    ensures
        i32_val(u32_repr(n)) == n,
{
}

/// The bit pattern of `n`, as `u32_repr` gives it.
pub fn i32_to_bits(n: i32) -> (r: u32)
    ensures
        r == u32_repr(n as int),
{
    if n >= 0 {
        n as u32
    } else {
        ((n as i64) + 0x1_0000_0000i64) as u32
    }
}

/// The signed value of the bit pattern `x`, as `i32_val` gives it.
pub fn bits_to_i32(x: u32) -> (r: i32)
    ensures
        r as int == i32_val(x),
{
    if x <= 0x7fff_ffff {
        x as i32
    } else {
        ((x as i64) - 0x1_0000_0000i64) as i32
    }
}

// ---------------------------------------------------------------------------
// Decimal text of a 32-bit signed integer.
// ---------------------------------------------------------------------------

pub open spec fn is_digit(c: char) -> bool {
    48 <= c as int <= 57
}

pub open spec fn digit_val(c: char) -> int {
    c as int - 48
}

pub open spec fn all_digits(s: Seq<char>) -> bool {
    forall|i: int| 0 <= i < s.len() ==> is_digit(#[trigger] s[i])
}

/// The number that the digit characters `s` denote, most significant first.
pub open spec fn digits_value(s: Seq<char>) -> int
    decreases s.len(),
{
    if s.len() == 0 {
        0
    } else {
        digits_value(s.drop_last()) * 10 + digit_val(s.last())
    }
}

pub open spec fn has_sign(s: Seq<char>) -> bool {
    s.len() > 0 && (s[0] == '-' || s[0] == '+')
}

/// `s` without its leading sign character, if it has one.
pub open spec fn digits_part(s: Seq<char>) -> Seq<char> {
    if has_sign(s) {
        s.drop_first()
    } else {
        s
    }
}

/// The signed value that `s` denotes.
pub open spec fn int_value(s: Seq<char>) -> int {
    if s.len() > 0 && s[0] == '-' {
        -digits_value(digits_part(s))
    } else {
        digits_value(digits_part(s))
    }
}

/// Whether `s` parses as a 32-bit signed integer: an optional sign, then at
/// least one decimal digit and nothing else, denoting a value in range.
pub open spec fn is_int_text(s: Seq<char>) -> bool {
    &&& digits_part(s).len() > 0
    &&& all_digits(digits_part(s))
    &&& i32::MIN <= int_value(s) <= i32::MAX
}

pub open spec fn digit_char(d: int) -> char
    recommends
        0 <= d <= 9,
{
    ((48 + d) as u8) as char
}

/// The decimal digits of `m`, most significant first, without a sign.
pub open spec fn digits_text(m: int) -> Seq<char>
    recommends
        m >= 0,
    decreases m,
{
    if m < 10 {
        seq![digit_char(m)]
    } else {
        digits_text(m / 10).push(digit_char(m as int % 10))
    }
}

/// The decimal rendering of `n`: a minus sign for negative values, then the
/// digits without leading zeros.
pub open spec fn int_text(n: int) -> Seq<char> {
    if n < 0 {
        seq!['-'] + digits_text(-n)
    } else {
        digits_text(n)
    }
}

pub proof fn lemma_digits_value_nonneg(s: Seq<char>)
    requires
        all_digits(s),
    ensures
        digits_value(s) >= 0,
    decreases s.len(),
{
    if s.len() > 0 {
        lemma_digits_value_nonneg(s.drop_last());
    }
}

/// Reading more digits never shrinks the denoted value: the value of a prefix
/// is a lower bound for the value of the whole digit string.
pub proof fn lemma_digits_value_prefix_le(s: Seq<char>, i: int)
    requires
        all_digits(s),
        0 <= i <= s.len(),
    ensures
        digits_value(s.take(i)) <= digits_value(s),
    decreases s.len() - i,
{
    if i == s.len() {
        assert(s.take(i) =~= s);
    } else {
        lemma_digits_value_prefix_le(s, i + 1);
        assert(s.take(i + 1).drop_last() =~= s.take(i));
        assert(forall|j: int| 0 <= j < i ==> s.take(i)[j] == s[j]);
        lemma_digits_value_nonneg(s.take(i));
        assert(digits_value(s.take(i + 1)) == digits_value(s.take(i)) * 10 + digit_val(s[i]));
    }
}

/// Parses `s` as a 32-bit signed integer, exactly as `is_int_text` and
/// `int_value` describe: `None` on empty or malformed text and on values out
/// of range.
pub fn parse_i32(s: &str) -> (r: Option<i32>)
    ensures
        r is Some <==> is_int_text(s@),
        is_int_text(s@) ==> r == Some((int_value(s@) as i32)),
{
    let len = s.unicode_len();
    if len == 0 {
        return None;
    }
    let first = s.get_char(0);
    let neg = first == '-';
    let start: usize = if first == '-' || first == '+' {
        1
    } else {
        0
    };
    if start == len {
        // a sign with no digits
        assert(digits_part(s@).len() == 0);
        return None;
    }
    let ghost d = digits_part(s@);
    assert(d =~= s@.subrange(start as int, len as int));
    let mut acc: u64 = 0;
    let mut i: usize = start;
    while i < len
        invariant
            start <= i <= len,
            len == s@.len(),
            start == if has_sign(s@) { 1int } else { 0int },
            d == digits_part(s@),
            d =~= s@.subrange(start as int, len as int),
            all_digits(d.take(i - start)),
            acc == digits_value(d.take(i - start)),
            acc <= 0x8000_0000u64,
        decreases len - i,
    {
        let c = s.get_char(i);
        let u = c as u32;
        if u < 48 || u > 57 {
            assert(!is_digit(d[i - start]));
            return None;
        }
        proof {
            assert(d.take(i - start + 1).drop_last() =~= d.take(i - start));
        }
        acc = acc * 10 + (u - 48) as u64;
        if acc > 0x8000_0000u64 {
            proof {
                if all_digits(d) {
                    lemma_digits_value_prefix_le(d, i - start + 1);
                }
            }
            return None;
        }
        i = i + 1;
    }
    assert(d.take(i - start) =~= d);
    if neg {
        if acc == 0x8000_0000u64 {
            return Some(i32::MIN);
        }
        return Some(-(acc as i32));
    }
    if acc > 0x7fff_ffffu64 {
        return None;
    }
    Some(acc as i32)
}

/// The characters that the digit bytes `b` spell, read back to front.
spec fn rev_chars(b: Seq<u8>) -> Seq<char>
    decreases b.len(),
{
    if b.len() == 0 {
        Seq::empty()
    } else {
        seq![b.last() as char] + rev_chars(b.drop_last())
    }
}

proof fn lemma_rev_chars_len(b: Seq<u8>)
    ensures
        rev_chars(b).len() == b.len(),
    decreases b.len(),
{
    if b.len() > 0 {
        lemma_rev_chars_len(b.drop_last());
    }
}

proof fn lemma_rev_chars_index(b: Seq<u8>, k: int)
    requires
        0 <= k < b.len(),
    ensures
        rev_chars(b).len() == b.len(),
        rev_chars(b)[k] == b[b.len() - 1 - k] as char,
    decreases b.len(),
{
    lemma_rev_chars_len(b);
    if k > 0 {
        lemma_rev_chars_index(b.drop_last(), k - 1);
    }
}

/// Renders `n` in decimal, exactly as `int_text` describes.
pub fn format_i32(n: i32) -> (r: String)
    ensures
        r@ == int_text(n as int),
{
    let m: u32 = if n >= 0 {
        n as u32
    } else {
        (-(n as i64)) as u32
    };
    // least significant digit first
    let mut rev: Vec<u8> = Vec::new();
    let d0: u32 = m % 10;
    rev.push((d0 + 48) as u8);
    let mut m2: u32 = m / 10;
    proof {
        assert(rev@.drop_last() =~= Seq::<u8>::empty());
        assert(rev_chars(Seq::<u8>::empty()) == Seq::<char>::empty());
        assert(rev_chars(rev@) =~= seq![((d0 + 48) as u8) as char]);
        if m2 > 0 {
            assert(digits_text(m as int) == digits_text(m2 as int).push(digit_char(m as int % 10)));
            assert(digits_text(m2 as int) + rev_chars(rev@) =~= digits_text(m as int));
        } else {
            assert(rev_chars(rev@) =~= digits_text(m as int));
        }
    }
    while m2 > 0
        invariant
            digits_text(m as int) == if m2 > 0 {
                digits_text(m2 as int) + rev_chars(rev@)
            } else {
                rev_chars(rev@)
            },
            rev@.len() >= 1,
        decreases m2,
    {
        let ghost old_rev = rev@;
        let ghost old_m2 = m2 as int;
        let d: u32 = m2 % 10;
        rev.push((d + 48) as u8);
        m2 = m2 / 10;
        proof {
            assert(rev@.drop_last() =~= old_rev);
            assert(rev_chars(rev@) == seq![digit_char(old_m2 % 10)] + rev_chars(old_rev));
            if m2 > 0 {
                assert(digits_text(old_m2) == digits_text(m2 as int).push(digit_char(old_m2 % 10)));
                assert(digits_text(m2 as int) + rev_chars(rev@) =~= digits_text(m as int));
            } else {
                assert(digits_text(old_m2) =~= seq![digit_char(old_m2 % 10)]);
                assert(rev_chars(rev@) =~= digits_text(m as int));
            }
        }
    }
    let ghost cs = int_text(n as int);
    let mut out: Vec<u8> = Vec::new();
    if n < 0 {
        out.push(45u8);
    }
    let ghost sign_len: int = out@.len() as int;
    let digit_count = rev.len();
    let mut j: usize = 0;
    while j < digit_count
        invariant
            digit_count == rev@.len(),
            0 <= j <= digit_count,
            out@.len() == sign_len + j,
            sign_len == if n < 0 { 1int } else { 0int },
            n < 0 ==> out@[0] == 45u8,
            forall|k: int|
                0 <= k < j ==> #[trigger] out@[sign_len + k] == rev@[rev@.len() - 1 - k],
        decreases digit_count - j,
    {
        out.push(rev[digit_count - 1 - j]);
        j = j + 1;
    }
    proof {
        lemma_rev_chars_len(rev@);
        let ghost digits = digits_text(m as int);
        assert(digits == rev_chars(rev@));
        assert(out@.len() == cs.len());
        assert forall|k: int| 0 <= k < out@.len() implies (#[trigger] out@[k] as char) == cs[k]
            && out@[k] < 128 by {
            if n < 0 && k == 0 {
                assert(cs[0] == '-');
                assert((45u8 as char) == '-');
                assert((45u8 as char) as int == 45);
            } else {
                let kk = k - sign_len;
                assert(out@[sign_len + kk] == rev@[rev@.len() - 1 - kk]);
                lemma_rev_chars_index(rev@, kk);
                assert(rev_chars(rev@)[kk] == rev@[rev@.len() - 1 - kk] as char);
                assert(cs[k] == digits[kk]);
                lemma_digits_text_ascii(m as int, kk);
                lemma_u8_char_val(rev@[rev@.len() - 1 - kk]);
            }
        }
    }
    decode_ascii(&out, Ghost(cs))
}

/// Each character of `digits_text` is an ASCII digit, and its byte value cast
/// back to a character is itself.
pub proof fn lemma_digits_text_ascii(m: int, k: int)
    requires
        m >= 0,
        0 <= k < digits_text(m).len(),
    ensures
        48 <= digits_text(m)[k] as int <= 57,
    decreases m,
{
    if m >= 10 && k < digits_text(m).len() - 1 {
        lemma_digits_text_ascii(m / 10, k);
    }
}

/// A byte cast to a character keeps its numerical value.
proof fn lemma_u8_char_val(b: u8)
    ensures
        (b as char) as int == b as int,
{
}

/// The digit text of `m` denotes `m` again.
pub proof fn lemma_digits_text_value(m: int)
    requires
        m >= 0,
    ensures
        digits_text(m).len() > 0,
        all_digits(digits_text(m)),
        digits_value(digits_text(m)) == m,
    decreases m,
{
    assert forall|k: int| 0 <= k < digits_text(m).len() implies is_digit(
        #[trigger] digits_text(m)[k],
    ) by {
        lemma_digits_text_ascii(m, k);
    }
    if m < 10 {
        assert(seq![digit_char(m)].drop_last() =~= Seq::<char>::empty());
        assert(digits_value(Seq::<char>::empty()) == 0);
        lemma_u8_char_val((48 + m) as u8);
    } else {
        lemma_digits_text_value(m / 10);
        vstd::arithmetic::div_mod::lemma_fundamental_div_mod(m, 10);
        assert(digits_text(m).drop_last() =~= digits_text(m / 10));
        assert(digits_text(m).last() == digit_char(m % 10));
        lemma_u8_char_val((48 + m % 10) as u8);
    }
}

/// The decimal rendering of any 32-bit value parses back to that value: the
/// text the store renders is canonical, so reading values back and inserting
/// them again reproduces the same rows.
pub proof fn lemma_int_text_parses(n: int)
    requires
        i32::MIN <= n <= i32::MAX,
    ensures
        is_int_text(int_text(n)),
        int_value(int_text(n)) == n,
{
    let s = int_text(n);
    if n < 0 {
        let d = digits_text(-n);
        lemma_digits_text_value(-n);
        assert(s[0] == '-');
        assert(digits_part(s) =~= d);
    } else {
        lemma_digits_text_value(n);
        lemma_digits_text_ascii(n, 0);
        assert(s[0] != '-' && s[0] != '+');
        assert(digits_part(s) == s);
    }
}

/// Builds the text whose characters are exactly the ASCII bytes `b`.
fn decode_ascii(b: &Vec<u8>, chars: Ghost<Seq<char>>) -> (r: String)
    requires
        b@.len() == chars@.len(),
        forall|k: int| 0 <= k < b@.len() ==> (#[trigger] b@[k] as char) == chars@[k] && b@[k]
            < 128,
    ensures
        r@ == chars@,
{
    proof {
        lemma_ascii_bytes_decode(b@, chars@);
    }
    let s = decode_lossy(b.as_slice());
    s
}

/// ASCII bytes decode to exactly their characters: the byte sequence is the
/// UTF-8 encoding of the character sequence it spells.
proof fn lemma_ascii_bytes_decode(b: Seq<u8>, cs: Seq<char>)
    requires
        b.len() == cs.len(),
        forall|k: int| 0 <= k < b.len() ==> (#[trigger] b[k] as char) == cs[k] && b[k] < 128,
    ensures
        encode_utf8(cs) == b,
        valid_utf8(b),
        decode_utf8(b) == cs,
{
    assert forall|k: int| 0 <= k < cs.len() implies '\0' <= #[trigger] cs[k] <= '\u{7f}' by {
        assert((b[k] as char) == cs[k]);
        assert(b[k] < 128);
    }
    assert(vstd::utf8::is_ascii_chars(cs));
    vstd::utf8::is_ascii_chars_encode_utf8(cs);
    assert(encode_utf8(cs) =~= b);
    vstd::utf8::encode_utf8_valid_utf8(cs);
    vstd::utf8::encode_utf8_decode_utf8(cs);
}

// ---------------------------------------------------------------------------
// Text bytes.
// ---------------------------------------------------------------------------

/// What `String::from_utf8_lossy` makes of `bytes`: a pure function of the
/// bytes alone.
pub uninterp spec fn lossy_text_of(bytes: Seq<u8>) -> Seq<char>;

/// Relies on `String::from_utf8_lossy`: the result depends on the bytes
/// alone, and bytes that are valid UTF-8 decode to exactly their own text.
#[verifier::external_body]
fn decode_lossy(bytes: &[u8]) -> (r: String)
    ensures
        r@ == lossy_text_of(bytes@),
        valid_utf8(bytes@) ==> r@ == decode_utf8(bytes@),
{
    String::from_utf8_lossy(bytes).into_owned()
}

// ---------------------------------------------------------------------------
// Varchar bytes: UTF-8 text right-padded with zero bytes.
// ---------------------------------------------------------------------------

/// `b` right-padded with zero bytes to length `len`.
pub open spec fn zero_pad(b: Seq<u8>, len: int) -> Seq<u8>
    recommends
        b.len() <= len,
{
    b + Seq::new((len - b.len()) as nat, |i: int| 0u8)
}

/// `b` without its trailing zero bytes.
pub open spec fn strip_trailing_zeros(b: Seq<u8>) -> Seq<u8>
    decreases b.len(),
{
    if b.len() > 0 && b.last() == 0 {
        strip_trailing_zeros(b.drop_last())
    } else {
        b
    }
}

pub proof fn lemma_strip_pad(b: Seq<u8>, len: int)
    requires
        b.len() <= len,
        b.len() == 0 || b.last() != 0,
    ensures
        strip_trailing_zeros(zero_pad(b, len)) == b,
    decreases len - b.len(),
{
    if len == b.len() {
        assert(zero_pad(b, len) =~= b);
    } else {
        assert(zero_pad(b, len).drop_last() =~= zero_pad(b, len - 1));
        assert(zero_pad(b, len).last() == 0);
        lemma_strip_pad(b, len - 1);
    }
}

/// The UTF-8 encoding of text that does not end in a NUL character does not
/// end in a zero byte.
pub proof fn lemma_encode_last_nonzero(s: Seq<char>)
    requires
        s.len() > 0,
        s.last() != '\0',
    ensures
        encode_utf8(s).len() > 0,
        encode_utf8(s).last() != 0,
    decreases s.len(),
{
    let c = s[0] as u32;
    vstd::utf8::char_is_scalar(s[0]);
    lemma_encode_scalar_shape(c);
    if s.len() == 1 {
        assert(s.drop_first().len() == 0);
        assert(encode_utf8(s) =~= vstd::utf8::encode_scalar(c));
        assert(s[0] != '\0');
        assert(c != 0) by {
            vstd::utf8::char_u32_cast(s[0], c);
            assert(('\0' as u32) == 0);
        }
    } else {
        lemma_encode_last_nonzero(s.drop_first());
        assert(encode_utf8(s) == vstd::utf8::encode_scalar(c) + encode_utf8(s.drop_first()));
        assert(encode_utf8(s).last() == encode_utf8(s.drop_first()).last());
    }
}

/// The encoding of one scalar is non-empty, and its last byte is zero only
/// for the scalar zero.
proof fn lemma_encode_scalar_shape(c: u32)
    requires
        vstd::utf8::is_scalar(c),
    ensures
        vstd::utf8::encode_scalar(c).len() > 0,
        c != 0 ==> vstd::utf8::encode_scalar(c).last() != 0,
{
    if vstd::utf8::has_width_1_encoding(c) {
        assert(c < 0x80 && c != 0 ==> (c & 0x7F) as u8 != 0) by (bit_vector);
    } else {
        let last = vstd::utf8::encode_scalar(c).last();
        assert(vstd::utf8::encode_scalar(c).last() == vstd::utf8::last_continuation_byte(c));
        assert(forall|y: u8| (0x80u8 | y) != 0) by (bit_vector);
    }
}

/// Copies `b` up to but not including its trailing zero bytes.
pub fn strip_zeros(b: &[u8]) -> (r: Vec<u8>)
    ensures
        r@ == strip_trailing_zeros(b@),
{
    let mut end: usize = b.len();
    proof {
        assert(b@.take(end as int) =~= b@);
    }
    while end > 0 && *vstd::slice::slice_index_get(b, end - 1) == 0
        invariant
            0 <= end <= b@.len(),
            strip_trailing_zeros(b@) == strip_trailing_zeros(b@.take(end as int)),
        decreases end,
    {
        proof {
            assert(b@.take(end as int).last() == b@[end - 1]);
            assert(b@.take(end as int).drop_last() =~= b@.take(end - 1));
        }
        end = end - 1;
    }
    proof {
        if end > 0 {
            assert(b@.take(end as int).last() == b@[end as int - 1]);
        }
        assert(strip_trailing_zeros(b@.take(end as int)) == b@.take(end as int));
    }
    let r = vstd::slice::slice_to_vec(vstd::slice::slice_subrange(b, 0, end));
    proof {
        assert(r@ =~= b@.take(end as int));
    }
    r
}

/// Encodes `s` for a Varchar field of length `len`: its UTF-8 bytes padded
/// with zero bytes, or `None` if the text is longer than the field.
pub fn serialize_varchar(s: &str, len: u32) -> (r: Option<Vec<u8>>)
    ensures
        r is Some <==> encode_utf8(s@).len() <= len,
        r matches Some(v) ==> v@ == zero_pad(encode_utf8(s@), len as int),
{
    let mut b = s.as_bytes_vec();
    if b.len() > len as usize {
        return None;
    }
    let ghost enc = encode_utf8(s@);
    proof {
        assert(b@ =~= enc + Seq::new((b@.len() - enc.len()) as nat, |i: int| 0u8));
    }
    while b.len() < len as usize
        invariant
            enc == encode_utf8(s@),
            enc.len() <= b@.len() <= len,
            b@ == enc + Seq::new((b@.len() - enc.len()) as nat, |i: int| 0u8),
        decreases len - b.len(),
    {
        b.push(0u8);
        proof {
            assert(b@ =~= enc + Seq::new((b@.len() - enc.len()) as nat, |i: int| 0u8));
        }
    }
    Some(b)
}

// ---------------------------------------------------------------------------
// One field: value to bytes and bytes back to value.
// ---------------------------------------------------------------------------

/// Whether `v` fits a field of type `t` and length `len`: the value's shape
/// matches the declared type, Varchar text fits the field, and Integer text
/// parses.
pub open spec fn field_ok(t: Type, len: int, v: ValueView) -> bool {
    match v {
        ValueView::Varchar(s) => t is Varchar && encode_utf8(s).len() <= len,
        ValueView::Integer(s) => t is Integer && is_int_text(s),
        ValueView::Float(_) => t is Float,
    }
}

/// The encoding of `v` in a field of type `t` and length `len`.
pub open spec fn field_bytes(t: Type, len: int, v: ValueView) -> Seq<u8>
    recommends
        field_ok(t, len, v),
{
    match v {
        ValueView::Varchar(s) => zero_pad(encode_utf8(s), len),
        ValueView::Integer(s) => be_bytes(u32_repr(int_value(s))),
        ValueView::Float(b) => be_bytes(b),
    }
}

/// The value read back from the bytes `b` of a field of type `t`.
pub open spec fn read_field(t: Type, b: Seq<u8>) -> ValueView {
    match t {
        Type::Varchar => ValueView::Varchar(
            if valid_utf8(strip_trailing_zeros(b)) {
                decode_utf8(strip_trailing_zeros(b))
            } else {
                lossy_text_of(strip_trailing_zeros(b))
            },
        ),
        Type::Integer => ValueView::Integer(int_text(i32_val(u32_of_be(b)))),
        Type::Float => ValueView::Float(u32_of_be(b)),
    }
}

/// Values whose field encoding reads back as the very same value: Varchar
/// text without trailing NUL characters, and Integer text in the canonical
/// form that `read_field` renders.
pub open spec fn canonical_value(v: ValueView) -> bool {
    match v {
        ValueView::Varchar(s) => s.len() == 0 || s.last() != '\0',
        ValueView::Integer(s) => s == int_text(int_value(s)),
        ValueView::Float(_) => true,
    }
}

/// Reading a field back from a value's own encoding yields the value again.
pub proof fn lemma_field_round_trip(t: Type, len: int, v: ValueView)
    requires
        field_ok(t, len, v),
        canonical_value(v),
    ensures
        read_field(t, field_bytes(t, len, v)) == v,
{
    match v {
        ValueView::Varchar(s) => {
            let enc = encode_utf8(s);
            if s.len() == 0 {
                assert(enc =~= Seq::<u8>::empty());
            } else {
                lemma_encode_last_nonzero(s);
            }
            lemma_strip_pad(enc, len);
            vstd::utf8::encode_utf8_valid_utf8(s);
            vstd::utf8::encode_utf8_decode_utf8(s);
        },
        ValueView::Integer(s) => {
            let n = int_value(s);
            lemma_be_round_trip(u32_repr(n));
            lemma_i32_repr_round_trip(n);
        },
        ValueView::Float(b) => {
            lemma_be_round_trip(b);
        },
    }
}

/// Serializes one value for a field of type `t` and length `len`, exactly as
/// `field_ok` and `field_bytes` describe; `None` on a type mismatch, Varchar
/// text longer than the field, or Integer text that does not parse.
pub fn serialize_value(t: Type, len: u32, v: &Value) -> (r: Option<Vec<u8>>)
    ensures
        r is Some <==> field_ok(t, len as int, v@),
        r matches Some(b) ==> b@ == field_bytes(t, len as int, v@),
{
    match (t, v) {
        (Type::Varchar, Value::Varchar(s)) => serialize_varchar(s.as_str(), len),
        (Type::Integer, Value::Integer(s)) => {
            match parse_i32(s.as_str()) {
                Some(n) => {
                    let mut out: Vec<u8> = Vec::new();
                    push_be_bytes(&mut out, i32_to_bits(n));
                    Some(out)
                },
                None => None,
            }
        },
        (Type::Float, Value::Float(bits)) => {
            let mut out: Vec<u8> = Vec::new();
            push_be_bytes(&mut out, *bits);
            Some(out)
        },
        _ => None,
    }
}

/// Reads one value back from the bytes of a field of type `t`, exactly as
/// `read_field` describes.
pub fn deserialize_value(t: Type, b: &[u8]) -> (r: Value)
    requires
        !(t is Varchar) ==> b@.len() >= 4,
    ensures
        r@ == read_field(t, b@),
{
    match t {
        Type::Varchar => {
            let stripped = strip_zeros(b);
            Value::Varchar(decode_lossy(stripped.as_slice()))
        },
        Type::Integer => {
            let x = read_u32_be(b);
            Value::Integer(format_i32(bits_to_i32(x)))
        },
        Type::Float => Value::Float(read_u32_be(b)),
    }
}

} // verus!
