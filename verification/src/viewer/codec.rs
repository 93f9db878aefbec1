//! The codec: reinterpreting raw bytes as typed values and formatting one
//! value as its fixed-width decimal, hexadecimal or scientific form.
//!
//! Every number is handled as a plain unsigned bit pattern (`u64`);
//! floating-point values travel as their IEEE 754 bits and are formatted
//! by exact decimal arithmetic on digit vectors, so no floating-point
//! operation is involved anywhere.

use vstd::prelude::*;

use vstd::arithmetic::div_mod::lemma_fundamental_div_mod_converse;
use vstd::arithmetic::power2::pow2;
use vstd::string::{StrSliceExecFns, StringExecFns};

use crate::viewer::common_dt::{DataType, DisplayType, Endianness};

verus! {

// ---------------------------------------------------------------------------
// Powers of ten and five
// ---------------------------------------------------------------------------

pub open spec fn pow10(e: nat) -> nat
    decreases e,
{
    if e == 0 {
        1
    } else {
        10 * pow10((e - 1) as nat)
    }
}

pub open spec fn pow5(e: nat) -> nat
    decreases e,
{
    if e == 0 {
        1
    } else {
        5 * pow5((e - 1) as nat)
    }
}

pub proof fn lemma_pow10_pos(e: nat)
    ensures
        pow10(e) >= 1,
    decreases e,
{
    if e > 0 {
        lemma_pow10_pos((e - 1) as nat);
    }
}

pub proof fn lemma_pow10_adds(a: nat, b: nat)
    ensures
        pow10(a + b) == pow10(a) * pow10(b),
    decreases a,
{
    if a == 0 {
        assert(pow10(a + b) == pow10(b));
        assert(pow10(a) == 1);
        assert(pow10(a + b) == pow10(a) * pow10(b)) by (nonlinear_arith)
            requires
                pow10(a + b) == pow10(b),
                pow10(a) == 1,
        ;
    } else {
        lemma_pow10_adds((a - 1) as nat, b);
        assert((a + b - 1) as nat == (a - 1) as nat + b);
        assert(pow10(a + b) == 10 * (pow10((a - 1) as nat) * pow10(b)));
        assert(pow10(a + b) == pow10(a) * pow10(b)) by (nonlinear_arith)
            requires
                pow10(a + b) == 10 * (pow10((a - 1) as nat) * pow10(b)),
                pow10(a) == 10 * pow10((a - 1) as nat),
        ;
    }
}

/// `pow10` is monotone in its exponent.
pub proof fn lemma_pow10_increases(a: nat, b: nat)
    requires
        a <= b,
    ensures
        pow10(a) <= pow10(b),
    decreases b,
{
    if a < b && b > 0 {
        lemma_pow10_increases(a, (b - 1) as nat);
        lemma_pow10_pos((b - 1) as nat);
    }
}

/// Twenty decimal digits cover every `u64` value.
pub proof fn lemma_pow10_20_big()
    ensures
        pow10(20) > 0xFFFF_FFFF_FFFF_FFFF,
{
    reveal_with_fuel(pow10, 21);
}

// ---------------------------------------------------------------------------
// Digit characters and digit strings
// ---------------------------------------------------------------------------

/// The character of one digit value, covering both bases.
pub open spec fn digit_to_char(d: int) -> char {
    if d == 0 {
        '0'
    } else if d == 1 {
        '1'
    } else if d == 2 {
        '2'
    } else if d == 3 {
        '3'
    } else if d == 4 {
        '4'
    } else if d == 5 {
        '5'
    } else if d == 6 {
        '6'
    } else if d == 7 {
        '7'
    } else if d == 8 {
        '8'
    } else if d == 9 {
        '9'
    } else if d == 10 {
        'A'
    } else if d == 11 {
        'B'
    } else if d == 12 {
        'C'
    } else if d == 13 {
        'D'
    } else if d == 14 {
        'E'
    } else {
        'F'
    }
}

/// The superscript glyph of one decimal digit.
pub open spec fn super_digit_to_char(d: int) -> char {
    if d == 0 {
        '⁰'
    } else if d == 1 {
        '¹'
    } else if d == 2 {
        '²'
    } else if d == 3 {
        '³'
    } else if d == 4 {
        '⁴'
    } else if d == 5 {
        '⁵'
    } else if d == 6 {
        '⁶'
    } else if d == 7 {
        '⁷'
    } else if d == 8 {
        '⁸'
    } else {
        '⁹'
    }
}

/// The decimal digits of `n`, most significant first.
pub open spec fn dec_seq(n: nat) -> Seq<char>
    decreases n,
{
    if n < 10 {
        seq![digit_to_char(n as int)]
    } else {
        dec_seq(n / 10).push(digit_to_char((n % 10) as int))
    }
}

/// The superscript decimal digits of `n`, most significant first.
pub open spec fn sup_seq(n: nat) -> Seq<char>
    decreases n,
{
    if n < 10 {
        seq![super_digit_to_char(n as int)]
    } else {
        sup_seq(n / 10).push(super_digit_to_char((n % 10) as int))
    }
}

/// The hexadecimal digits of `n`, zero-padded on the left to at least `w`
/// digits, uppercase, most significant first.
pub open spec fn hex_pad_seq(n: nat, w: nat) -> Seq<char>
    decreases n, w,
{
    if n < 16 && w <= 1 {
        seq![digit_to_char(n as int)]
    } else {
        hex_pad_seq(n / 16, if w == 0 {
            0
        } else {
            (w - 1) as nat
        }).push(digit_to_char((n % 16) as int))
    }
}

/// `k` copies of the character `c`.
pub open spec fn repeat_char(c: char, k: nat) -> Seq<char>
    decreases k,
{
    if k == 0 {
        Seq::empty()
    } else {
        seq![c] + repeat_char(c, (k - 1) as nat)
    }
}

/// `s`, left-padded with spaces to at least `w` characters.
pub open spec fn pad_spaces(s: Seq<char>, w: nat) -> Seq<char> {
    if s.len() >= w {
        s
    } else {
        repeat_char(' ', (w - s.len()) as nat) + s
    }
}

proof fn lemma_repeat_char_push(c: char, k: nat)
    ensures
        repeat_char(c, k + 1) == repeat_char(c, k).push(c),
    decreases k,
{
    if k == 0 {
        assert(repeat_char(c, 1) =~= repeat_char(c, 0).push(c));
    } else {
        lemma_repeat_char_push(c, (k - 1) as nat);
        assert(repeat_char(c, k + 1) =~= repeat_char(c, k).push(c));
    }
}

/// The character of one digit, as a one-character string.
fn digit_str(d: u8) -> (r: &'static str)
    requires
        d < 16,
    ensures
        r@ == seq![digit_to_char(d as int)],
{
    proof {
        reveal_strlit("0");
        reveal_strlit("1");
        reveal_strlit("2");
        reveal_strlit("3");
        reveal_strlit("4");
        reveal_strlit("5");
        reveal_strlit("6");
        reveal_strlit("7");
        reveal_strlit("8");
        reveal_strlit("9");
        reveal_strlit("A");
        reveal_strlit("B");
        reveal_strlit("C");
        reveal_strlit("D");
        reveal_strlit("E");
        reveal_strlit("F");
    }
    let r = match d {
        0 => "0",
        1 => "1",
        2 => "2",
        3 => "3",
        4 => "4",
        5 => "5",
        6 => "6",
        7 => "7",
        8 => "8",
        9 => "9",
        10 => "A",
        11 => "B",
        12 => "C",
        13 => "D",
        14 => "E",
        _ => "F",
    };
    proof {
        assert(r@ =~= seq![digit_to_char(d as int)]);
    }
    r
}

/// The superscript glyph of one digit, as a one-character string.
fn sup_digit_str(d: u8) -> (r: &'static str)
    requires
        d < 10,
    ensures
        r@ == seq![super_digit_to_char(d as int)],
{
    proof {
        reveal_strlit("⁰");
        reveal_strlit("¹");
        reveal_strlit("²");
        reveal_strlit("³");
        reveal_strlit("⁴");
        reveal_strlit("⁵");
        reveal_strlit("⁶");
        reveal_strlit("⁷");
        reveal_strlit("⁸");
        reveal_strlit("⁹");
    }
    let r = match d {
        0 => "⁰",
        1 => "¹",
        2 => "²",
        3 => "³",
        4 => "⁴",
        5 => "⁵",
        6 => "⁶",
        7 => "⁷",
        8 => "⁸",
        _ => "⁹",
    };
    proof {
        assert(r@ =~= seq![super_digit_to_char(d as int)]);
    }
    r
}

/// The decimal digits of `n` as a string.
pub fn u64_dec(n: u64) -> (r: String)
    ensures
        r@ == dec_seq(n as nat),
    decreases n,
{
    if n < 10 {
        digit_str(n as u8).to_owned()
    } else {
        let mut s = u64_dec(n / 10);
        s.append(digit_str((n % 10) as u8));
        proof {
            assert(s@ =~= dec_seq(n as nat));
        }
        s
    }
}

/// The superscript decimal digits of `n` as a string.
fn u64_sup(n: u64) -> (r: String)
    ensures
        r@ == sup_seq(n as nat),
    decreases n,
{
    if n < 10 {
        sup_digit_str(n as u8).to_owned()
    } else {
        let mut s = u64_sup(n / 10);
        s.append(sup_digit_str((n % 10) as u8));
        proof {
            assert(s@ =~= sup_seq(n as nat));
        }
        s
    }
}

/// The hexadecimal digits of `n`, zero-padded to at least `w` digits.
pub fn u64_hex_pad(n: u64, w: u16) -> (r: String)
    ensures
        r@ == hex_pad_seq(n as nat, w as nat),
    decreases n, w,
{
    if n < 16 && w <= 1 {
        digit_str(n as u8).to_owned()
    } else {
        let wr: u16 = if w == 0 {
            0
        } else {
            w - 1
        };
        let mut s = u64_hex_pad(n / 16, wr);
        s.append(digit_str((n % 16) as u8));
        proof {
            assert(s@ =~= hex_pad_seq(n as nat, w as nat));
        }
        s
    }
}

/// The hexadecimal digits of a double-width value, zero-padded to at
/// least `w` digits; row addresses can exceed one machine word.
pub fn u128_hex_pad(n: u128, w: u16) -> (r: String)
    ensures
        r@ == hex_pad_seq(n as nat, w as nat),
    decreases n, w,
{
    if n < 16 && w <= 1 {
        digit_str(n as u8).to_owned()
    } else {
        let wr: u16 = if w == 0 {
            0
        } else {
            w - 1
        };
        let mut s = u128_hex_pad(n / 16, wr);
        s.append(digit_str((n % 16) as u8));
        proof {
            assert(s@ =~= hex_pad_seq(n as nat, w as nat));
        }
        s
    }
}

/// Append `count` copies of the single character of `piece`.
fn push_repeat(s: &mut String, piece: &str, count: usize)
    requires
        piece@.len() == 1,
    ensures
        final(s)@ == old(s)@ + repeat_char(piece@[0], count as nat),
{
    let mut i: usize = 0;
    proof {
        assert(s@ =~= old(s)@ + repeat_char(piece@[0], 0));
    }
    while i < count
        invariant
            i <= count,
            piece@.len() == 1,
            s@ == old(s)@ + repeat_char(piece@[0], i as nat),
        decreases count - i,
    {
        s.append(piece);
        i = i + 1;
        proof {
            lemma_repeat_char_push(piece@[0], (i - 1) as nat);
            assert(s@ =~= old(s)@ + repeat_char(piece@[0], i as nat));
        }
    }
}

/// Left-pad `body` with spaces to `width` characters and append the base
/// suffix `suffix`.
fn pad_and_suffix(body: String, width: u16, suffix: &str) -> (r: String)
    ensures
        r@ == pad_spaces(body@, width as nat) + suffix@,
{
    let n = body.as_str().unicode_len();
    let mut s = String::new();
    proof {
        reveal_strlit(" ");
    }
    if n < width as usize {
        push_repeat(&mut s, " ", width as usize - n);
    }
    s.append(body.as_str());
    s.append(suffix);
    proof {
        assert(s@ =~= pad_spaces(body@, width as nat) + suffix@);
    }
    s
}

// ---------------------------------------------------------------------------
// Reinterpreting bytes as elements
// ---------------------------------------------------------------------------

/// The value of a little-endian byte sequence: the first byte is least
/// significant.
pub open spec fn word_val(s: Seq<u8>) -> nat
    decreases s.len(),
{
    if s.len() == 0 {
        0
    } else {
        (s[0] + 256 * word_val(s.skip(1))) as nat
    }
}

/// The value of a big-endian byte sequence: the last byte is least
/// significant.
pub open spec fn be_word_val(s: Seq<u8>) -> nat
    decreases s.len(),
{
    if s.len() == 0 {
        0
    } else {
        (be_word_val(s.drop_last()) * 256 + s.last()) as nat
    }
}

/// The bytes backing element `i` of the buffer under byte-width `k`.
pub open spec fn element_bytes(content: Seq<u8>, k: nat, i: nat) -> Seq<u8> {
    content.subrange((i * k) as int, (i * k + k) as int)
}

/// The bit pattern of element `i` of the buffer, grouped per the active
/// endianness.
pub open spec fn spec_decode(content: Seq<u8>, dt: DataType, en: Endianness, i: nat) -> nat {
    let chunk = element_bytes(content, dt.spec_byte_width(), i);
    match en {
        Endianness::Little => word_val(chunk),
        Endianness::Big => be_word_val(chunk),
    }
}

proof fn lemma_word_val_bound(s: Seq<u8>)
    ensures
        word_val(s) < pow2(8 * s.len()),
    decreases s.len(),
{
    vstd::arithmetic::power2::lemma_pow2_pos(8 * s.len());
    if s.len() > 0 {
        lemma_word_val_bound(s.skip(1));
        vstd::arithmetic::power2::lemma_pow2_adds(8, (8 * (s.len() - 1)) as nat);
        vstd::arithmetic::power2::lemma2_to64();
        assert(word_val(s) == s[0] + 256 * word_val(s.skip(1)));
        assert(256 * word_val(s.skip(1)) <= 256 * (pow2(8 * (s.len() - 1) as nat) - 1))
            by (nonlinear_arith)
            requires
                word_val(s.skip(1)) <= pow2(8 * (s.len() - 1) as nat) - 1,
        ;
    }
}

proof fn lemma_be_word_val_bound(s: Seq<u8>)
    ensures
        be_word_val(s) < pow2(8 * s.len()),
    decreases s.len(),
{
    vstd::arithmetic::power2::lemma_pow2_pos(8 * s.len());
    if s.len() > 0 {
        lemma_be_word_val_bound(s.drop_last());
        vstd::arithmetic::power2::lemma_pow2_adds((8 * (s.len() - 1)) as nat, 8);
        vstd::arithmetic::power2::lemma2_to64();
        assert(be_word_val(s.drop_last()) * 256 <= (pow2(8 * (s.len() - 1) as nat) - 1) * 256)
            by (nonlinear_arith)
            requires
                be_word_val(s.drop_last()) <= pow2(8 * (s.len() - 1) as nat) - 1,
        ;
    }
}

/// How many whole elements of `dt` the buffer holds: a trailing partial
/// element is dropped, not an error.
pub fn element_count(content_len: usize, dt: &DataType) -> (r: usize)
    ensures
        r == content_len as nat / dt.spec_byte_width(),
{
    content_len / (dt.byte_width() as usize)
}

/// Whole elements end before the buffer does: element `i` of the count
/// computed by `element_count` is backed entirely by in-range bytes, so
/// the trailing `len % k` bytes back no element.
pub proof fn lemma_element_in_range(len: nat, k: nat, i: nat)
    requires
        k >= 1,
        i < len / k,
    ensures
        i * k + k <= len,
{
    vstd::arithmetic::div_mod::lemma_fundamental_div_mod(len as int, k as int);
    assert((i + 1) * k <= (len / k) * k) by (nonlinear_arith)
        requires
            i + 1 <= len / k,
            k >= 1,
    ;
    assert((len / k) * k <= len) by (nonlinear_arith)
        requires
            len == k * (len / k) + (len % k),
            len % k >= 0,
    ;
    assert((i + 1) * k == i * k + k) by (nonlinear_arith);
}

/// Decoding reads nothing but the element's own bytes: two buffers that
/// agree on them decode element `i` identically.
pub proof fn lemma_decode_reads_only_its_bytes(
    b1: Seq<u8>,
    b2: Seq<u8>,
    dt: DataType,
    en: Endianness,
    i: nat,
)
    requires
        element_bytes(b1, dt.spec_byte_width(), i) == element_bytes(b2, dt.spec_byte_width(), i),
    ensures
        spec_decode(b1, dt, en, i) == spec_decode(b2, dt, en, i),
{
}

/// The trailing `len % k` bytes back no element: whole elements decode
/// the same in any two equally long buffers that agree on the first
/// `(len / k) * k` bytes, whatever stands in the tail.
pub proof fn lemma_tail_bytes_never_read(
    b1: Seq<u8>,
    b2: Seq<u8>,
    dt: DataType,
    en: Endianness,
    i: nat,
)
    requires
        b1.len() == b2.len(),
        i < b1.len() / dt.spec_byte_width(),
        b1.subrange(0, ((b1.len() / dt.spec_byte_width()) * dt.spec_byte_width()) as int)
            == b2.subrange(
            0,
            ((b2.len() / dt.spec_byte_width()) * dt.spec_byte_width()) as int,
        ),
    ensures
        spec_decode(b1, dt, en, i) == spec_decode(b2, dt, en, i),
{
    let k = dt.spec_byte_width();
    let whole = (b1.len() / k) * k;
    lemma_element_in_range(b1.len(), k, i);
    assert((i + 1) * k <= whole) by (nonlinear_arith)
        requires
            i + 1 <= b1.len() / k,
            k >= 1,
            whole == (b1.len() / k) * k,
    ;
    assert((i + 1) * k == i * k + k) by (nonlinear_arith);
    assert(element_bytes(b1, k, i) =~= b1.subrange(0, whole as int).subrange(
        (i * k) as int,
        (i * k + k) as int,
    ));
    assert(element_bytes(b2, k, i) =~= b2.subrange(0, whole as int).subrange(
        (i * k) as int,
        (i * k + k) as int,
    ));
    lemma_decode_reads_only_its_bytes(b1, b2, dt, en, i);
}

/// Read element `i` of the buffer as its raw bit pattern, grouping the
/// element's bytes in the given order.
pub fn decode_element(content: &Vec<u8>, dt: &DataType, en: &Endianness, i: usize) -> (r: u64)
    requires
        i * dt.spec_byte_width() + dt.spec_byte_width() <= content@.len(),
    ensures
        r as nat == spec_decode(content@, *dt, *en, i as nat),
        r < pow2(8 * dt.spec_byte_width()),
{
    let k = dt.byte_width() as usize;
    let clen = content.len();
    proof {
        assert((i as nat) * (k as nat) + (k as nat) <= clen as nat);
    }
    let base = i * k;
    let ghost chunk = element_bytes(content@, k as nat, i as nat);
    proof {
        assert(chunk.len() == k);
        vstd::arithmetic::power2::lemma2_to64();
        vstd::arithmetic::power2::lemma2_to64_rest();
    }
    let mut acc: u64 = 0;
    match en {
        Endianness::Little => {
            let mut j = k;
            while j > 0
                invariant
                    j <= k,
                    k <= 8,
                    base == i * k,
                    clen == content@.len(),
                    base + k <= clen,
                    chunk == element_bytes(content@, k as nat, i as nat),
                    chunk.len() == k,
                    acc as nat == word_val(chunk.skip(j as int)),
                    acc < pow2(8 * ((k - j) as nat)),
                decreases j,
            {
                j = j - 1;
                proof {
                    vstd::arithmetic::power2::lemma_pow2_adds(8, 8 * ((k - j - 1) as nat));
                    vstd::arithmetic::power2::lemma2_to64();
                    vstd::arithmetic::power2::lemma2_to64_rest();
                    assert((acc as nat) * 256 + 255 < pow2(8 * ((k - j) as nat))) by (nonlinear_arith)
                        requires
                            (acc as nat) < pow2(8 * ((k - j - 1) as nat)),
                            pow2(8 * ((k - j) as nat)) == 256 * pow2(8 * ((k - j - 1) as nat)),
                    ;
                    assert(pow2(8 * ((k - j) as nat)) <= pow2(64)) by {
                        vstd::arithmetic::power2::lemma_pow2_strictly_increases(
                            8 * ((k - j) as nat),
                            65,
                        );
                        if 8 * ((k - j) as nat) < 64 {
                            vstd::arithmetic::power2::lemma_pow2_strictly_increases(
                                8 * ((k - j) as nat),
                                64,
                            );
                        }
                    }
                    assert(chunk.skip(j as int)[0] == content@[base + j]);
                    assert(chunk.skip(j as int).skip(1) =~= chunk.skip(j + 1));
                }
                acc = acc * 256 + (content[base + j] as u64);
            }
            proof {
                assert(chunk.skip(0) =~= chunk);
            }
        },
        Endianness::Big => {
            let mut j: usize = 0;
            proof {
                assert(chunk.take(0) =~= Seq::<u8>::empty());
            }
            while j < k
                invariant
                    j <= k,
                    k <= 8,
                    base == i * k,
                    clen == content@.len(),
                    base + k <= clen,
                    chunk == element_bytes(content@, k as nat, i as nat),
                    chunk.len() == k,
                    acc as nat == be_word_val(chunk.take(j as int)),
                    acc < pow2(8 * (j as nat)),
                decreases k - j,
            {
                proof {
                    vstd::arithmetic::power2::lemma_pow2_adds(8 * (j as nat), 8);
                    vstd::arithmetic::power2::lemma2_to64();
                    vstd::arithmetic::power2::lemma2_to64_rest();
                    assert((acc as nat) * 256 + 255 < pow2(8 * ((j + 1) as nat))) by (nonlinear_arith)
                        requires
                            (acc as nat) < pow2(8 * (j as nat)),
                            pow2(8 * ((j + 1) as nat)) == pow2(8 * (j as nat)) * 256,
                    ;
                    assert(pow2(8 * ((j + 1) as nat)) <= pow2(64)) by {
                        if 8 * ((j + 1) as nat) < 64 {
                            vstd::arithmetic::power2::lemma_pow2_strictly_increases(
                                8 * ((j + 1) as nat),
                                64,
                            );
                        }
                    }
                    assert(chunk.take(j + 1).drop_last() =~= chunk.take(j as int));
                    assert(chunk.take(j + 1).last() == content@[base + j]);
                }
                acc = acc * 256 + (content[base + j] as u64);
                j = j + 1;
            }
            proof {
                assert(chunk.take(k as int) =~= chunk);
            }
        },
    }
    proof {
        match en {
            Endianness::Little => lemma_word_val_bound(chunk),
            Endianness::Big => lemma_be_word_val_bound(chunk),
        }
    }
    acc
}

// ---------------------------------------------------------------------------
// Little-endian decimal digit vectors
// ---------------------------------------------------------------------------

/// Every entry of the vector is a single decimal digit.
pub open spec fn digits_wf(s: Seq<u8>) -> bool {
    forall|i: int| 0 <= i < s.len() ==> s[i] < 10
}

/// The number a little-endian decimal digit vector stands for: the first
/// entry is the least significant digit.
pub open spec fn digits_val(s: Seq<u8>) -> nat
    decreases s.len(),
{
    if s.len() == 0 {
        0
    } else {
        (s[0] + 10 * digits_val(s.skip(1))) as nat
    }
}

/// How many decimal digits `n` has (one for zero).
pub open spec fn digit_count(n: nat) -> nat
    decreases n,
{
    if n < 10 {
        1
    } else {
        1 + digit_count(n / 10)
    }
}

/// Appending a digit adds it at the most significant end.
pub proof fn lemma_digits_val_push(s: Seq<u8>, x: u8)
    ensures
        digits_val(s.push(x)) == digits_val(s) + x * pow10(s.len()),
    decreases s.len(),
{
    if s.len() == 0 {
        assert(s.push(x).skip(1) =~= Seq::<u8>::empty());
        assert(digits_val(Seq::<u8>::empty()) == 0);
        assert(digits_val(s.push(x)) == x);
        assert(x * pow10(0) == x) by (nonlinear_arith)
            requires
                pow10(0) == 1,
        ;
    } else {
        lemma_digits_val_push(s.skip(1), x);
        assert(s.push(x).skip(1) =~= s.skip(1).push(x));
        assert(digits_val(s.push(x)) == s[0] + 10 * (digits_val(s.skip(1)) + x * pow10(
            (s.len() - 1) as nat,
        )));
        assert(pow10(s.len()) == 10 * pow10((s.len() - 1) as nat));
        assert(digits_val(s) == s[0] + 10 * digits_val(s.skip(1)));
        assert(digits_val(s.push(x)) == digits_val(s) + x * pow10(s.len())) by (nonlinear_arith)
            requires
                digits_val(s.push(x)) == s[0] + 10 * (digits_val(s.skip(1)) + x * pow10(
                    (s.len() - 1) as nat,
                )),
                digits_val(s) == s[0] + 10 * digits_val(s.skip(1)),
                pow10(s.len()) == 10 * pow10((s.len() - 1) as nat),
        ;
    }
}

/// A digit vector of length `l` stands for a number below `pow10(l)`.
pub proof fn lemma_digits_val_bound(s: Seq<u8>)
    requires
        digits_wf(s),
    ensures
        digits_val(s) < pow10(s.len()),
    decreases s.len(),
{
    lemma_pow10_pos(s.len());
    if s.len() > 0 {
        lemma_digits_val_bound(s.skip(1));
        assert(pow10(s.len()) == 10 * pow10((s.len() - 1) as nat));
        assert(s[0] + 10 * digits_val(s.skip(1)) < 10 * pow10((s.len() - 1) as nat))
            by (nonlinear_arith)
            requires
                s[0] < 10,
                digits_val(s.skip(1)) < pow10((s.len() - 1) as nat),
        ;
    }
}

/// A digit vector whose top digit is not zero stands for a number of at
/// least `pow10(l - 1)`.
pub proof fn lemma_digits_val_lower(s: Seq<u8>)
    requires
        digits_wf(s),
        s.len() >= 1,
        s.last() != 0,
    ensures
        digits_val(s) >= pow10((s.len() - 1) as nat),
    decreases s.len(),
{
    if s.len() == 1 {
        assert(s.skip(1) =~= Seq::<u8>::empty());
    } else {
        lemma_digits_val_lower(s.skip(1));
        assert(pow10((s.len() - 1) as nat) == 10 * pow10((s.len() - 2) as nat));
        assert(10 * digits_val(s.skip(1)) >= 10 * pow10((s.len() - 2) as nat))
            by (nonlinear_arith)
            requires
                digits_val(s.skip(1)) >= pow10((s.len() - 2) as nat),
        ;
    }
}

/// Splitting a digit vector splits its value at the matching power of ten.
pub proof fn lemma_digits_val_split(s: Seq<u8>, k: int)
    requires
        0 <= k <= s.len(),
    ensures
        digits_val(s) == digits_val(s.take(k)) + pow10(k as nat) * digits_val(s.skip(k)),
    decreases k,
{
    if k == 0 {
        assert(s.take(0) =~= Seq::<u8>::empty());
        assert(s.skip(0) =~= s);
        assert(pow10(0) * digits_val(s) == digits_val(s)) by (nonlinear_arith)
            requires
                pow10(0) == 1,
        ;
    } else {
        lemma_digits_val_split(s, k - 1);
        lemma_digits_val_push(s.take(k - 1), s[k - 1]);
        assert(s.take(k) =~= s.take(k - 1).push(s[k - 1]));
        assert(s.skip(k - 1).len() == s.len() - k + 1);
        assert(s.skip(k - 1)[0] == s[k - 1]);
        assert(s.skip(k - 1).skip(1) =~= s.skip(k));
        assert(digits_val(s.skip(k - 1)) == s[k - 1] + 10 * digits_val(s.skip(k)));
        assert(pow10(k as nat) == 10 * pow10((k - 1) as nat));
        assert(digits_val(s.take(k - 1)) + pow10((k - 1) as nat) * (s[k - 1] + 10 * digits_val(
            s.skip(k),
        )) == (digits_val(s.take(k - 1)) + s[k - 1] * pow10((k - 1) as nat)) + (10 * pow10(
            (k - 1) as nat,
        )) * digits_val(s.skip(k))) by (nonlinear_arith);
    }
}

/// A well-formed digit vector stands for zero exactly when every digit is
/// zero.
pub proof fn lemma_digits_zero_iff(s: Seq<u8>)
    requires
        digits_wf(s),
    ensures
        digits_val(s) == 0 <==> (forall|i: int| 0 <= i < s.len() ==> s[i] == 0),
    decreases s.len(),
{
    if s.len() > 0 {
        lemma_digits_zero_iff(s.skip(1));
        assert(10 * digits_val(s.skip(1)) == 0 <==> digits_val(s.skip(1)) == 0)
            by (nonlinear_arith);
        if digits_val(s) == 0 {
            assert(forall|i: int| 0 <= i < s.len() ==> s[i] == 0) by {
                assert(forall|i: int| 1 <= i < s.len() ==> s[i] == s.skip(1)[i - 1]);
            }
        } else {
            if forall|i: int| 0 <= i < s.len() ==> s[i] == 0 {
                assert(forall|i: int| 0 <= i < s.skip(1).len() ==> s.skip(1)[i] == 0);
                assert(false);
            }
        }
    }
}

/// A number between two adjacent powers of ten has exactly `a + 1` digits.
pub proof fn lemma_digit_count_bounds(n: nat, a: nat)
    requires
        pow10(a) <= n < pow10(a + 1),
    ensures
        digit_count(n) == a + 1,
    decreases a,
{
    if a == 0 {
    } else {
        assert(pow10(a + 1) == 10 * pow10(a));
        assert(pow10(a) == 10 * pow10((a - 1) as nat));
        assert(n >= 10);
        assert(n / 10 >= pow10((a - 1) as nat)) by (nonlinear_arith)
            requires
                n >= 10 * pow10((a - 1) as nat),
        ;
        assert(n / 10 < pow10(a)) by (nonlinear_arith)
            requires
                n < 10 * pow10(a),
        ;
        lemma_digit_count_bounds(n / 10, (a - 1) as nat);
    }
}

/// The length of a normalized digit vector is the digit count of its value.
pub proof fn lemma_digit_count_of_digits(s: Seq<u8>)
    requires
        digits_wf(s),
        s.len() >= 1,
        s.last() != 0,
    ensures
        digit_count(digits_val(s)) == s.len(),
{
    lemma_digits_val_bound(s);
    lemma_digits_val_lower(s);
    lemma_digit_count_bounds(digits_val(s), (s.len() - 1) as nat);
}

/// The decimal digit string of a normalized digit vector is its digits in
/// reverse order.
pub proof fn lemma_dec_seq_digits(s: Seq<u8>)
    requires
        digits_wf(s),
        s.len() >= 1,
        s.last() != 0,
    ensures
        dec_seq(digits_val(s)) == Seq::new(s.len(), |i: int| digit_to_char(s[s.len() - 1 - i] as int)),
    decreases s.len(),
{
    let n = digits_val(s);
    if s.len() == 1 {
        assert(s.skip(1) =~= Seq::<u8>::empty());
        assert(n == s[0]);
        assert(dec_seq(n) =~= Seq::new(s.len(), |i: int| digit_to_char(s[s.len() - 1 - i] as int)));
    } else {
        lemma_dec_seq_digits(s.skip(1));
        lemma_digits_val_lower(s.skip(1));
        lemma_pow10_pos((s.len() - 2) as nat);
        assert(n == s[0] + 10 * digits_val(s.skip(1)));
        assert(digits_val(s.skip(1)) >= 1);
        assert(n >= 10) by (nonlinear_arith)
            requires
                n == s[0] + 10 * digits_val(s.skip(1)),
                digits_val(s.skip(1)) >= 1,
        ;
        lemma_fundamental_div_mod_converse(
            n as int,
            10,
            digits_val(s.skip(1)) as int,
            s[0] as int,
        );
        assert(n / 10 == digits_val(s.skip(1)));
        assert(n % 10 == s[0]);
        assert(dec_seq(n) == dec_seq(digits_val(s.skip(1))).push(digit_to_char(s[0] as int)));
        assert(dec_seq(n) =~= Seq::new(s.len(), |i: int| digit_to_char(s[s.len() - 1 - i] as int)))
            by {
            assert(forall|i: int|
                0 <= i < s.len() - 1 ==> dec_seq(digits_val(s.skip(1)))[i] == digit_to_char(
                    s.skip(1)[s.len() - 2 - i] as int,
                ));
            assert(forall|i: int|
                0 <= i < s.len() - 1 ==> #[trigger] s.skip(1)[s.len() - 2 - i] == s[s.len() - 1
                    - i]);
        }
    }
}

/// One pass of schoolbook arithmetic over a digit vector: the result
/// stands for `c` times the input plus `a0`.
fn scale_add_digits(d: &Vec<u8>, c: u8, a0: u8) -> (r: Vec<u8>)
    requires
        digits_wf(d@),
        d@.len() >= 1,
        d@.last() != 0,
        1 <= c <= 5,
        a0 <= 1,
    ensures
        digits_wf(r@),
        digits_val(r@) == c * digits_val(d@) + a0,
        r@.len() >= 1,
        r@.last() != 0,
        d@.len() <= r@.len() <= d@.len() + 1,
{
    let n = d.len();
    let mut r: Vec<u8> = Vec::new();
    let mut carry: u8 = a0;
    let mut i: usize = 0;
    proof {
        assert(d@.take(0) =~= Seq::<u8>::empty());
        assert(digits_val(Seq::<u8>::empty()) == 0);
        assert((carry as nat) * pow10(0) == carry as nat) by (nonlinear_arith)
            requires
                pow10(0) == 1,
        ;
        assert(c * digits_val(d@.take(0)) + a0 == a0) by (nonlinear_arith)
            requires
                digits_val(d@.take(0)) == 0,
        ;
    }
    while i < n
        invariant
            i <= n,
            n == d@.len(),
            digits_wf(d@),
            1 <= c <= 5,
            a0 <= 1,
            digits_wf(r@),
            r@.len() == i,
            carry <= 5,
            digits_val(r@) + (carry as nat) * pow10(i as nat) == c * digits_val(d@.take(i as int))
                + a0,
        decreases n - i,
    {
        assert(d@[i as int] < 10);
        assert(d@[i as int] * c + carry <= 50) by (nonlinear_arith)
            requires
                d@[i as int] < 10,
                c <= 5,
                carry <= 5,
        ;
        let t = d[i] * c + carry;
        let dig = t % 10;
        let newcarry = t / 10;
        let ghost rv = r@;
        r.push(dig);
        proof {
            lemma_digits_val_push(rv, dig);
            assert(d@.take(i + 1) =~= d@.take(i as int).push(d@[i as int]));
            lemma_digits_val_push(d@.take(i as int), d@[i as int]);
            assert(pow10((i + 1) as nat) == 10 * pow10(i as nat));
            assert(digits_val(rv) + dig * pow10(i as nat) + (newcarry as nat) * (10 * pow10(
                i as nat,
            )) == c * (digits_val(d@.take(i as int)) + d@[i as int] * pow10(i as nat)) + a0)
                by (nonlinear_arith)
                requires
                    digits_val(rv) + (carry as nat) * pow10(i as nat) == c * digits_val(
                        d@.take(i as int),
                    ) + a0,
                    t == d@[i as int] * c + carry,
                    dig == t % 10,
                    newcarry == t / 10,
                    t < 256,
            ;
            assert(newcarry <= 5) by (nonlinear_arith)
                requires
                    newcarry == t / 10,
                    t <= 9 * 5 + 5,
            ;
        }
        carry = newcarry;
        i = i + 1;
    }
    proof {
        assert(d@.take(n as int) =~= d@);
    }
    if carry > 0 {
        let ghost rv = r@;
        r.push(carry);
        proof {
            lemma_digits_val_push(rv, carry);
        }
        r
    } else {
        proof {
            assert((0 as nat) * pow10(n as nat) == 0) by (nonlinear_arith);
            assert(digits_val(r@) == c * digits_val(d@) + a0);
            lemma_digits_val_lower(d@);
            if r@.last() == 0 {
                assert(r@ =~= r@.drop_last().push(0));
                lemma_digits_val_push(r@.drop_last(), 0);
                assert(digits_wf(r@.drop_last()));
                lemma_digits_val_bound(r@.drop_last());
                assert((0 as u8) * pow10((n - 1) as nat) == 0) by (nonlinear_arith);
                assert(digits_val(r@) < pow10((n - 1) as nat));
                assert(c * digits_val(d@) + a0 >= pow10((n - 1) as nat)) by (nonlinear_arith)
                    requires
                        digits_val(d@) >= pow10((n - 1) as nat),
                        c >= 1,
                        a0 >= 0,
                ;
                assert(false);
            }
        }
        r
    }
}

/// The little-endian decimal digits of a positive machine integer.
fn digits_of_u64(m: u64) -> (r: Vec<u8>)
    requires
        m >= 1,
    ensures
        digits_wf(r@),
        digits_val(r@) == m,
        1 <= r@.len() <= 20,
        r@.last() != 0,
{
    let mut r: Vec<u8> = Vec::new();
    let mut x = m;
    proof {
        assert((m as nat) * pow10(0) == m as nat) by (nonlinear_arith)
            requires
                pow10(0) == 1,
        ;
    }
    while x > 0
        invariant
            digits_wf(r@),
            digits_val(r@) + (x as nat) * pow10(r@.len()) == m,
            x > 0 || r@.len() == 0 || r@.last() != 0,
            r@.len() <= 20,
        decreases x,
    {
        let dig = (x % 10) as u8;
        let newx = x / 10;
        let ghost rv = r@;
        proof {
            lemma_digits_val_push(rv, dig);
            assert(pow10(rv.len() + 1) == 10 * pow10(rv.len()));
            assert(digits_val(rv) + dig * pow10(rv.len()) + (newx as nat) * (10 * pow10(rv.len()))
                == m) by (nonlinear_arith)
                requires
                    digits_val(rv) + (x as nat) * pow10(rv.len()) == m,
                    dig == x % 10,
                    newx == x / 10,
                    x >= 1,
            ;
            if rv.len() >= 20 {
                lemma_digits_val_bound(rv);
                lemma_pow10_20_big();
                lemma_pow10_increases(20, rv.len());
                assert((x as nat) * pow10(rv.len()) >= pow10(rv.len())) by (nonlinear_arith)
                    requires
                        x >= 1,
                ;
                assert(false);
            }
        }
        r.push(dig);
        x = newx;
    }
    proof {
        assert((0 as nat) * pow10(r@.len()) == 0) by (nonlinear_arith);
        assert(digits_val(r@) == m);
        if r@.len() == 0 {
            assert(digits_val(r@) == 0);
            assert(false);
        }
    }
    r
}

/// Shift a digit vector `pad` places up by prepending that many zero
/// digits: the value is scaled by `pow10(pad)`.
fn pad_low_zeros(d: &Vec<u8>, pad: usize) -> (r: Vec<u8>)
    requires
        digits_wf(d@),
        d@.len() >= 1,
        d@.last() != 0,
    ensures
        digits_wf(r@),
        r@.len() == d@.len() + pad,
        digits_val(r@) == pow10(pad as nat) * digits_val(d@),
        r@.last() != 0,
{
    let mut r: Vec<u8> = Vec::new();
    let mut i: usize = 0;
    while i < pad
        invariant
            i <= pad,
            r@.len() == i,
            digits_wf(r@),
            digits_val(r@) == 0,
        decreases pad - i,
    {
        let ghost rv = r@;
        r.push(0);
        proof {
            lemma_digits_val_push(rv, 0);
            assert((0 as u8) * pow10(rv.len()) == 0) by (nonlinear_arith);
        }
        i = i + 1;
    }
    let n = d.len();
    let mut j: usize = 0;
    proof {
        assert(d@.take(0) =~= Seq::<u8>::empty());
        assert(pow10(pad as nat) * 0 == 0) by (nonlinear_arith);
    }
    while j < n
        invariant
            j <= n,
            n == d@.len(),
            digits_wf(d@),
            digits_wf(r@),
            r@.len() == pad + j,
            digits_val(r@) == pow10(pad as nat) * digits_val(d@.take(j as int)),
            forall|t: int| pad <= t < r@.len() ==> r@[t] == d@[t - pad],
        decreases n - j,
    {
        let ghost rv = r@;
        r.push(d[j]);
        proof {
            lemma_digits_val_push(rv, d@[j as int]);
            assert(d@.take(j + 1) =~= d@.take(j as int).push(d@[j as int]));
            lemma_digits_val_push(d@.take(j as int), d@[j as int]);
            lemma_pow10_adds(pad as nat, j as nat);
            assert({
                let dj = d@[j as int];
                let pp = pow10(pad as nat);
                let pj = pow10(j as nat);
                let v = digits_val(d@.take(j as int));
                pp * v + dj * (pp * pj) == pp * (v + dj * pj)
            }) by (nonlinear_arith);
        }
        j = j + 1;
    }
    proof {
        assert(d@.take(n as int) =~= d@);
        assert(r@.last() == d@.last());
    }
    r
}

/// Copy the digits above position `cut`.
fn skip_digits(d: &Vec<u8>, cut: usize) -> (r: Vec<u8>)
    requires
        cut <= d@.len(),
    ensures
        r@ == d@.skip(cut as int),
{
    let n = d.len();
    let mut r: Vec<u8> = Vec::new();
    let mut j = cut;
    while j < n
        invariant
            cut <= j <= n,
            n == d@.len(),
            r@ =~= d@.subrange(cut as int, j as int),
        decreases n - j,
    {
        r.push(d[j]);
        j = j + 1;
    }
    proof {
        assert(d@.subrange(cut as int, n as int) =~= d@.skip(cut as int));
    }
    r
}

/// Whether any digit strictly below `upto` is nonzero.
fn any_nonzero(d: &Vec<u8>, upto: usize) -> (r: bool)
    requires
        upto <= d@.len(),
    ensures
        r == exists|j: int| 0 <= j < upto && d@[j] != 0,
{
    let mut found = false;
    let mut j: usize = 0;
    while j < upto
        invariant
            j <= upto,
            upto <= d@.len(),
            found == exists|t: int| 0 <= t < j && d@[t] != 0,
        decreases upto - j,
    {
        if d[j] != 0 {
            found = true;
        }
        j = j + 1;
    }
    found
}


// ---------------------------------------------------------------------------
// Scientific form of a binary floating-point value, by exact arithmetic
// ---------------------------------------------------------------------------

/// How many decimal places the value `m * 2^e2` is shifted right of the
/// integer `sci_m(m, e2)`.
pub open spec fn sci_shift(e2: int) -> nat {
    if e2 >= 0 {
        0
    } else {
        (-e2) as nat
    }
}

/// The integer whose decimal digits are exactly the decimal digits of
/// `m * 2^e2`: scaling by `5^-e2` turns the binary fraction into a decimal
/// one, shifted by `sci_shift(e2)` places.
pub open spec fn sci_m(m: nat, e2: int) -> nat {
    if e2 >= 0 {
        m * pow2(e2 as nat)
    } else {
        m * pow5((-e2) as nat)
    }
}

/// Whether cutting `mm` to `p + 1` significant digits rounds up: the cut
/// tail is over half a unit, or exactly half and the kept part is odd.
pub open spec fn sci_round_up(mm: nat, p: nat) -> bool {
    let l = digit_count(mm);
    if l <= p + 1 {
        false
    } else {
        let cut = (l - (p + 1)) as nat;
        let q0 = mm / pow10(cut);
        let r = mm % pow10(cut);
        let half = 5 * pow10((cut - 1) as nat);
        r > half || (r == half && q0 % 2 == 1)
    }
}

/// `mm` brought to exactly `p + 1` significant digits, rounding to
/// nearest with ties to even; may be `pow10(p + 1)` when rounding carries
/// all the way up.
pub open spec fn sci_q0(mm: nat, p: nat) -> nat {
    let l = digit_count(mm);
    if l <= p + 1 {
        mm * pow10((p + 1 - l) as nat)
    } else {
        let cut = (l - (p + 1)) as nat;
        if sci_round_up(mm, p) {
            mm / pow10(cut) + 1
        } else {
            mm / pow10(cut)
        }
    }
}

/// The displayed `p + 1` significant digits: a full carry renormalizes to
/// a leading one.
pub open spec fn sci_q(mm: nat, p: nat) -> nat {
    if sci_q0(mm, p) == pow10(p + 1) {
        pow10(p)
    } else {
        sci_q0(mm, p)
    }
}

/// The displayed decimal exponent.
pub open spec fn sci_k(mm: nat, p: nat, shift: nat) -> int {
    if sci_q0(mm, p) == pow10(p + 1) {
        digit_count(mm) - shift
    } else {
        digit_count(mm) - 1 - shift
    }
}

/// Compute the `p + 1` rounded significant digits and decimal exponent of
/// `m * 2^e2` exactly, on decimal digit vectors.
fn sci_digits(m: u64, e2: i32, p: usize) -> (res: (Vec<u8>, i64))
    requires
        1 <= m < 0x20000000000000,
        -1074 <= e2 <= 971,
        1 <= p <= 10,
    ensures
        digits_wf(res.0@),
        res.0@.len() == p + 1,
        res.0@.last() != 0,
        digits_val(res.0@) == sci_q(sci_m(m as nat, e2 as int), p as nat),
        res.1 == sci_k(sci_m(m as nat, e2 as int), p as nat, sci_shift(e2 as int)),
        -1100 <= res.1 <= 1200,
{
    let ghost mm = sci_m(m as nat, e2 as int);
    let mut d = digits_of_u64(m);
    if e2 >= 0 {
        let mut i: i32 = 0;
        proof {
            vstd::arithmetic::power2::lemma2_to64();
            assert((m as nat) * pow2(0) == m) by (nonlinear_arith)
                requires
                    pow2(0) == 1,
            ;
        }
        while i < e2
            invariant
                0 <= i <= e2,
                e2 <= 971,
                digits_wf(d@),
                d@.len() >= 1,
                d@.last() != 0,
                digits_val(d@) == (m as nat) * pow2(i as nat),
                d@.len() <= 20 + i,
            decreases e2 - i,
        {
            d = scale_add_digits(&d, 2, 0);
            proof {
                vstd::arithmetic::power2::lemma_pow2_adds(i as nat, 1);
                vstd::arithmetic::power2::lemma2_to64();
                assert(pow2((i + 1) as nat) == pow2(i as nat) * 2);
                assert(2 * ((m as nat) * pow2(i as nat)) + 0 == (m as nat) * (pow2(i as nat) * 2))
                    by (nonlinear_arith);
            }
            i = i + 1;
        }
        proof {
            assert(digits_val(d@) == mm);
        }
    } else {
        let steps: i32 = -e2;
        let mut i: i32 = 0;
        proof {
            assert((m as nat) * pow5(0) == m) by (nonlinear_arith)
                requires
                    pow5(0) == 1,
            ;
        }
        while i < steps
            invariant
                0 <= i <= steps,
                steps <= 1074,
                digits_wf(d@),
                d@.len() >= 1,
                d@.last() != 0,
                digits_val(d@) == (m as nat) * pow5(i as nat),
                d@.len() <= 20 + i,
            decreases steps - i,
        {
            d = scale_add_digits(&d, 5, 0);
            proof {
                assert(pow5((i + 1) as nat) == 5 * pow5(i as nat));
                assert(5 * ((m as nat) * pow5(i as nat)) + 0 == (m as nat) * (5 * pow5(i as nat)))
                    by (nonlinear_arith);
            }
            i = i + 1;
        }
        proof {
            assert(digits_val(d@) == mm);
        }
    }
    proof {
        lemma_digit_count_of_digits(d@);
    }
    let len = d.len();
    let shift: i64 = if e2 < 0 {
        (-e2) as i64
    } else {
        0
    };
    proof {
        assert(shift as nat == sci_shift(e2 as int));
        assert(len <= 1094);
    }
    if len <= p {
        let q = pad_low_zeros(&d, p + 1 - len);
        proof {
            lemma_digits_val_bound(d@);
            lemma_pow10_adds((p + 1 - len) as nat, len as nat);
            lemma_pow10_pos((p + 1 - len) as nat);
            assert(pow10((p + 1 - len) as nat) * mm < pow10((p + 1) as nat)) by (nonlinear_arith)
                requires
                    mm < pow10(len as nat),
                    pow10((p + 1 - len) as nat) * pow10(len as nat) == pow10((p + 1) as nat),
                    pow10((p + 1 - len) as nat) >= 1,
            ;
            assert(digits_val(q@) == sci_q0(mm, p as nat)) by (nonlinear_arith)
                requires
                    digits_val(q@) == pow10((p + 1 - len) as nat) * mm,
                    sci_q0(mm, p as nat) == mm * pow10((p + 1 - len) as nat),
            ;
        }
        (q, len as i64 - 1 - shift)
    } else if len == p + 1 {
        proof {
            lemma_digits_val_bound(d@);
            assert(mm * pow10(0) == mm) by (nonlinear_arith)
                requires
                    pow10(0) == 1,
            ;
        }
        (d, len as i64 - 1 - shift)
    } else {
        let cut = len - (p + 1);
        let ghost pcut = pow10(cut as nat);
        let hd = d[cut - 1];
        let low = any_nonzero(&d, cut - 1);
        let q = skip_digits(&d, cut);
        proof {
            assert(digits_wf(d@.take(cut as int))) by {
                assert(forall|i: int|
                    0 <= i < cut ==> #[trigger] d@.take(cut as int)[i] == d@[i]);
            }
            assert(digits_wf(q@)) by {
                assert(forall|i: int| 0 <= i < q@.len() ==> #[trigger] q@[i] == d@[i + cut]);
            }
            assert(q@.last() == d@.last());
            lemma_digits_val_split(d@, cut as int);
            lemma_digits_val_bound(d@.take(cut as int));
            lemma_pow10_pos(cut as nat);
            assert(mm == digits_val(d@.take(cut as int)) + pcut * digits_val(q@));
            assert(pcut * digits_val(q@) == digits_val(q@) * pcut) by (nonlinear_arith);
            lemma_fundamental_div_mod_converse(
                mm as int,
                pcut as int,
                digits_val(q@) as int,
                digits_val(d@.take(cut as int)) as int,
            );
            assert(mm / pcut == digits_val(q@));
            assert(mm % pcut == digits_val(d@.take(cut as int)));
        }
        let ghost rr = digits_val(d@.take(cut as int));
        let ghost lowv = digits_val(d@.take((cut - 1) as int));
        let ghost half = 5 * pow10((cut - 1) as nat);
        proof {
            assert(digits_wf(d@.take((cut - 1) as int))) by {
                assert(forall|i: int|
                    0 <= i < cut - 1 ==> #[trigger] d@.take((cut - 1) as int)[i] == d@[i]);
            }
            lemma_digits_val_split(d@.take(cut as int), (cut - 1) as int);
            assert(d@.take(cut as int).take((cut - 1) as int) =~= d@.take((cut - 1) as int));
            assert(d@.take(cut as int).skip((cut - 1) as int) =~= seq![d@[cut - 1]]);
            assert(digits_val(seq![d@[cut - 1]]) == d@[cut - 1]) by {
                assert(seq![d@[cut - 1]].skip(1) =~= Seq::<u8>::empty());
                assert(digits_val(Seq::<u8>::empty()) == 0);
            }
            assert(digits_val(d@.take(cut as int).take((cut - 1) as int)) == lowv);
            assert(digits_val(d@.take(cut as int).skip((cut - 1) as int)) == hd as nat);
            assert(pow10((cut - 1) as nat) * digits_val(
                d@.take(cut as int).skip((cut - 1) as int),
            ) == pow10((cut - 1) as nat) * (hd as nat));
            assert(rr == lowv + pow10((cut - 1) as nat) * (hd as nat));
            lemma_digits_val_bound(d@.take((cut - 1) as int));
            lemma_digits_zero_iff(d@.take((cut - 1) as int));
            if lowv == 0 {
                assert(forall|j: int| 0 <= j < cut - 1 ==> #[trigger] d@[j] == 0) by {
                    assert(forall|j: int|
                        0 <= j < cut - 1 ==> #[trigger] d@[j] == d@.take((cut - 1) as int)[j]);
                }
                assert(!low);
            } else {
                if !low {
                    assert(forall|i: int|
                        0 <= i < cut - 1 ==> #[trigger] d@.take((cut - 1) as int)[i] == 0) by {
                        assert(forall|i: int|
                            0 <= i < cut - 1 ==> #[trigger] d@.take((cut - 1) as int)[i] == d@[i]);
                    }
                    assert(lowv == 0);
                    assert(false);
                }
            }
            assert(low == (lowv != 0));
            lemma_pow10_pos((cut - 1) as nat);
        }
        let up = hd > 5 || (hd == 5 && low) || (hd == 5 && !low && q[0] % 2 == 1);
        proof {
            let pc1 = pow10((cut - 1) as nat);
            if hd > 5 {
                assert(rr > half) by (nonlinear_arith)
                    requires
                        rr == lowv + pc1 * (hd as nat),
                        half == 5 * pc1,
                        hd >= 6,
                        lowv >= 0,
                        pc1 >= 1,
                ;
            } else if hd == 5 {
                assert(rr == half + lowv) by (nonlinear_arith)
                    requires
                        rr == lowv + pc1 * (hd as nat),
                        half == 5 * pc1,
                        hd == 5,
                ;
            } else {
                assert(rr < half) by (nonlinear_arith)
                    requires
                        rr == lowv + pc1 * (hd as nat),
                        half == 5 * pc1,
                        hd <= 4,
                        lowv < pc1,
                ;
            }
            assert(q@[0] == d@[cut as int]);
            assert(digits_val(q@) == q@[0] + 10 * digits_val(q@.skip(1)));
            assert(digits_val(q@) % 2 == q@[0] % 2) by (nonlinear_arith)
                requires
                    digits_val(q@) == q@[0] + 10 * digits_val(q@.skip(1)),
            ;
            assert(up == sci_round_up(mm, p as nat));
        }
        proof {
            lemma_digits_val_bound(q@);
            lemma_digits_val_lower(q@);
        }
        if up {
            let q2 = scale_add_digits(&q, 1, 1);
            proof {
                assert(digits_val(q2@) == 1 * digits_val(q@) + 1);
                assert(1 * digits_val(q@) == digits_val(q@)) by (nonlinear_arith);
                assert(digits_val(q2@) == sci_q0(mm, p as nat));
            }
            if q2.len() == p + 2 {
                proof {
                    lemma_digits_val_lower(q2@);
                    assert(digits_val(q2@) >= pow10((p + 1) as nat));
                    assert(digits_val(q2@) <= pow10((p + 1) as nat));
                    assert(sci_q0(mm, p as nat) == pow10((p + 1) as nat));
                }
                let mut one: Vec<u8> = Vec::new();
                one.push(1);
                proof {
                    assert(one@.skip(1) =~= Seq::<u8>::empty());
                    assert(digits_val(Seq::<u8>::empty()) == 0);
                    assert(digits_val(one@) == 1);
                }
                let qq = pad_low_zeros(&one, p);
                proof {
                    assert(pow10(p as nat) * 1 == pow10(p as nat)) by (nonlinear_arith);
                }
                (qq, len as i64 - shift)
            } else {
                proof {
                    lemma_digits_val_bound(q2@);
                    assert(digits_val(q2@) < pow10((p + 1) as nat));
                }
                (q2, len as i64 - 1 - shift)
            }
        } else {
            proof {
                assert(digits_val(q@) < pow10((p + 1) as nat));
                assert(sci_q0(mm, p as nat) == digits_val(q@));
            }
            (q, len as i64 - 1 - shift)
        }
    }
}

/// The mantissa part of the scientific form: first significant digit, a
/// decimal point, then the remaining `p` digits.
fn mantissa_string(q: &Vec<u8>, p: usize) -> (r: String)
    requires
        digits_wf(q@),
        q@.len() == p + 1,
        q@.last() != 0,
        p >= 1,
    ensures
        r@ == dec_seq(digits_val(q@)).take(1) + seq!['.'] + dec_seq(digits_val(q@)).skip(1),
{
    let ghost ds = dec_seq(digits_val(q@));
    proof {
        lemma_dec_seq_digits(q@);
        reveal_strlit(".");
    }
    let mut s = digit_str(q[p]).to_owned();
    s.append(".");
    proof {
        assert(s@ =~= ds.take(1) + seq!['.'] + ds.subrange(1, 1));
    }
    let mut t = p;
    while t > 0
        invariant
            digits_wf(q@),
            q@.len() == p + 1,
            t <= p,
            ds == dec_seq(digits_val(q@)),
            ds == Seq::new((p + 1) as nat, |i: int| digit_to_char(q@[p - i] as int)),
            s@ == ds.take(1) + seq!['.'] + ds.subrange(1, (1 + (p - t)) as int),
        decreases t,
    {
        s.append(digit_str(q[t - 1]));
        proof {
            assert(ds[(1 + (p - t)) as int] == digit_to_char(q@[t - 1] as int));
            assert(s@ =~= ds.take(1) + seq!['.'] + ds.subrange(1, (1 + (p - t) + 1) as int));
        }
        t = t - 1;
    }
    proof {
        assert(ds.subrange(1, (p + 1) as int) =~= ds.skip(1));
    }
    s
}

/// The superscript rendering of an exponent: plain digits raised, with a
/// raised minus for negative exponents.
pub open spec fn spec_superscript(k: int) -> Seq<char> {
    if k == 0 {
        seq!['⁰']
    } else if k < 0 {
        seq!['⁻'] + sup_seq((-k) as nat)
    } else {
        sup_seq(k as nat)
    }
}

/// Render an exponent with superscript digit glyphs.
pub fn to_superscript(exp: i32) -> (r: String)
    requires
        exp > i32::MIN,
    ensures
        r@ == spec_superscript(exp as int),
{
    proof {
        reveal_strlit("⁰");
        reveal_strlit("⁻");
    }
    if exp == 0 {
        let r = "⁰".to_owned();
        proof {
            assert(r@ =~= spec_superscript(0));
        }
        r
    } else if exp < 0 {
        let mut s = "⁻".to_owned();
        let mag = u64_sup((-exp) as u64);
        s.append(mag.as_str());
        proof {
            assert(s@ =~= spec_superscript(exp as int));
        }
        s
    } else {
        u64_sup(exp as u64)
    }
}

// ---------------------------------------------------------------------------
// Formatting one element
// ---------------------------------------------------------------------------

pub open spec fn float_frac_bits(dt: DataType) -> nat {
    if dt == DataType::F32 {
        23
    } else {
        52
    }
}

pub open spec fn float_exp_bits(dt: DataType) -> nat {
    if dt == DataType::F32 {
        8
    } else {
        11
    }
}

pub open spec fn float_bias(dt: DataType) -> int {
    if dt == DataType::F32 {
        127
    } else {
        1023
    }
}

/// How many fraction digits the scientific form shows.
pub open spec fn float_prec(dt: DataType) -> nat {
    if dt == DataType::F32 {
        5
    } else {
        10
    }
}

pub open spec fn float_sign(bits: nat, dt: DataType) -> bool {
    bits / pow2(float_frac_bits(dt) + float_exp_bits(dt)) % 2 == 1
}

pub open spec fn float_exp_field(bits: nat, dt: DataType) -> nat {
    bits / pow2(float_frac_bits(dt)) % pow2(float_exp_bits(dt))
}

pub open spec fn float_frac_field(bits: nat, dt: DataType) -> nat {
    bits % pow2(float_frac_bits(dt))
}

/// The scientific form of the positive value `m * 2^e2` with `p` fraction
/// digits: rounded mantissa, the times-ten sign, and a superscript
/// exponent.
pub open spec fn spec_sci_chars(m: nat, e2: int, p: nat) -> Seq<char> {
    let mm = sci_m(m, e2);
    let q = sci_q(mm, p);
    let k = sci_k(mm, p, sci_shift(e2));
    dec_seq(q).take(1) + seq!['.'] + dec_seq(q).skip(1) + seq!['×', '1', '0'] + spec_superscript(k)
}

/// The rendering of a floating-point bit pattern: `NAN` for any NaN, an
/// infinity sign with the value's sign, a signed zero, and otherwise the
/// exactly rounded scientific form.
pub open spec fn spec_format_float(bits: nat, dt: DataType) -> Seq<char> {
    let p = float_prec(dt);
    let ex = float_exp_field(bits, dt);
    let fr = float_frac_field(bits, dt);
    let sign_seq: Seq<char> = if float_sign(bits, dt) {
        seq!['-']
    } else {
        Seq::empty()
    };
    if ex == (pow2(float_exp_bits(dt)) - 1) as nat {
        if fr != 0 {
            seq!['N', 'A', 'N']
        } else {
            sign_seq + seq!['∞']
        }
    } else if ex == 0 && fr == 0 {
        sign_seq + seq!['0', '.'] + repeat_char('0', p) + seq!['×', '1', '0', '⁰']
    } else {
        let m = if ex == 0 {
            fr
        } else {
            (fr + pow2(float_frac_bits(dt))) as nat
        };
        let e2 = (if ex == 0 {
            1
        } else {
            ex as int
        }) - float_bias(dt) - float_frac_bits(dt);
        sign_seq + spec_sci_chars(m, e2, p)
    }
}

/// Render a floating-point bit pattern in the custom scientific notation.
pub fn format_scientific_unicode(bits: u64, dt: &DataType) -> (r: String)
    requires
        dt.spec_is_float(),
        bits < pow2(8 * dt.spec_byte_width()),
    ensures
        r@ == spec_format_float(bits as nat, *dt),
{
    proof {
        vstd::arithmetic::power2::lemma2_to64();
        vstd::arithmetic::power2::lemma2_to64_rest();
        reveal_strlit("NAN");
        reveal_strlit("∞");
        reveal_strlit("-∞");
        reveal_strlit("-");
        reveal_strlit("×10");
        reveal_strlit("⁰");
        reveal_strlit("0.");
        reveal_strlit("0");
    }
    let is32 = match dt {
        DataType::F32 => true,
        _ => false,
    };
    let fr: u64 = if is32 {
        bits % 0x80_0000
    } else {
        bits % 0x10_0000_0000_0000
    };
    let ex: u64 = if is32 {
        (bits / 0x80_0000) % 0x100
    } else {
        (bits / 0x10_0000_0000_0000) % 0x800
    };
    let sign: bool = if is32 {
        (bits / 0x8000_0000) % 2 == 1
    } else {
        (bits / 0x8000_0000_0000_0000) % 2 == 1
    };
    let emax: u64 = if is32 {
        0xFF
    } else {
        0x7FF
    };
    let prec: usize = if is32 {
        5
    } else {
        10
    };
    proof {
        assert(fr as nat == float_frac_field(bits as nat, *dt));
        assert(ex as nat == float_exp_field(bits as nat, *dt));
        assert(sign == float_sign(bits as nat, *dt));
        assert(emax as nat == (pow2(float_exp_bits(*dt)) - 1) as nat);
        assert(prec as nat == float_prec(*dt));
    }
    if ex == emax {
        if fr != 0 {
            let r = "NAN".to_owned();
            proof {
                assert(r@ =~= spec_format_float(bits as nat, *dt));
            }
            r
        } else if sign {
            let r = "-∞".to_owned();
            proof {
                assert(r@ =~= spec_format_float(bits as nat, *dt));
            }
            r
        } else {
            let r = "∞".to_owned();
            proof {
                assert(r@ =~= spec_format_float(bits as nat, *dt));
            }
            r
        }
    } else if ex == 0 && fr == 0 {
        let mut s = String::new();
        if sign {
            s.append("-");
        }
        s.append("0.");
        push_repeat(&mut s, "0", prec);
        s.append("×10");
        s.append("⁰");
        proof {
            assert(s@ =~= spec_format_float(bits as nat, *dt));
        }
        s
    } else {
        let m: u64 = if ex == 0 {
            fr
        } else if is32 {
            fr + 0x80_0000
        } else {
            fr + 0x10_0000_0000_0000
        };
        let e2: i32 = (if ex == 0 {
            1
        } else {
            ex as i32
        }) - (if is32 {
            127 + 23
        } else {
            1023 + 52
        });
        let (q, k) = sci_digits(m, e2, prec);
        let mut s = String::new();
        if sign {
            s.append("-");
        }
        let mant = mantissa_string(&q, prec);
        s.append(mant.as_str());
        s.append("×10");
        let sup = to_superscript(k as i32);
        s.append(sup.as_str());
        proof {
            assert(s@ =~= spec_format_float(bits as nat, *dt));
        }
        s
    }
}

/// What one element renders as: integers in the active base with their
/// subscript base mark, left-padded to the type's fixed width; floats in
/// the scientific form whatever the base.
pub open spec fn spec_format_element(bits: nat, dt: DataType, disp: DisplayType) -> Seq<char> {
    if dt.spec_is_float() {
        spec_format_float(bits, dt)
    } else {
        match disp {
            DisplayType::HexaDecimal => hex_pad_seq(bits, 2 * dt.spec_byte_width()) + seq![
                '₁',
                '₆',
            ],
            DisplayType::Decimal => {
                let w = dt.spec_display_width(DisplayType::Decimal);
                let body: Seq<char> = if dt.spec_is_signed() && bits >= pow2(
                    (8 * dt.spec_byte_width() - 1) as nat,
                ) {
                    seq!['-'] + dec_seq((pow2(8 * dt.spec_byte_width()) - bits) as nat)
                } else {
                    dec_seq(bits)
                };
                pad_spaces(body, w) + seq!['₁', '₀']
            },
        }
    }
}

/// Render one element's bit pattern per the active type and base.
pub fn format_element(bits: u64, dt: &DataType, disp: &DisplayType) -> (r: String)
    requires
        bits < pow2(8 * dt.spec_byte_width()),
    ensures
        r@ == spec_format_element(bits as nat, *dt, *disp),
{
    proof {
        vstd::arithmetic::power2::lemma2_to64();
        vstd::arithmetic::power2::lemma2_to64_rest();
        reveal_strlit("₁₀");
        reveal_strlit("₁₆");
        reveal_strlit("-");
    }
    let is_float = match dt {
        DataType::F32 => true,
        DataType::F64 => true,
        _ => false,
    };
    if is_float {
        return format_scientific_unicode(bits, dt);
    }
    let k = dt.byte_width();
    match disp {
        DisplayType::HexaDecimal => {
            let mut s = u64_hex_pad(bits, 2 * (k as u16));
            s.append("₁₆");
            proof {
                assert(s@ =~= spec_format_element(bits as nat, *dt, *disp));
            }
            s
        },
        DisplayType::Decimal => {
            let signed = match dt {
                DataType::I8 => true,
                DataType::I16 => true,
                DataType::I32 => true,
                DataType::I64 => true,
                _ => false,
            };
            let w = dt.display_width(disp);
            let thr: u64 = match k {
                1 => 0x80,
                2 => 0x8000,
                4 => 0x8000_0000,
                _ => 0x8000_0000_0000_0000,
            };
            proof {
                assert(thr as nat == pow2((8 * dt.spec_byte_width() - 1) as nat));
            }
            let body: String = if signed && bits >= thr {
                let mag: u64 = if k == 8 {
                    (0xFFFF_FFFF_FFFF_FFFF - bits) + 1
                } else {
                    let full: u64 = match k {
                        1 => 0x100,
                        2 => 0x1_0000,
                        _ => 0x1_0000_0000,
                    };
                    full - bits
                };
                proof {
                    assert(mag as nat == (pow2(8 * dt.spec_byte_width()) - bits) as nat);
                }
                let mut b = "-".to_owned();
                let digits = u64_dec(mag);
                b.append(digits.as_str());
                proof {
                    assert(b@ =~= seq!['-'] + dec_seq(mag as nat));
                }
                b
            } else {
                u64_dec(bits)
            };
            let r = pad_and_suffix(body, w, "₁₀");
            proof {
                assert(r@ =~= spec_format_element(bits as nat, *dt, *disp));
            }
            r
        },
    }
}


} // verus!
