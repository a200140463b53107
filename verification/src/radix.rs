//! Numerals used by the canonical identifier text form and byte layout:
//! decimal character strings, fixed-width lowercase hexadecimal character
//! strings, and fixed-width big- and little-endian byte strings, each with
//! both encoding directions proved inverse to one another.

use vstd::prelude::*;

verus! {

/// The character for a numeral digit value below sixteen, lowercase.
pub open spec fn digit_char(d: nat) -> char
    recommends
        d < 16,
{
    if d == 0 {
        '0'
    } else if d == 1 {
        '1'
    } else if d == 2 {
        '2'
    } else if d == 3 {
        '3'
    } else if d == 4 {
        '4'
    } else if d == 5 {
        '5'
    } else if d == 6 {
        '6'
    } else if d == 7 {
        '7'
    } else if d == 8 {
        '8'
    } else if d == 9 {
        '9'
    } else if d == 10 {
        'a'
    } else if d == 11 {
        'b'
    } else if d == 12 {
        'c'
    } else if d == 13 {
        'd'
    } else if d == 14 {
        'e'
    } else {
        'f'
    }
}

pub open spec fn is_dec_digit(c: char) -> bool {
    c == '0' || c == '1' || c == '2' || c == '3' || c == '4' || c == '5' || c == '6' || c == '7'
        || c == '8' || c == '9'
}

pub open spec fn dec_digit_val(c: char) -> nat
    recommends
        is_dec_digit(c),
{
    if c == '0' {
        0
    } else if c == '1' {
        1
    } else if c == '2' {
        2
    } else if c == '3' {
        3
    } else if c == '4' {
        4
    } else if c == '5' {
        5
    } else if c == '6' {
        6
    } else if c == '7' {
        7
    } else if c == '8' {
        8
    } else {
        9
    }
}

pub open spec fn is_hex_digit(c: char) -> bool {
    is_dec_digit(c) || c == 'a' || c == 'b' || c == 'c' || c == 'd' || c == 'e' || c == 'f'
}

pub open spec fn hex_digit_val(c: char) -> nat
    recommends
        is_hex_digit(c),
{
    if c == 'a' {
        10
    } else if c == 'b' {
        11
    } else if c == 'c' {
        12
    } else if c == 'd' {
        13
    } else if c == 'e' {
        14
    } else if c == 'f' {
        15
    } else {
        dec_digit_val(c)
    }
}

/// The decimal numeral of `n`, most significant digit first, no leading
/// zeros (`0` itself is the single character `0`).
pub open spec fn dec_chars(n: nat) -> Seq<char>
    decreases n,
{
    if n < 10 {
        seq![digit_char(n)]
    } else {
        dec_chars(n / 10) + seq![digit_char(n % 10)]
    }
}

/// The value of a decimal digit string, most significant digit first.
pub open spec fn dec_value(s: Seq<char>) -> nat
    decreases s.len(),
{
    if s.len() == 0 {
        0
    } else {
        dec_value(s.drop_last()) * 10 + dec_digit_val(s.last())
    }
}

pub open spec fn all_dec_digits(s: Seq<char>) -> bool {
    forall|i: int| 0 <= i < s.len() ==> is_dec_digit(s[i])
}

/// A decimal digit string exactly as the formatter writes it: non-empty,
/// digits only, and no leading zero unless it is the single digit `0`.
pub open spec fn canonical_dec(s: Seq<char>) -> bool {
    s.len() > 0 && all_dec_digits(s) && (s.len() == 1 || s[0] != '0')
}

/// The `k` low hexadecimal digits of `n`, most significant first,
/// zero-padded to exactly `k` characters, lowercase.
pub open spec fn hex_pad(n: nat, k: nat) -> Seq<char>
    decreases k,
{
    if k == 0 {
        Seq::empty()
    } else {
        hex_pad(n / 16, (k - 1) as nat) + seq![digit_char(n % 16)]
    }
}

pub open spec fn hex_value(s: Seq<char>) -> nat
    decreases s.len(),
{
    if s.len() == 0 {
        0
    } else {
        hex_value(s.drop_last()) * 16 + hex_digit_val(s.last())
    }
}

pub open spec fn all_hex_digits(s: Seq<char>) -> bool {
    forall|i: int| 0 <= i < s.len() ==> is_hex_digit(s[i])
}

pub open spec fn pow16(k: nat) -> nat
    decreases k,
{
    if k == 0 {
        1
    } else {
        16 * pow16((k - 1) as nat)
    }
}

/// The `k` low bytes of `n`, most significant byte first.
pub open spec fn be_bytes(n: nat, k: nat) -> Seq<u8>
    decreases k,
{
    if k == 0 {
        Seq::empty()
    } else {
        be_bytes(n / 256, (k - 1) as nat) + seq![(n % 256) as u8]
    }
}

pub open spec fn be_value(s: Seq<u8>) -> nat
    decreases s.len(),
{
    if s.len() == 0 {
        0
    } else {
        be_value(s.drop_last()) * 256 + s.last() as nat
    }
}

/// The `k` low bytes of `n`, least significant byte first.
pub open spec fn le_bytes(n: nat, k: nat) -> Seq<u8>
    decreases k,
{
    if k == 0 {
        Seq::empty()
    } else {
        seq![(n % 256) as u8] + le_bytes(n / 256, (k - 1) as nat)
    }
}

pub open spec fn le_value(s: Seq<u8>) -> nat
    decreases s.len(),
{
    if s.len() == 0 {
        0
    } else {
        s[0] as nat + 256 * le_value(s.drop_first())
    }
}

pub open spec fn pow256(k: nat) -> nat
    decreases k,
{
    if k == 0 {
        1
    } else {
        256 * pow256((k - 1) as nat)
    }
}

// ---------------------------------------------------------------------------
// Decimal numerals
// ---------------------------------------------------------------------------

/// The decimal numeral of any value is canonical.
pub proof fn lemma_dec_chars_canonical(n: nat)
    ensures
        canonical_dec(dec_chars(n)),
        n >= 10 ==> dec_chars(n).len() >= 2,
        n < 10 ==> dec_chars(n) == seq![digit_char(n)],
        n >= 1 ==> dec_chars(n)[0] != '0',
    decreases n,
{
    if n >= 10 {
        lemma_dec_chars_canonical(n / 10);
        let hi = dec_chars(n / 10);
        assert(dec_chars(n)[0] == hi[0]);
        assert forall|i: int| 0 <= i < dec_chars(n).len() implies is_dec_digit(dec_chars(n)[i]) by {
            if i < hi.len() {
                assert(dec_chars(n)[i] == hi[i]);
            }
        }
    }
}

/// Reading the decimal numeral of `n` back gives `n`.
pub proof fn lemma_dec_value_of_chars(n: nat)
    ensures
        dec_value(dec_chars(n)) == n,
    decreases n,
{
    if n < 10 {
        let s = dec_chars(n);
        assert(s.drop_last() =~= Seq::<char>::empty());
        assert(s.last() == digit_char(n));
        assert(dec_digit_val(digit_char(n)) == n);
        assert(dec_value(Seq::<char>::empty()) == 0);
        assert(dec_value(s) == n);
    } else {
        lemma_dec_value_of_chars(n / 10);
        let hi = dec_chars(n / 10);
        let s = dec_chars(n);
        assert(s.drop_last() =~= hi);
        assert(s.last() == digit_char(n % 10));
        assert(dec_digit_val(digit_char(n % 10)) == n % 10);
        assert(dec_value(s) == dec_value(hi) * 10 + (n % 10));
        assert(dec_value(s) == n);
    }
}

/// A digit string with a non-zero leading digit has a non-zero value.
proof fn lemma_dec_value_positive(s: Seq<char>)
    requires
        s.len() > 0,
        all_dec_digits(s),
        s[0] != '0',
    ensures
        dec_value(s) >= 1,
    decreases s.len(),
{
    if s.len() > 1 {
        assert(s.drop_last()[0] == s[0]);
        lemma_dec_value_positive(s.drop_last());
    }
}

/// Writing the value of a canonical decimal digit string gives back the
/// same string: the formatter and the parser agree digit for digit.
pub proof fn lemma_dec_chars_of_value(s: Seq<char>)
    requires
        canonical_dec(s),
    ensures
        dec_chars(dec_value(s)) == s,
    decreases s.len(),
{
    if s.len() == 1 {
        assert(s.drop_last() =~= Seq::<char>::empty());
        assert(dec_value(Seq::<char>::empty()) == 0);
        assert(dec_value(s) == dec_digit_val(s[0]));
        assert(dec_chars(dec_value(s)) =~= s);
    } else {
        let t = s.drop_last();
        assert(t[0] == s[0]);
        assert(all_dec_digits(t)) by {
            assert(forall|i: int| 0 <= i < t.len() ==> t[i] == s[i]);
        }
        lemma_dec_value_positive(t);
        lemma_dec_chars_of_value(t);
        let v = dec_value(t);
        let d = dec_digit_val(s.last());
        let n = dec_value(s);
        assert(n == v * 10 + d);
        assert(n >= 10);
        assert(n / 10 == v && n % 10 == d) by (nonlinear_arith)
            requires
                n == v * 10 + d,
                d < 10,
                v >= 1,
        ;
        assert(dec_chars(n) == dec_chars(v) + seq![digit_char(d)]);
        assert(digit_char(d) == s.last());
        assert(dec_chars(n) =~= s);
    }
}

/// A prefix of a digit string never has a larger value than the whole.
pub proof fn lemma_dec_value_prefix_le(s: Seq<char>, i: int)
    requires
        0 <= i <= s.len(),
    ensures
        dec_value(s.take(i)) <= dec_value(s),
    decreases s.len(),
{
    if i < s.len() {
        assert(s.drop_last().take(i) =~= s.take(i));
        lemma_dec_value_prefix_le(s.drop_last(), i);
        assert(dec_value(s) == dec_value(s.drop_last()) * 10 + dec_digit_val(s.last()));
        assert(dec_value(s.drop_last()) * 10 >= dec_value(s.drop_last())) by (nonlinear_arith);
    } else {
        assert(s.take(i) =~= s);
    }
}

// ---------------------------------------------------------------------------
// Fixed-width hexadecimal numerals
// ---------------------------------------------------------------------------

/// Shape of a padded hexadecimal numeral: `k` characters, all hex digits.
pub proof fn lemma_hex_pad_shape(n: nat, k: nat)
    ensures
        hex_pad(n, k).len() == k,
        all_hex_digits(hex_pad(n, k)),
    decreases k,
{
    if k > 0 {
        lemma_hex_pad_shape(n / 16, (k - 1) as nat);
        let hi = hex_pad(n / 16, (k - 1) as nat);
        assert forall|i: int| 0 <= i < hex_pad(n, k).len() implies is_hex_digit(hex_pad(n, k)[i]) by {
            if i < hi.len() {
                assert(hex_pad(n, k)[i] == hi[i]);
            }
        }
    }
}

/// Reading a padded hexadecimal numeral back gives the value, as long as
/// the value fits in the width.
pub proof fn lemma_hex_value_of_pad(n: nat, k: nat)
    requires
        n < pow16(k),
    ensures
        hex_value(hex_pad(n, k)) == n,
    decreases k,
{
    if k > 0 {
        assert(n / 16 < pow16((k - 1) as nat)) by (nonlinear_arith)
            requires
                n < 16 * pow16((k - 1) as nat),
        ;
        lemma_hex_value_of_pad(n / 16, (k - 1) as nat);
        let hi = hex_pad(n / 16, (k - 1) as nat);
        let s = hex_pad(n, k);
        assert(s.drop_last() =~= hi);
        assert(s.last() == digit_char(n % 16));
        assert(hex_digit_val(digit_char(n % 16)) == n % 16);
    }
}

/// Writing the value of a hex digit string at its own width gives back the
/// same string.
pub proof fn lemma_hex_pad_of_value(s: Seq<char>)
    requires
        all_hex_digits(s),
    ensures
        hex_pad(hex_value(s), s.len()) == s,
    decreases s.len(),
{
    if s.len() == 0 {
        assert(hex_pad(hex_value(s), 0) =~= s);
    } else {
        let t = s.drop_last();
        assert(all_hex_digits(t)) by {
            assert(forall|i: int| 0 <= i < t.len() ==> t[i] == s[i]);
        }
        lemma_hex_pad_of_value(t);
        let v = hex_value(t);
        let d = hex_digit_val(s.last());
        let n = hex_value(s);
        assert(n == v * 16 + d);
        assert(n / 16 == v && n % 16 == d) by (nonlinear_arith)
            requires
                n == v * 16 + d,
                d < 16,
        ;
        assert(hex_pad(n, s.len()) == hex_pad(v, (s.len() - 1) as nat) + seq![digit_char(d)]);
        assert(digit_char(d) == s.last());
        assert(hex_pad(n, s.len()) =~= s);
    }
}

/// A hex digit string's value fits in its width.
pub proof fn lemma_hex_value_bound(s: Seq<char>)
    ensures
        hex_value(s) < pow16(s.len()),
    decreases s.len(),
{
    if s.len() > 0 {
        lemma_hex_value_bound(s.drop_last());
        let v = hex_value(s.drop_last());
        assert(v * 16 + 15 < 16 * pow16((s.len() - 1) as nat)) by (nonlinear_arith)
            requires
                v < pow16((s.len() - 1) as nat),
        ;
    }
}

pub proof fn lemma_pow16_le(j: nat, k: nat)
    requires
        j <= k,
    ensures
        pow16(j) <= pow16(k),
    decreases k,
{
    if j < k {
        lemma_pow16_le(j, (k - 1) as nat);
        assert(pow16(k) == 16 * pow16((k - 1) as nat));
        assert(pow16((k - 1) as nat) <= 16 * pow16((k - 1) as nat)) by (nonlinear_arith)
            requires
                pow16((k - 1) as nat) >= 0,
        ;
    }
}

pub proof fn lemma_pow16_12()
    ensures
        pow16(12) == 0x1000000000000,
{
    reveal_with_fuel(pow16, 13);
}

// ---------------------------------------------------------------------------
// Fixed-width byte strings, big endian
// ---------------------------------------------------------------------------

pub proof fn lemma_be_bytes_len(n: nat, k: nat)
    ensures
        be_bytes(n, k).len() == k,
    decreases k,
{
    if k > 0 {
        lemma_be_bytes_len(n / 256, (k - 1) as nat);
    }
}

pub proof fn lemma_be_value_of_bytes(n: nat, k: nat)
    requires
        n < pow256(k),
    ensures
        be_value(be_bytes(n, k)) == n,
    decreases k,
{
    if k > 0 {
        assert(n / 256 < pow256((k - 1) as nat)) by (nonlinear_arith)
            requires
                n < 256 * pow256((k - 1) as nat),
        ;
        lemma_be_value_of_bytes(n / 256, (k - 1) as nat);
        let s = be_bytes(n, k);
        assert(s.drop_last() =~= be_bytes(n / 256, (k - 1) as nat));
        assert(s.last() == (n % 256) as u8);
    }
}

pub proof fn lemma_be_bytes_of_value(s: Seq<u8>)
    ensures
        be_bytes(be_value(s), s.len()) == s,
    decreases s.len(),
{
    if s.len() == 0 {
        assert(be_bytes(be_value(s), 0) =~= s);
    } else {
        let t = s.drop_last();
        lemma_be_bytes_of_value(t);
        let v = be_value(t);
        let d = s.last() as nat;
        let n = be_value(s);
        assert(n == v * 256 + d);
        assert(n / 256 == v && n % 256 == d) by (nonlinear_arith)
            requires
                n == v * 256 + d,
                d < 256,
        ;
        assert(be_bytes(n, s.len()) == be_bytes(v, (s.len() - 1) as nat) + seq![(n % 256) as u8]);
        assert(be_bytes(n, s.len()) =~= s);
    }
}

pub proof fn lemma_be_value_bound(s: Seq<u8>)
    ensures
        be_value(s) < pow256(s.len()),
    decreases s.len(),
{
    if s.len() > 0 {
        lemma_be_value_bound(s.drop_last());
        let v = be_value(s.drop_last());
        assert(v * 256 + 255 < 256 * pow256((s.len() - 1) as nat)) by (nonlinear_arith)
            requires
                v < pow256((s.len() - 1) as nat),
        ;
    }
}

// ---------------------------------------------------------------------------
// Fixed-width byte strings, little endian
// ---------------------------------------------------------------------------

pub proof fn lemma_le_bytes_len(n: nat, k: nat)
    ensures
        le_bytes(n, k).len() == k,
    decreases k,
{
    if k > 0 {
        lemma_le_bytes_len(n / 256, (k - 1) as nat);
    }
}

pub proof fn lemma_le_value_of_bytes(n: nat, k: nat)
    requires
        n < pow256(k),
    ensures
        le_value(le_bytes(n, k)) == n,
    decreases k,
{
    if k > 0 {
        assert(n / 256 < pow256((k - 1) as nat)) by (nonlinear_arith)
            requires
                n < 256 * pow256((k - 1) as nat),
        ;
        lemma_le_value_of_bytes(n / 256, (k - 1) as nat);
        let s = le_bytes(n, k);
        assert(s.drop_first() =~= le_bytes(n / 256, (k - 1) as nat));
        assert(s[0] == (n % 256) as u8);
    }
}

pub proof fn lemma_le_bytes_of_value(s: Seq<u8>)
    ensures
        le_bytes(le_value(s), s.len()) == s,
    decreases s.len(),
{
    if s.len() == 0 {
        assert(le_bytes(le_value(s), 0) =~= s);
    } else {
        let t = s.drop_first();
        lemma_le_bytes_of_value(t);
        let v = le_value(t);
        let d = s[0] as nat;
        let n = le_value(s);
        assert(n == d + 256 * v);
        assert(n / 256 == v && n % 256 == d) by (nonlinear_arith)
            requires
                n == d + 256 * v,
                d < 256,
        ;
        assert(le_bytes(n, s.len()) == seq![(n % 256) as u8] + le_bytes(v, (s.len() - 1) as nat));
        assert(le_bytes(n, s.len()) =~= s);
    }
}

pub proof fn lemma_le_value_bound(s: Seq<u8>)
    ensures
        le_value(s) < pow256(s.len()),
    decreases s.len(),
{
    if s.len() > 0 {
        lemma_le_value_bound(s.drop_first());
        let v = le_value(s.drop_first());
        assert(s[0] + 256 * v < 256 * pow256((s.len() - 1) as nat)) by (nonlinear_arith)
            requires
                v < pow256((s.len() - 1) as nat),
                s[0] < 256,
        ;
    }
}

pub proof fn lemma_pow256_4()
    ensures
        pow256(4) == 0x100000000,
{
    reveal_with_fuel(pow256, 5);
}

pub proof fn lemma_pow256_6()
    ensures
        pow256(6) == 0x1000000000000,
{
    reveal_with_fuel(pow256, 7);
}

} // verus!
