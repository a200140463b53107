//! Executable formatting and parsing of the canonical text form, proved
//! against the grammar of [`crate::text`].

use vstd::prelude::*;
use vstd::string::*;

use crate::layout::{
    authority, le_chunks, sid_bytes_of, structurally_valid, sub_authority, sub_count,
};
use crate::radix::{
    all_dec_digits, all_hex_digits, be_bytes, be_value, canonical_dec, dec_chars, dec_digit_val,
    dec_value, digit_char, hex_digit_val, hex_pad, hex_value, is_dec_digit, is_hex_digit,
    le_bytes, le_value, lemma_dec_value_prefix_le, lemma_hex_value_bound, lemma_pow16_12,
    lemma_pow16_le,
};
use crate::text::{
    authority_chars, authority_of_chars, first_dash, join_dashes, lemma_first_dash_at,
    lemma_first_dash_none, lemma_join_push, parse_sid_chars, parsed_subs, sid_chars, sid_segments,
    split_dashes, sub_of_chars, sub_segs,
};

verus! {

// ---------------------------------------------------------------------------
// Writing digits, numerals and byte strings
// ---------------------------------------------------------------------------

/// Appends the single character of a digit value below sixteen.
fn push_digit(out: &mut String, d: u8)
    requires
        d < 16,
    ensures
        final(out)@ == old(out)@ + seq![digit_char(d as nat)],
{
    match d {
        0 => {
            out.append("0");
            proof {
                reveal_strlit("0");
                assert(out@ =~= old(out)@ + seq![digit_char(d as nat)]);
            }
        },
        1 => {
            out.append("1");
            proof {
                reveal_strlit("1");
                assert(out@ =~= old(out)@ + seq![digit_char(d as nat)]);
            }
        },
        2 => {
            out.append("2");
            proof {
                reveal_strlit("2");
                assert(out@ =~= old(out)@ + seq![digit_char(d as nat)]);
            }
        },
        3 => {
            out.append("3");
            proof {
                reveal_strlit("3");
                assert(out@ =~= old(out)@ + seq![digit_char(d as nat)]);
            }
        },
        4 => {
            out.append("4");
            proof {
                reveal_strlit("4");
                assert(out@ =~= old(out)@ + seq![digit_char(d as nat)]);
            }
        },
        5 => {
            out.append("5");
            proof {
                reveal_strlit("5");
                assert(out@ =~= old(out)@ + seq![digit_char(d as nat)]);
            }
        },
        6 => {
            out.append("6");
            proof {
                reveal_strlit("6");
                assert(out@ =~= old(out)@ + seq![digit_char(d as nat)]);
            }
        },
        7 => {
            out.append("7");
            proof {
                reveal_strlit("7");
                assert(out@ =~= old(out)@ + seq![digit_char(d as nat)]);
            }
        },
        8 => {
            out.append("8");
            proof {
                reveal_strlit("8");
                assert(out@ =~= old(out)@ + seq![digit_char(d as nat)]);
            }
        },
        9 => {
            out.append("9");
            proof {
                reveal_strlit("9");
                assert(out@ =~= old(out)@ + seq![digit_char(d as nat)]);
            }
        },
        10 => {
            out.append("a");
            proof {
                reveal_strlit("a");
                assert(out@ =~= old(out)@ + seq![digit_char(d as nat)]);
            }
        },
        11 => {
            out.append("b");
            proof {
                reveal_strlit("b");
                assert(out@ =~= old(out)@ + seq![digit_char(d as nat)]);
            }
        },
        12 => {
            out.append("c");
            proof {
                reveal_strlit("c");
                assert(out@ =~= old(out)@ + seq![digit_char(d as nat)]);
            }
        },
        13 => {
            out.append("d");
            proof {
                reveal_strlit("d");
                assert(out@ =~= old(out)@ + seq![digit_char(d as nat)]);
            }
        },
        14 => {
            out.append("e");
            proof {
                reveal_strlit("e");
                assert(out@ =~= old(out)@ + seq![digit_char(d as nat)]);
            }
        },
        _ => {
            out.append("f");
            proof {
                reveal_strlit("f");
                assert(out@ =~= old(out)@ + seq![digit_char(d as nat)]);
            }
        },
    }
}

/// Appends the decimal numeral of `n`.
fn push_dec(out: &mut String, n: u64)
    ensures
        final(out)@ == old(out)@ + dec_chars(n as nat),
    decreases n,
{
    if n < 10 {
        push_digit(out, n as u8);
    } else {
        push_dec(out, n / 10);
        push_digit(out, (n % 10) as u8);
        proof {
            assert(out@ =~= old(out)@ + dec_chars(n as nat));
        }
    }
}

/// Appends the `k` low hexadecimal digits of `n`, zero-padded.
fn push_hex(out: &mut String, n: u64, k: usize)
    ensures
        final(out)@ == old(out)@ + hex_pad(n as nat, k as nat),
    decreases k,
{
    if k == 0 {
        proof {
            assert(out@ =~= old(out)@ + hex_pad(n as nat, 0));
        }
    } else {
        push_hex(out, n / 16, k - 1);
        push_digit(out, (n % 16) as u8);
        proof {
            assert(out@ =~= old(out)@ + hex_pad(n as nat, k as nat));
        }
    }
}

/// Appends the `k` low bytes of `n`, most significant first.
fn push_be(out: &mut Vec<u8>, n: u64, k: usize)
    ensures
        final(out)@ == old(out)@ + be_bytes(n as nat, k as nat),
    decreases k,
{
    if k == 0 {
        proof {
            assert(out@ =~= old(out)@ + be_bytes(n as nat, 0));
        }
    } else {
        push_be(out, n / 256, k - 1);
        out.push((n % 256) as u8);
        proof {
            assert(out@ =~= old(out)@ + be_bytes(n as nat, k as nat));
        }
    }
}

/// Appends the `k` low bytes of `n`, least significant first.
fn push_le(out: &mut Vec<u8>, n: u64, k: usize)
    ensures
        final(out)@ == old(out)@ + le_bytes(n as nat, k as nat),
    decreases k,
{
    if k == 0 {
        proof {
            assert(out@ =~= old(out)@ + le_bytes(n as nat, 0));
        }
    } else {
        out.push((n % 256) as u8);
        push_le(out, n / 256, k - 1);
        proof {
            assert(out@ =~= old(out)@ + le_bytes(n as nat, k as nat));
        }
    }
}

// ---------------------------------------------------------------------------
// Formatting
// ---------------------------------------------------------------------------

/// Renders a well-formed encoding as its canonical text; absence exactly
/// when the bytes are not laid out as a revision-1 identifier.
pub(crate) fn format_sid(b: &Vec<u8>) -> (r: Option<String>)
    ensures
        r is Some <==> structurally_valid(b@),
        r is Some ==> r.unwrap()@ == sid_chars(b@),
{
    let n = b.len();
    if n < 8 {
        return None;
    }
    let count = b[1] as usize;
    if !(b[0] == 1 && count <= 15 && n == 8 + 4 * count) {
        return None;
    }
    // the 48-bit authority, big endian in bytes 2 to 7
    let a: u64 = (((((b[2] as u64) * 256 + b[3] as u64) * 256 + b[4] as u64) * 256 + b[5] as u64)
        * 256 + b[6] as u64) * 256 + b[7] as u64;
    proof {
        assert(b@.subrange(2, 3).drop_last() =~= Seq::<u8>::empty());
        assert(be_value(Seq::<u8>::empty()) == 0);
        assert(b@.subrange(2, 4).drop_last() =~= b@.subrange(2, 3));
        assert(b@.subrange(2, 5).drop_last() =~= b@.subrange(2, 4));
        assert(b@.subrange(2, 6).drop_last() =~= b@.subrange(2, 5));
        assert(b@.subrange(2, 7).drop_last() =~= b@.subrange(2, 6));
        assert(b@.subrange(2, 8).drop_last() =~= b@.subrange(2, 7));
        assert(b@.subrange(2, 3).last() == b@[2]);
        assert(b@.subrange(2, 4).last() == b@[3]);
        assert(b@.subrange(2, 5).last() == b@[4]);
        assert(b@.subrange(2, 6).last() == b@[5]);
        assert(b@.subrange(2, 7).last() == b@[6]);
        assert(b@.subrange(2, 8).last() == b@[7]);
        assert(be_value(b@.subrange(2, 3)) == b@[2]);
        assert(be_value(b@.subrange(2, 4)) == be_value(b@.subrange(2, 3)) * 256 + b@[3]);
        assert(be_value(b@.subrange(2, 5)) == be_value(b@.subrange(2, 4)) * 256 + b@[4]);
        assert(be_value(b@.subrange(2, 6)) == be_value(b@.subrange(2, 5)) * 256 + b@[5]);
        assert(be_value(b@.subrange(2, 7)) == be_value(b@.subrange(2, 6)) * 256 + b@[6]);
        assert(be_value(b@.subrange(2, 8)) == be_value(b@.subrange(2, 7)) * 256 + b@[7]);
        assert(a as nat == authority(b@));
    }
    let ghost base = seq![seq!['S'], seq!['1'], authority_chars(a as nat)];
    let mut out = String::new();
    out.append("S-1-");
    if a < 0x100000000 {
        push_dec(&mut out, a);
    } else {
        out.append("0x");
        push_hex(&mut out, a, 12);
        proof {
            reveal_strlit("S-1-");
            reveal_strlit("0x");
            assert(out@ =~= seq!['S', '-', '1', '-'] + (seq!['0', 'x'] + hex_pad(a as nat, 12)));
        }
    }
    proof {
        reveal_strlit("S-1-");
        assert(out@ =~= seq!['S', '-', '1', '-'] + authority_chars(a as nat));
        let ac = authority_chars(a as nat);
        let t2 = seq![seq!['1'], ac];
        assert(base.drop_first() =~= t2);
        assert(t2.drop_first() =~= seq![ac]);
        assert(join_dashes(seq![ac]) == ac);
        assert(join_dashes(t2) == seq!['1'] + seq!['-'] + join_dashes(seq![ac]));
        assert(join_dashes(base) == seq!['S'] + seq!['-'] + join_dashes(t2));
        assert(join_dashes(base) =~= seq!['S', '-', '1', '-'] + ac);
        assert(sub_segs(b@, 0) =~= Seq::<Seq<char>>::empty());
        assert(base + sub_segs(b@, 0) =~= base);
    }
    let mut i: usize = 0;
    while i < count
        invariant
            i <= count,
            count == sub_count(b@),
            structurally_valid(b@),
            n == b@.len() == 8 + 4 * count,
            a as nat == authority(b@),
            base == seq![seq!['S'], seq!['1'], authority_chars(a as nat)],
            out@ == join_dashes(base + sub_segs(b@, i as int)),
        decreases count - i,
    {
        let p = 8 + 4 * i;
        let v: u64 = b[p] as u64 + 256 * (b[p + 1] as u64 + 256 * (b[p + 2] as u64 + 256 * (b[p
            + 3] as u64)));
        proof {
            let s4 = b@.subrange(p as int, p + 4);
            assert(s4.drop_first() =~= b@.subrange(p + 1, p + 4));
            assert(b@.subrange(p + 1, p + 4).drop_first() =~= b@.subrange(p + 2, p + 4));
            assert(b@.subrange(p + 2, p + 4).drop_first() =~= b@.subrange(p + 3, p + 4));
            assert(b@.subrange(p + 3, p + 4).drop_first() =~= Seq::<u8>::empty());
            assert(le_value(Seq::<u8>::empty()) == 0);
            assert(b@.subrange(p + 3, p + 4)[0] == b@[p + 3]);
            assert(b@.subrange(p + 2, p + 4)[0] == b@[p + 2]);
            assert(b@.subrange(p + 1, p + 4)[0] == b@[p + 1]);
            assert(s4[0] == b@[p as int]);
            assert(le_value(b@.subrange(p + 3, p + 4)) == b@[p + 3]);
            assert(le_value(b@.subrange(p + 2, p + 4)) == b@[p + 2] + 256 * le_value(
                b@.subrange(p + 3, p + 4),
            ));
            assert(le_value(b@.subrange(p + 1, p + 4)) == b@[p + 1] + 256 * le_value(
                b@.subrange(p + 2, p + 4),
            ));
            assert(le_value(s4) == b@[p as int] + 256 * le_value(b@.subrange(p + 1, p + 4)));
            assert(v as nat == sub_authority(b@, i as int));
        }
        out.append("-");
        push_dec(&mut out, v);
        proof {
            reveal_strlit("-");
            let segs = base + sub_segs(b@, i as int);
            lemma_join_push(segs, dec_chars(v as nat));
            assert(out@ =~= join_dashes(segs) + seq!['-'] + dec_chars(v as nat));
            assert(segs.push(dec_chars(v as nat)) =~= base + sub_segs(b@, i + 1));
        }
        i += 1;
    }
    proof {
        assert(base + sub_segs(b@, count as int) =~= sid_segments(b@));
    }
    Some(out)
}

// ---------------------------------------------------------------------------
// Parsing
// ---------------------------------------------------------------------------

/// The characters of `s`, one by one.
fn chars_of(s: &str) -> (v: Vec<char>)
    ensures
        v@ == s@,
{
    let n = s.unicode_len();
    let mut v: Vec<char> = Vec::new();
    let mut i: usize = 0;
    while i < n
        invariant
            i <= n,
            n == s@.len(),
            v@ == s@.take(i as int),
        decreases n - i,
    {
        let c = s.get_char(i);
        v.push(c);
        proof {
            assert(v@ =~= s@.take(i + 1));
        }
        i += 1;
    }
    proof {
        assert(s@.take(n as int) =~= s@);
    }
    v
}

/// Position of the first dash at or after `from`, or the length.
fn find_dash(v: &Vec<char>, from: usize) -> (r: usize)
    requires
        from <= v@.len(),
    ensures
        from <= r <= v@.len(),
        r < v@.len() ==> v@[r as int] == '-',
        r as int - from == first_dash(v@.skip(from as int)),
{
    let n = v.len();
    let mut i: usize = from;
    while i < n
        invariant
            from <= i <= n,
            n == v@.len(),
            forall|j: int| from <= j < i ==> v@[j] != '-',
        decreases n - i,
    {
        if v[i] == '-' {
            proof {
                let t = v@.skip(from as int);
                assert(t[i - from] == v@[i as int]);
                assert forall|j: int| 0 <= j < i - from implies t[j] != '-' by {
                    assert(t[j] == v@[j + from]);
                }
                lemma_first_dash_at(t, i - from);
            }
            return i;
        }
        i += 1;
    }
    proof {
        let t = v@.skip(from as int);
        assert forall|j: int| 0 <= j < t.len() implies t[j] != '-' by {
            assert(t[j] == v@[j + from]);
        }
        lemma_first_dash_none(t);
    }
    n
}

/// The segments a range list denotes.
pub(crate) open spec fn ranges_segs(rs: Seq<(usize, usize)>, s: Seq<char>) -> Seq<Seq<char>> {
    Seq::new(rs.len(), |k: int| s.subrange(rs[k].0 as int, rs[k].1 as int))
}

/// Splits at dashes, handing back each segment as a half-open range.
fn split_ranges(v: &Vec<char>) -> (rs: Vec<(usize, usize)>)
    ensures
        ranges_segs(rs@, v@) == split_dashes(v@),
        forall|k: int| 0 <= k < rs@.len() ==> (#[trigger] rs@[k]).0 <= rs@[k].1 <= v@.len(),
{
    let n = v.len();
    let mut rs: Vec<(usize, usize)> = Vec::new();
    let mut start: usize = 0;
    proof {
        assert(v@.skip(0) =~= v@);
        assert(ranges_segs(rs@, v@) =~= Seq::<Seq<char>>::empty());
    }
    loop
        invariant
            start <= n,
            n == v@.len(),
            split_dashes(v@) == ranges_segs(rs@, v@) + split_dashes(v@.skip(start as int)),
            forall|k: int| 0 <= k < rs@.len() ==> (#[trigger] rs@[k]).0 <= rs@[k].1 <= v@.len(),
        decreases n - start,
    {
        let fd = find_dash(v, start);
        let ghost old_rs = rs@;
        if fd == n {
            rs.push((start, n));
            proof {
                let t = v@.skip(start as int);
                assert(first_dash(t) == t.len());
                assert(split_dashes(t) == seq![t]);
                assert(t =~= v@.subrange(start as int, n as int));
                assert(ranges_segs(rs@, v@) =~= ranges_segs(old_rs, v@) + seq![t]);
                assert(ranges_segs(old_rs, v@) + seq![t] + Seq::<Seq<char>>::empty() =~= ranges_segs(
                    old_rs,
                    v@,
                ) + seq![t]);
                assert(ranges_segs(rs@, v@) =~= split_dashes(v@));
            }
            return rs;
        }
        rs.push((start, fd));
        proof {
            let t = v@.skip(start as int);
            let fdr = (fd - start) as int;
            assert(first_dash(t) == fdr && fdr < t.len());
            assert(split_dashes(t) == seq![t.take(fdr)] + split_dashes(t.skip(fdr + 1)));
            assert(t.take(fdr) =~= v@.subrange(start as int, fd as int));
            assert(t.skip(fdr + 1) =~= v@.skip(fd + 1));
            assert(ranges_segs(rs@, v@) =~= ranges_segs(old_rs, v@) + seq![
                v@.subrange(start as int, fd as int),
            ]);
            assert(ranges_segs(old_rs, v@) + (seq![v@.subrange(start as int, fd as int)]
                + split_dashes(v@.skip(fd + 1))) =~= (ranges_segs(old_rs, v@) + seq![
                v@.subrange(start as int, fd as int),
            ]) + split_dashes(v@.skip(fd + 1)));
        }
        start = fd + 1;
    }
}

/// A decimal digit's value, if the character is one.
fn dec_digit_of(c: char) -> (r: Option<u8>)
    ensures
        r is Some <==> is_dec_digit(c),
        r is Some ==> r.unwrap() < 10 && r.unwrap() as nat == dec_digit_val(c),
{
    match c {
        '0' => Some(0),
        '1' => Some(1),
        '2' => Some(2),
        '3' => Some(3),
        '4' => Some(4),
        '5' => Some(5),
        '6' => Some(6),
        '7' => Some(7),
        '8' => Some(8),
        '9' => Some(9),
        _ => None,
    }
}

/// A lowercase hexadecimal digit's value, if the character is one.
fn hex_digit_of(c: char) -> (r: Option<u8>)
    ensures
        r is Some <==> is_hex_digit(c),
        r is Some ==> r.unwrap() < 16 && r.unwrap() as nat == hex_digit_val(c),
{
    match c {
        'a' => Some(10),
        'b' => Some(11),
        'c' => Some(12),
        'd' => Some(13),
        'e' => Some(14),
        'f' => Some(15),
        _ => dec_digit_of(c),
    }
}

/// Reads a canonical decimal segment below 2^32, exactly as
/// [`sub_of_chars`] specifies.
fn parse_dec32(v: &Vec<char>, from: usize, to: usize) -> (r: Option<u64>)
    requires
        from <= to <= v@.len(),
    ensures
        r is Some <==> sub_of_chars(v@.subrange(from as int, to as int)) is Some,
        r is Some ==> r.unwrap() < 0x100000000 && r.unwrap() as nat == sub_of_chars(
            v@.subrange(from as int, to as int),
        ).unwrap(),
{
    let ghost sub = v@.subrange(from as int, to as int);
    let len = to - from;
    if len == 0 {
        return None;
    }
    if len > 1 && v[from] == '0' {
        proof {
            assert(sub[0] == '0');
        }
        return None;
    }
    let mut acc: u64 = 0;
    let mut i: usize = from;
    while i < to
        invariant
            from <= i <= to <= v@.len(),
            sub == v@.subrange(from as int, to as int),
            acc < 0x100000000,
            acc as nat == dec_value(sub.take(i - from)),
            all_dec_digits(sub.take(i - from)),
        decreases to - i,
    {
        let c = v[i];
        proof {
            assert(sub[i - from] == c);
        }
        match dec_digit_of(c) {
            None => {
                proof {
                    assert(!is_dec_digit(sub[i - from]));
                }
                return None;
            },
            Some(d) => {
                let next = acc * 10 + d as u64;
                proof {
                    assert(sub.take(i - from + 1).drop_last() =~= sub.take(i - from));
                    assert(sub.take(i - from + 1).last() == c);
                    assert(next as nat == dec_value(sub.take(i - from + 1)));
                }
                if next >= 0x100000000 {
                    proof {
                        lemma_dec_value_prefix_le(sub, i - from + 1);
                        assert(dec_value(sub) >= 0x100000000);
                    }
                    return None;
                }
                acc = next;
            },
        }
        i += 1;
    }
    proof {
        assert(sub.take(to - from) =~= sub);
        assert(canonical_dec(sub));
    }
    Some(acc)
}

/// Reads an authority segment, exactly as [`authority_of_chars`]
/// specifies: canonical decimal below 2^32, or `0x` and twelve lowercase
/// hexadecimal digits for a value of at least 2^32.
fn parse_auth(v: &Vec<char>, from: usize, to: usize) -> (r: Option<u64>)
    requires
        from <= to <= v@.len(),
    ensures
        r is Some <==> authority_of_chars(v@.subrange(from as int, to as int)) is Some,
        r is Some ==> r.unwrap() < 0x1000000000000 && r.unwrap() as nat == authority_of_chars(
            v@.subrange(from as int, to as int),
        ).unwrap(),
{
    let ghost sub = v@.subrange(from as int, to as int);
    if let Some(x) = parse_dec32(v, from, to) {
        return Some(x);
    }
    let len = to - from;
    if len != 14 {
        return None;
    }
    if !(v[from] == '0' && v[from + 1] == 'x') {
        proof {
            assert(sub[0] == v@[from as int] && sub[1] == v@[from as int + 1]);
        }
        return None;
    }
    proof {
        assert(sub[0] == '0' && sub[1] == 'x');
        assert(sub.skip(2) =~= v@.subrange(from as int + 2, to as int));
    }
    let ghost h = sub.skip(2);
    let mut acc: u64 = 0;
    let mut i: usize = from + 2;
    while i < to
        invariant
            from + 2 <= i <= to <= v@.len(),
            to == from + 14,
            sub == v@.subrange(from as int, to as int),
            sub.len() == 14,
            sub[0] == '0' && sub[1] == 'x',
            h == sub.skip(2),
            h == v@.subrange(from as int + 2, to as int),
            acc < 0x1000000000000,
            acc as nat == hex_value(h.take(i - from - 2)),
            all_hex_digits(h.take(i - from - 2)),
        decreases to - i,
    {
        let c = v[i];
        proof {
            assert(h[i - from - 2] == c);
        }
        match hex_digit_of(c) {
            None => {
                proof {
                    assert(!is_hex_digit(h[i - from - 2]));
                    assert(h =~= sub.skip(2));
                }
                return None;
            },
            Some(d) => {
                proof {
                    assert(h.take(i - from - 1).drop_last() =~= h.take(i - from - 2));
                    assert(h.take(i - from - 1).last() == c);
                    lemma_hex_value_bound(h.take(i - from - 1));
                    lemma_pow16_le((i - from - 1) as nat, 12);
                    lemma_pow16_12();
                }
                acc = acc * 16 + d as u64;
            },
        }
        i += 1;
    }
    proof {
        assert(h.take(12) =~= h);
        assert(h =~= sub.skip(2));
    }
    if acc < 0x100000000 {
        return None;
    }
    Some(acc)
}

/// Parses canonical text into the byte encoding it denotes, exactly as
/// [`parse_sid_chars`] specifies.
pub(crate) fn parse_sid(s: &str) -> (r: Option<Vec<u8>>)
    ensures
        r is Some <==> parse_sid_chars(s@) is Some,
        r is Some ==> r.unwrap()@ == parse_sid_chars(s@).unwrap(),
{
    let v = chars_of(s);
    let rs = split_ranges(&v);
    let ghost segs = split_dashes(s@);
    let m = rs.len();
    if m < 3 || m > 18 {
        return None;
    }
    let p0 = rs[0];
    if !(p0.1 - p0.0 == 1 && v[p0.0] == 'S') {
        proof {
            if segs[0] == seq!['S'] {
                assert(segs[0].len() == 1 && segs[0][0] == 'S');
                assert(v@.subrange(p0.0 as int, p0.1 as int) == segs[0]);
                assert(v@[p0.0 as int] == 'S');
            }
        }
        return None;
    }
    proof {
        assert(v@.subrange(p0.0 as int, p0.1 as int) =~= seq!['S']);
    }
    let p1 = rs[1];
    if !(p1.1 - p1.0 == 1 && v[p1.0] == '1') {
        proof {
            if segs[1] == seq!['1'] {
                assert(segs[1].len() == 1 && segs[1][0] == '1');
                assert(v@.subrange(p1.0 as int, p1.1 as int) == segs[1]);
                assert(v@[p1.0 as int] == '1');
            }
        }
        return None;
    }
    proof {
        assert(v@.subrange(p1.0 as int, p1.1 as int) =~= seq!['1']);
    }
    let p2 = rs[2];
    let a = match parse_auth(&v, p2.0, p2.1) {
        None => {
            return None;
        },
        Some(x) => x,
    };
    let mut subs: Vec<u64> = Vec::new();
    let mut idx: usize = 3;
    while idx < m
        invariant
            3 <= idx <= m,
            m == segs.len(),
            m <= 18,
            segs == split_dashes(s@),
            v@ == s@,
            ranges_segs(rs@, v@) == segs,
            rs@.len() == m,
            forall|k: int| 0 <= k < rs@.len() ==> (#[trigger] rs@[k]).0 <= rs@[k].1 <= v@.len(),
            subs@.len() == idx - 3,
            forall|k: int|
                0 <= k < idx - 3 ==> sub_of_chars(#[trigger] segs[k + 3]) is Some,
            forall|k: int|
                0 <= k < idx - 3 ==> (#[trigger] subs@[k]) < 0x100000000 && subs@[k] as nat
                    == sub_of_chars(segs[k + 3]).unwrap(),
        decreases m - idx,
    {
        let p = rs[idx];
        proof {
            assert(segs[idx as int] == v@.subrange(p.0 as int, p.1 as int));
        }
        match parse_dec32(&v, p.0, p.1) {
            None => {
                proof {
                    assert(sub_of_chars(segs[idx as int]) is None);
                }
                return None;
            },
            Some(x) => {
                subs.push(x);
            },
        }
        idx += 1;
    }
    assert(forall|i: int| 3 <= i < segs.len() ==> sub_of_chars(#[trigger] segs[i]) is Some) by {
        assert forall|i: int| 3 <= i < segs.len() implies sub_of_chars(#[trigger] segs[i])
            is Some by {
            assert(sub_of_chars(segs[(i - 3) + 3]) is Some);
        }
    }
    let cnt = m - 3;
    let mut bytes: Vec<u8> = Vec::new();
    bytes.push(1u8);
    bytes.push(cnt as u8);
    push_be(&mut bytes, a, 6);
    let ghost ps = parsed_subs(segs);
    proof {
        assert(ps.len() == cnt);
        assert(le_chunks(ps.take(0)) =~= Seq::<u8>::empty()) by {
            assert(ps.take(0) =~= Seq::<nat>::empty());
        }
        assert(bytes@ =~= seq![1u8, cnt as u8] + be_bytes(a as nat, 6) + le_chunks(ps.take(0)));
    }
    let mut k: usize = 0;
    while k < cnt
        invariant
            k <= cnt,
            cnt == m - 3,
            cnt <= 15,
            subs@.len() == cnt,
            ps == parsed_subs(segs),
            ps.len() == cnt,
            forall|j: int|
                0 <= j < cnt ==> (#[trigger] subs@[j]) < 0x100000000 && subs@[j] as nat == ps[j],
            bytes@ == seq![1u8, cnt as u8] + be_bytes(a as nat, 6) + le_chunks(ps.take(k as int)),
        decreases cnt - k,
    {
        push_le(&mut bytes, subs[k], 4);
        proof {
            assert(ps.take(k + 1).drop_last() =~= ps.take(k as int));
            assert(ps.take(k + 1).last() == ps[k as int]);
            assert(le_chunks(ps.take(k + 1)) == le_chunks(ps.take(k as int)) + le_bytes(
                ps[k as int],
                4,
            ));
            assert(bytes@ =~= seq![1u8, cnt as u8] + be_bytes(a as nat, 6) + le_chunks(
                ps.take(k + 1),
            ));
        }
        k += 1;
    }
    proof {
        assert(ps.take(cnt as int) =~= ps);
        assert(bytes@ =~= sid_bytes_of(a as nat, ps));
        assert(parse_sid_chars(s@) == Some(sid_bytes_of(a as nat, ps)));
    }
    Some(bytes)
}

} // verus!
