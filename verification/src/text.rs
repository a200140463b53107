//! The canonical dash-delimited text form of an identifier.
//!
//! The grammar is `S-1-<authority>-<sub>-...-<sub>`: the literal `S`, the
//! revision `1`, then the identifier authority (decimal when it fits in 32
//! bits, otherwise `0x` followed by exactly twelve lowercase hexadecimal
//! digits), then one decimal sub-authority per counted sub-authority.
//! Formatting and parsing are specified here and proved inverse to one
//! another; parsing succeeds on exactly the canonical strings.

use vstd::prelude::*;

use crate::layout::{
    authority, lemma_authority_bound, lemma_sid_bytes_of_reads_back, lemma_sid_bytes_of_roundtrip,
    lemma_sub_authority_bound, sid_bytes_of, structurally_valid, sub_authority, sub_count, subs_of,
};
use crate::radix::{
    all_dec_digits, all_hex_digits, canonical_dec, dec_chars, dec_value, hex_pad, hex_value,
    is_dec_digit, is_hex_digit, lemma_dec_chars_canonical, lemma_dec_chars_of_value,
    lemma_dec_value_of_chars, lemma_hex_pad_of_value, lemma_hex_pad_shape, lemma_hex_value_bound,
    lemma_hex_value_of_pad, lemma_pow16_12,
};

verus! {

// ---------------------------------------------------------------------------
// Splitting at dashes and joining with dashes
// ---------------------------------------------------------------------------

/// Index of the first dash, or the length if there is none.
pub open spec fn first_dash(s: Seq<char>) -> nat
    decreases s.len(),
{
    if s.len() == 0 {
        0
    } else if s[0] == '-' {
        0
    } else {
        1 + first_dash(s.drop_first())
    }
}

/// A segment of the text form: no dash occurs in it.
pub open spec fn dashless(s: Seq<char>) -> bool {
    forall|i: int| 0 <= i < s.len() ==> s[i] != '-'
}

/// The maximal dash-free segments of `s`, in order; always at least one
/// (the empty string is one empty segment).
pub open spec fn split_dashes(s: Seq<char>) -> Seq<Seq<char>>
    decreases s.len(),
{
    let fd = first_dash(s) as int;
    if fd >= s.len() {
        seq![s]
    } else {
        seq![s.take(fd)] + split_dashes(s.skip(fd + 1))
    }
}

/// The segments joined back with single dashes.
pub open spec fn join_dashes(segs: Seq<Seq<char>>) -> Seq<char>
    decreases segs.len(),
{
    if segs.len() == 0 {
        Seq::empty()
    } else if segs.len() == 1 {
        segs[0]
    } else {
        segs[0] + seq!['-'] + join_dashes(segs.drop_first())
    }
}

pub proof fn lemma_first_dash_facts(s: Seq<char>)
    ensures
        first_dash(s) <= s.len(),
        first_dash(s) < s.len() ==> s[first_dash(s) as int] == '-',
        forall|j: int| 0 <= j < first_dash(s) ==> s[j] != '-',
    decreases s.len(),
{
    if s.len() > 0 && s[0] != '-' {
        lemma_first_dash_facts(s.drop_first());
        let fd = first_dash(s);
        assert forall|j: int| 0 <= j < fd implies s[j] != '-' by {
            if j > 0 {
                assert(s[j] == s.drop_first()[j - 1]);
            }
        }
        if fd < s.len() {
            assert(s[fd as int] == s.drop_first()[fd - 1]);
        }
    }
}

/// The first dash is wherever a dash stands with none before it.
pub proof fn lemma_first_dash_at(s: Seq<char>, i: int)
    requires
        0 <= i < s.len(),
        s[i] == '-',
        forall|j: int| 0 <= j < i ==> s[j] != '-',
    ensures
        first_dash(s) == i,
{
    lemma_first_dash_facts(s);
    let fd = first_dash(s) as int;
    if fd < i {
        assert(s[fd] != '-');
    }
    if fd > i {
        assert(s[i] != '-');
    }
}

/// With no dash at all, the first dash is the length.
pub proof fn lemma_first_dash_none(s: Seq<char>)
    requires
        dashless(s),
    ensures
        first_dash(s) == s.len(),
{
    lemma_first_dash_facts(s);
    if first_dash(s) < s.len() {
        assert(s[first_dash(s) as int] != '-');
    }
}

/// Joining the split gives the string back: splitting loses nothing.
pub proof fn lemma_join_of_split(s: Seq<char>)
    ensures
        join_dashes(split_dashes(s)) == s,
    decreases s.len(),
{
    lemma_first_dash_facts(s);
    let fd = first_dash(s) as int;
    if fd < s.len() {
        let rest = split_dashes(s.skip(fd + 1));
        lemma_join_of_split(s.skip(fd + 1));
        assert(rest.len() >= 1);
        let segs = seq![s.take(fd)] + rest;
        assert(segs.drop_first() =~= rest);
        if rest.len() == 1 {
            assert(join_dashes(segs) == s.take(fd) + seq!['-'] + join_dashes(rest));
        }
        assert(join_dashes(segs) == s.take(fd) + seq!['-'] + s.skip(fd + 1));
        assert(s.take(fd) + seq!['-'] + s.skip(fd + 1) =~= s);
    }
}

/// Splitting the join gives the segments back, as long as no segment
/// carries a dash of its own.
pub proof fn lemma_split_of_join(segs: Seq<Seq<char>>)
    requires
        segs.len() >= 1,
        forall|i: int| 0 <= i < segs.len() ==> dashless(#[trigger] segs[i]),
    ensures
        split_dashes(join_dashes(segs)) == segs,
    decreases segs.len(),
{
    if segs.len() == 1 {
        lemma_first_dash_none(segs[0]);
        assert(split_dashes(join_dashes(segs)) =~= segs);
    } else {
        let rest = segs.drop_first();
        let s = join_dashes(segs);
        assert(s == segs[0] + seq!['-'] + join_dashes(rest));
        let l0 = segs[0].len() as int;
        assert(s[l0] == '-');
        assert forall|j: int| 0 <= j < l0 implies s[j] != '-' by {
            assert(s[j] == segs[0][j]);
        }
        lemma_first_dash_at(s, l0);
        assert(s.take(l0) =~= segs[0]);
        assert(s.skip(l0 + 1) =~= join_dashes(rest));
        assert forall|i: int| 0 <= i < rest.len() implies dashless(#[trigger] rest[i]) by {
            assert(rest[i] == segs[i + 1]);
        }
        lemma_split_of_join(rest);
        assert(split_dashes(s) == seq![segs[0]] + rest);
        assert(seq![segs[0]] + rest =~= segs);
    }
}

/// Appending one more segment appends a dash and the segment's text.
pub proof fn lemma_join_push(segs: Seq<Seq<char>>, x: Seq<char>)
    requires
        segs.len() >= 1,
    ensures
        join_dashes(segs.push(x)) == join_dashes(segs) + seq!['-'] + x,
    decreases segs.len(),
{
    let p = segs.push(x);
    if segs.len() == 1 {
        assert(p.drop_first() =~= seq![x]);
        assert(join_dashes(seq![x]) == x);
        assert(join_dashes(p) == segs[0] + seq!['-'] + x);
    } else {
        assert(p.drop_first() =~= segs.drop_first().push(x));
        lemma_join_push(segs.drop_first(), x);
        assert(join_dashes(p) == segs[0] + seq!['-'] + (join_dashes(segs.drop_first())
            + seq!['-'] + x));
        assert(segs[0] + seq!['-'] + (join_dashes(segs.drop_first()) + seq!['-'] + x) =~= (segs[0]
            + seq!['-'] + join_dashes(segs.drop_first())) + seq!['-'] + x);
    }
}

// ---------------------------------------------------------------------------
// The canonical text of an identifier
// ---------------------------------------------------------------------------

/// The authority segment: decimal below 2^32, else `0x` and twelve
/// lowercase hexadecimal digits.
pub open spec fn authority_chars(a: nat) -> Seq<char> {
    if a < 0x100000000 {
        dec_chars(a)
    } else {
        seq!['0', 'x'] + hex_pad(a, 12)
    }
}

/// The first `i` sub-authority segments of `b`.
pub open spec fn sub_segs(b: Seq<u8>, i: int) -> Seq<Seq<char>>
    decreases i,
{
    if i <= 0 {
        Seq::empty()
    } else {
        sub_segs(b, i - 1).push(dec_chars(sub_authority(b, i - 1)))
    }
}

/// All segments of the canonical text of `b`.
pub open spec fn sid_segments(b: Seq<u8>) -> Seq<Seq<char>> {
    seq![seq!['S'], seq!['1'], authority_chars(authority(b))] + sub_segs(b, sub_count(b))
}

/// The canonical text of a well-formed encoding `b`.
pub open spec fn sid_chars(b: Seq<u8>) -> Seq<char> {
    join_dashes(sid_segments(b))
}

/// A string is canonical when it is the text of some well-formed encoding.
pub open spec fn is_canonical_text(s: Seq<char>) -> bool {
    exists|b: Seq<u8>| structurally_valid(b) && sid_chars(b) == s
}

/// Reading an authority segment back: exactly the canonical decimal and
/// hexadecimal shapes are accepted, each only in its own value range.
pub open spec fn authority_of_chars(s: Seq<char>) -> Option<nat> {
    if canonical_dec(s) && dec_value(s) < 0x100000000 {
        Some(dec_value(s))
    } else if s.len() == 14 && s[0] == '0' && s[1] == 'x' && all_hex_digits(s.skip(2))
        && hex_value(s.skip(2)) >= 0x100000000 {
        Some(hex_value(s.skip(2)))
    } else {
        None
    }
}

/// Reading a sub-authority segment back: canonical decimal below 2^32.
pub open spec fn sub_of_chars(s: Seq<char>) -> Option<nat> {
    if canonical_dec(s) && dec_value(s) < 0x100000000 {
        Some(dec_value(s))
    } else {
        None
    }
}

/// The sub-authority values of the segments after `S`, `1` and the
/// authority, assuming each reads back.
pub open spec fn parsed_subs(segs: Seq<Seq<char>>) -> Seq<nat> {
    Seq::new((segs.len() - 3) as nat, |i: int| sub_of_chars(segs[i + 3]).unwrap())
}

/// What parsing a string means: split at dashes, demand the `S` and `1`
/// segments, read the authority and every sub-authority back, and
/// assemble the encoding; `None` anywhere else.
pub open spec fn parse_sid_chars(s: Seq<char>) -> Option<Seq<u8>> {
    let segs = split_dashes(s);
    if segs.len() < 3 || segs.len() > 18 {
        None
    } else if segs[0] != seq!['S'] || segs[1] != seq!['1'] {
        None
    } else if authority_of_chars(segs[2]) is None {
        None
    } else if exists|i: int| 3 <= i < segs.len() && sub_of_chars(#[trigger] segs[i]) is None {
        None
    } else {
        Some(sid_bytes_of(authority_of_chars(segs[2]).unwrap(), parsed_subs(segs)))
    }
}

pub proof fn lemma_sub_segs_facts(b: Seq<u8>, i: int)
    requires
        i >= 0,
    ensures
        sub_segs(b, i).len() == i,
        forall|j: int| 0 <= j < i ==> sub_segs(b, i)[j] == dec_chars(sub_authority(b, j)),
    decreases i,
{
    if i > 0 {
        lemma_sub_segs_facts(b, i - 1);
    }
}

/// No digit is a dash, so every segment the formatter writes is dashless.
proof fn lemma_segments_dashless(b: Seq<u8>)
    requires
        b.len() >= 8,
    ensures
        forall|i: int|
            0 <= i < sid_segments(b).len() ==> dashless(#[trigger] sid_segments(b)[i]),
{
    let a = authority(b);
    let segs = sid_segments(b);
    lemma_sub_segs_facts(b, sub_count(b));
    assert forall|i: int| 0 <= i < segs.len() implies dashless(#[trigger] segs[i]) by {
        if i == 2 {
            if a < 0x100000000 {
                lemma_dec_chars_canonical(a);
                assert forall|j: int| 0 <= j < segs[i].len() implies segs[i][j] != '-' by {
                    assert(is_dec_digit(dec_chars(a)[j]));
                }
            } else {
                lemma_hex_pad_shape(a, 12);
                assert forall|j: int| 0 <= j < segs[i].len() implies segs[i][j] != '-' by {
                    if j >= 2 {
                        assert(segs[i][j] == hex_pad(a, 12)[j - 2]);
                        assert(is_hex_digit(hex_pad(a, 12)[j - 2]));
                    }
                }
            }
        } else if i >= 3 {
            let v = sub_authority(b, i - 3);
            assert(segs[i] == dec_chars(v));
            lemma_dec_chars_canonical(v);
            assert forall|j: int| 0 <= j < segs[i].len() implies segs[i][j] != '-' by {
                assert(is_dec_digit(dec_chars(v)[j]));
            }
        }
    }
}

/// Soundness of parsing: whatever parses is a well-formed encoding whose
/// canonical text is exactly the input.
pub proof fn lemma_parse_sound(s: Seq<char>)
    requires
        parse_sid_chars(s) is Some,
    ensures
        structurally_valid(parse_sid_chars(s).unwrap()),
        sid_chars(parse_sid_chars(s).unwrap()) == s,
{
    let segs = split_dashes(s);
    let a = authority_of_chars(segs[2]).unwrap();
    let subs = parsed_subs(segs);
    let b = sid_bytes_of(a, subs);
    assert(forall|i: int| 3 <= i < segs.len() ==> sub_of_chars(#[trigger] segs[i]) is Some);
    assert(a < 0x1000000000000) by {
        if !(canonical_dec(segs[2]) && dec_value(segs[2]) < 0x100000000) {
            lemma_hex_value_bound(segs[2].skip(2));
            lemma_pow16_12();
            assert(segs[2].skip(2).len() == 12);
        }
    }
    assert(forall|i: int| 0 <= i < subs.len() ==> subs[i] < 0x100000000);
    lemma_sid_bytes_of_reads_back(a, subs);
    // the rebuilt encoding formats to the very segments that were parsed
    assert(authority_chars(a) == segs[2]) by {
        if canonical_dec(segs[2]) && dec_value(segs[2]) < 0x100000000 {
            lemma_dec_chars_of_value(segs[2]);
        } else {
            lemma_hex_pad_of_value(segs[2].skip(2));
            assert(segs[2].skip(2).len() == 12);
            assert(seq!['0', 'x'] + segs[2].skip(2) =~= segs[2]);
        }
    }
    lemma_sub_segs_facts(b, subs.len() as int);
    assert forall|j: int| 0 <= j < subs.len() implies sub_segs(b, subs.len() as int)[j] == segs[
        j + 3
    ] by {
        assert(sub_authority(b, j) == subs[j]);
        assert(subs[j] == sub_of_chars(segs[j + 3]).unwrap());
        lemma_dec_chars_of_value(segs[j + 3]);
    }
    assert(sid_segments(b) =~= segs);
    lemma_join_of_split(s);
}

/// Round trip: the canonical text of any well-formed encoding parses back
/// to exactly that encoding.
pub proof fn lemma_parse_of_sid_chars(b: Seq<u8>)
    requires
        structurally_valid(b),
    ensures
        parse_sid_chars(sid_chars(b)) == Some(b),
{
    let segs = sid_segments(b);
    let a = authority(b);
    let n = sub_count(b);
    lemma_authority_bound(b);
    lemma_pow16_12();
    lemma_segments_dashless(b);
    lemma_sub_segs_facts(b, n);
    lemma_split_of_join(segs);
    assert(split_dashes(sid_chars(b)) == segs);
    assert(segs.len() == 3 + n);
    assert(authority_of_chars(segs[2]) == Some(a)) by {
        if a < 0x100000000 {
            lemma_dec_chars_canonical(a);
            lemma_dec_value_of_chars(a);
        } else {
            let h = hex_pad(a, 12);
            lemma_hex_pad_shape(a, 12);
            lemma_hex_value_of_pad(a, 12);
            assert(segs[2] == seq!['0', 'x'] + h);
            assert(segs[2].len() == 14);
            assert(segs[2][0] == '0' && segs[2][1] == 'x');
            assert(!canonical_dec(segs[2]));
            assert(segs[2].skip(2) =~= h);
        }
    }
    assert forall|i: int| 3 <= i < segs.len() implies sub_of_chars(#[trigger] segs[i])
        == Some(sub_authority(b, i - 3)) by {
        let v = sub_authority(b, i - 3);
        assert(segs[i] == dec_chars(v));
        lemma_sub_authority_bound(b, i - 3);
        lemma_dec_chars_canonical(v);
        lemma_dec_value_of_chars(v);
    }
    assert(parsed_subs(segs) =~= subs_of(b));
    lemma_sid_bytes_of_roundtrip(b);
}

/// Round-trip stability: on any string that parses, formatting the parsed
/// encoding yields a string that parses back to exactly the same
/// encoding. A parse/format cycle loses nothing.
pub proof fn lemma_reparse_stable(s: Seq<char>)
    requires
        parse_sid_chars(s) is Some,
    ensures
        parse_sid_chars(sid_chars(parse_sid_chars(s).unwrap())) == parse_sid_chars(s),
{
    lemma_parse_sound(s);
    lemma_parse_of_sid_chars(parse_sid_chars(s).unwrap());
}

/// The canonical text determines the encoding: formatting is injective on
/// well-formed encodings, so re-parsing a formatted identifier can only
/// give the identifier back.
pub proof fn lemma_sid_chars_injective(b1: Seq<u8>, b2: Seq<u8>)
    requires
        structurally_valid(b1),
        structurally_valid(b2),
        sid_chars(b1) == sid_chars(b2),
    ensures
        b1 == b2,
{
    lemma_parse_of_sid_chars(b1);
    lemma_parse_of_sid_chars(b2);
}

/// A string on which parsing fails is the canonical text of no encoding.
pub proof fn lemma_parse_none_not_canonical(s: Seq<char>)
    requires
        parse_sid_chars(s) is None,
    ensures
        !is_canonical_text(s),
{
    if is_canonical_text(s) {
        let b = choose|b: Seq<u8>| structurally_valid(b) && sid_chars(b) == s;
        lemma_parse_of_sid_chars(b);
    }
}

} // verus!
