//! Lowercase hexadecimal numerals: how a code point is written out in a
//! numeric escape sequence, how such a numeral is read back, and the proof
//! that the two are inverses.

use vstd::prelude::*;

verus! {

/// The character for one hexadecimal digit (lowercase letters).
pub open spec fn hex_digit(d: nat) -> char {
    if d == 0 {
        '0'
    } else if d == 1 {
        '1'
    } else if d == 2 {
        '2'
    } else if d == 3 {
        '3'
    } else if d == 4 {
        '4'
    } else if d == 5 {
        '5'
    } else if d == 6 {
        '6'
    } else if d == 7 {
        '7'
    } else if d == 8 {
        '8'
    } else if d == 9 {
        '9'
    } else if d == 10 {
        'a'
    } else if d == 11 {
        'b'
    } else if d == 12 {
        'c'
    } else if d == 13 {
        'd'
    } else if d == 14 {
        'e'
    } else {
        'f'
    }
}

/// True for the characters accepted as hexadecimal digits when decoding
/// (either letter case).
pub open spec fn is_hex_digit(c: char) -> bool {
    ('0' <= c && c <= '9') || ('a' <= c && c <= 'f') || ('A' <= c && c <= 'F')
}

/// The numeric value of one hexadecimal digit character.
pub open spec fn hex_digit_val(c: char) -> nat {
    if '0' <= c && c <= '9' {
        (c as u32 - '0' as u32) as nat
    } else if 'a' <= c && c <= 'f' {
        (c as u32 - 'a' as u32 + 10) as nat
    } else if 'A' <= c && c <= 'F' {
        (c as u32 - 'A' as u32 + 10) as nat
    } else {
        0
    }
}

/// The numeral for `n`: lowercase digits, no leading zeros (`0` itself is
/// written as the single digit `0`).
pub open spec fn hex_seq(n: nat) -> Seq<char>
    decreases n,
{
    if n < 16 {
        seq![hex_digit(n)]
    } else {
        hex_seq(n / 16) + seq![hex_digit(n % 16)]
    }
}

/// The value of a numeral read left to right (the empty numeral counts as 0;
/// the caller rules that case out).
pub open spec fn hex_val(s: Seq<char>) -> nat
    decreases s.len(),
{
    if s.len() == 0 {
        0
    } else {
        hex_val(s.drop_last()) * 16 + hex_digit_val(s.last())
    }
}

/// Every character of `s` is a hexadecimal digit.
pub open spec fn all_hex_digits(s: Seq<char>) -> bool {
    forall|i: int| 0 <= i < s.len() ==> is_hex_digit(#[trigger] s[i])
}

/// A numeral is never empty, consists of hexadecimal digits only, and in
/// particular never contains a closing brace.
pub proof fn lemma_hex_seq_wf(n: nat)
    ensures
        hex_seq(n).len() >= 1,
        all_hex_digits(hex_seq(n)),
        forall|i: int| 0 <= i < hex_seq(n).len() ==> hex_seq(n)[i] != '}',
    decreases n,
{
    if n < 16 {
        assert(is_hex_digit(hex_digit(n)));
        assert(hex_digit(n) != '}');
    } else {
        lemma_hex_seq_wf(n / 16);
        assert(is_hex_digit(hex_digit(n % 16)));
        assert(hex_digit(n % 16) != '}');
        assert forall|i: int| 0 <= i < hex_seq(n).len() implies is_hex_digit(hex_seq(n)[i])
            && hex_seq(n)[i] != '}' by {
            if i < hex_seq(n / 16).len() {
                assert(hex_seq(n)[i] == hex_seq(n / 16)[i]);
            } else {
                assert(hex_seq(n)[i] == hex_digit(n % 16));
            }
        }
    }
}

/// Reading back the numeral for `n` yields `n` again.
pub proof fn lemma_hex_round_trip(n: nat)
    ensures
        hex_val(hex_seq(n)) == n,
    decreases n,
{
    if n < 16 {
        let s = hex_seq(n);
        assert(s =~= seq![hex_digit(n)]);
        assert(s.drop_last() =~= Seq::<char>::empty());
        assert(hex_val(s.drop_last()) == 0);
        assert(s.last() == hex_digit(n));
        assert(hex_digit_val(hex_digit(n)) == n);
        assert(hex_val(s) == n);
    } else {
        lemma_hex_round_trip(n / 16);
        let s = hex_seq(n);
        lemma_hex_seq_wf(n / 16);
        assert(s.drop_last() =~= hex_seq(n / 16));
        assert(s.last() == hex_digit(n % 16));
        assert(hex_digit_val(hex_digit(n % 16)) == n % 16);
        assert((n / 16) * 16 + n % 16 == n) by (nonlinear_arith);
        assert(hex_val(s) == n);
    }
}

/// The digit character for a value below 16, as executable code.
pub(crate) fn hex_digit_char(d: u32) -> (c: char)
    requires
        d < 16,
    ensures
        c == hex_digit(d as nat),
{
    if d == 0 {
        '0'
    } else if d == 1 {
        '1'
    } else if d == 2 {
        '2'
    } else if d == 3 {
        '3'
    } else if d == 4 {
        '4'
    } else if d == 5 {
        '5'
    } else if d == 6 {
        '6'
    } else if d == 7 {
        '7'
    } else if d == 8 {
        '8'
    } else if d == 9 {
        '9'
    } else if d == 10 {
        'a'
    } else if d == 11 {
        'b'
    } else if d == 12 {
        'c'
    } else if d == 13 {
        'd'
    } else if d == 14 {
        'e'
    } else {
        'f'
    }
}

/// Appends the numeral for `n` to `out`.
pub(crate) fn push_hex_digits(n: u32, out: &mut Vec<char>)
    ensures
        final(out)@ == old(out)@ + hex_seq(n as nat),
    decreases n,
{
    if n < 16 {
        out.push(hex_digit_char(n));
        assert(out@ =~= old(out)@ + hex_seq(n as nat));
    } else {
        push_hex_digits(n / 16, out);
        out.push(hex_digit_char(n % 16));
        assert(out@ =~= old(out)@ + hex_seq(n as nat));
    }
}

} // verus!
