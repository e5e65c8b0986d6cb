//! The decoder: what unescaping a text means, and the executable decoding
//! proved to produce exactly that.  Decoding is total: malformed escape
//! sequences fall back to literal pass-through rather than failing.

use vstd::prelude::*;

use crate::config::CharPred;
use crate::config::Escape;
use crate::ext::string_from_chars;
use crate::hex::all_hex_digits;
use crate::hex::hex_digit_val;
use crate::hex::hex_val;
use crate::hex::is_hex_digit;
use crate::model::match_code;
use crate::model::match_code_from;
use crate::model::lemma_match_code_is_entry;
use crate::model::EscapeModel;
use vstd::string::StrSliceExecFns;
use vstd::string::StringExecFns;

verus! {

/// The first position at or after `k` holding a closing brace, or -1 when
/// there is none.
pub open spec fn find_brace_from(s: Seq<char>, k: int) -> int
    decreases s.len() - k,
{
    if k < 0 || k >= s.len() {
        -1
    } else if s[k] == '}' {
        k
    } else {
        find_brace_from(s, k + 1)
    }
}

/// What the brace search returns: the first closing brace at or after `k`,
/// or -1 when none follows.
pub proof fn lemma_find_brace_from(s: Seq<char>, k: int)
    requires
        0 <= k,
    ensures
        find_brace_from(s, k) == -1 ==> (forall|m: int| k <= m < s.len() ==> s[m] != '}'),
        find_brace_from(s, k) != -1 ==> k <= find_brace_from(s, k) < s.len() && s[find_brace_from(
            s,
            k,
        )] == '}' && (forall|m: int| k <= m < find_brace_from(s, k) ==> s[m] != '}'),
    decreases s.len() - k,
{
    if k < s.len() && s[k] != '}' {
        lemma_find_brace_from(s, k + 1);
    }
}

/// The brace search finds exactly the first closing brace.
pub proof fn lemma_find_brace_at(s: Seq<char>, k: int, j: int)
    requires
        0 <= k <= j < s.len(),
        s[j] == '}',
        forall|m: int| k <= m < j ==> s[m] != '}',
    ensures
        find_brace_from(s, k) == j,
{
    lemma_find_brace_from(s, k);
}

/// True of the numeric values that are Unicode scalar values: the values a
/// numeric escape may denote.
pub open spec fn is_scalar_val(n: nat) -> bool {
    n < 0xd800 || (0xe000 <= n && n <= 0x10ffff)
}

/// Reading a numeric escape at the head of `s` (the text just after an
/// escape character): `Some((consumed, c))` when `s` starts with `u{`,
/// a closing brace follows, and the characters between are a non-empty
/// hexadecimal numeral denoting the scalar value of `c`.
pub open spec fn parse_numeric(s: Seq<char>) -> Option<(int, char)> {
    if s.len() >= 2 && s[0] == 'u' && s[1] == '{' {
        let j = find_brace_from(s, 2);
        if j >= 0 {
            let digits = s.subrange(2, j);
            if digits.len() > 0 && all_hex_digits(digits) && is_scalar_val(hex_val(digits)) {
                Some((j + 1, (hex_val(digits) as u32) as char))
            } else {
                None
            }
        } else {
            None
        }
    } else {
        None
    }
}

/// The decoding of a text.  A character other than the escape character is
/// copied.  The escape character is consumed, and what follows is resolved
/// by the first applicable rule: a translation code of the table (first
/// structural match in table order) yields its key; a numeric escape yields
/// its code point; otherwise the single following character is copied.  An
/// escape character at the very end is consumed silently.
pub open spec fn unescape_all(m: EscapeModel, s: Seq<char>) -> Seq<char>
    decreases s.len(),
    via unescape_all_decreases
{
    if s.len() == 0 {
        Seq::empty()
    } else if s[0] != m.escape_char {
        seq![s[0]] + unescape_all(m, s.drop_first())
    } else if s.len() == 1 {
        Seq::empty()
    } else {
        let rest = s.drop_first();
        match match_code(m.tr, rest) {
            Some(e) => seq![e.0] + unescape_all(m, rest.skip(e.1.len() as int)),
            None => match parse_numeric(rest) {
                Some(q) => seq![q.1] + unescape_all(m, rest.skip(q.0)),
                None => seq![rest[0]] + unescape_all(m, rest.skip(1)),
            },
        }
    }
}

#[via_fn]
proof fn unescape_all_decreases(m: EscapeModel, s: Seq<char>) {
    if s.len() > 1 && s[0] == m.escape_char {
        let rest = s.drop_first();
        if match_code(m.tr, rest) is Some {
            lemma_match_code_is_entry(m.tr, rest, 0);
        } else if parse_numeric(rest) is Some {
            lemma_find_brace_from(rest, 2);
        }
    }
}

/// True when `code` occurs at position `pos` of `s`.
#[verifier::loop_isolation(false)]
fn starts_with_at(s: &str, pos: usize, code: &str) -> (r: bool)
    requires
        pos <= s@.len(),
    ensures
        r == code@.is_prefix_of(s@.skip(pos as int)),
{
    let n = s.unicode_len();
    let cl = code.unicode_len();
    if cl > n - pos {
        return false;
    }
    let mut k: usize = 0;
    while k < cl
        invariant
            0 <= k <= cl,
            forall|t: int| 0 <= t < k ==> code@[t] == s@[pos + t],
        decreases cl - k,
    {
        if code.get_char(k) != s.get_char(pos + k) {
            proof {
                if code@.is_prefix_of(s@.skip(pos as int)) {
                    assert(code@[k as int] == s@.skip(pos as int).subrange(
                        0,
                        code@.len() as int,
                    )[k as int]);
                }
            }
            return false;
        }
        k += 1;
    }
    proof {
        assert(code@ =~= s@.skip(pos as int).subrange(0, code@.len() as int));
    }
    true
}

/// The value of one hexadecimal digit character, if it is one.
fn hex_char_val(c: char) -> (r: Option<u32>)
    ensures
        r is Some <==> is_hex_digit(c),
        r matches Some(v) ==> v == hex_digit_val(c) && v < 16,
{
    let u = c as u32;
    if 48 <= u && u <= 57 {
        Some(u - 48)
    } else if 97 <= u && u <= 102 {
        Some(u - 97 + 10)
    } else if 65 <= u && u <= 70 {
        Some(u - 65 + 10)
    } else {
        None
    }
}

/// Reads a numeric escape at position `pos` of `s` (the position just after
/// an escape character).
#[verifier::loop_isolation(false)]
fn parse_numeric_at(s: &str, pos: usize) -> (r: Option<(usize, char)>)
    requires
        pos <= s@.len(),
    ensures
        ({
            let pn = parse_numeric(s@.skip(pos as int));
            &&& (r is Some <==> pn is Some)
            &&& (r matches Some(p) ==> pn matches Some(q) && p.0 as int == q.0 && p.1 == q.1
                && p.0 <= s@.len() - pos)
        }),
{
    let ghost rest = s@.skip(pos as int);
    let n = s.unicode_len();
    if n - pos < 2 {
        return None;
    }
    if s.get_char(pos) != 'u' {
        return None;
    }
    if s.get_char(pos + 1) != '{' {
        return None;
    }
    let mut j: usize = pos + 2;
    while j < n && s.get_char(j) != '}'
        invariant
            pos + 2 <= j <= n,
            forall|m: int| pos + 2 <= m < j ==> s@[m] != '}',
        decreases n - j,
    {
        j += 1;
    }
    if j == n {
        proof {
            lemma_find_brace_from(rest, 2);
        }
        return None;
    }
    proof {
        assert(rest[j - pos] == '}');
        lemma_find_brace_at(rest, 2, j - pos);
    }
    if j == pos + 2 {
        return None;
    }
    let ghost digits = rest.subrange(2, j - pos);
    let mut k: usize = pos + 2;
    let mut acc: u32 = 0;
    let mut big = false;
    while k < j
        invariant
            pos + 2 <= k <= j,
            forall|t: int| 0 <= t < k - pos - 2 ==> is_hex_digit(#[trigger] digits[t]),
            !big ==> acc == hex_val(digits.take(k - pos - 2)) && acc <= 0x10ffff,
            big ==> hex_val(digits.take(k - pos - 2)) > 0x10ffff,
        decreases j - k,
    {
        let c = s.get_char(k);
        proof {
            assert(digits[k - pos - 2] == s@[k as int]);
        }
        match hex_char_val(c) {
            None => {
                proof {
                    assert(!all_hex_digits(digits));
                }
                return None;
            },
            Some(v) => {
                proof {
                    let t = k - pos - 2;
                    assert(digits.take(t + 1).drop_last() =~= digits.take(t));
                    assert(digits.take(t + 1).last() == digits[t]);
                }
                if big {
                    proof {
                        let t = k - pos - 2;
                        assert(hex_val(digits.take(t + 1)) == hex_val(digits.take(t)) * 16
                            + hex_digit_val(digits[t]));
                    }
                } else {
                    let next = acc * 16 + v;
                    if next > 0x10ffff {
                        big = true;
                    } else {
                        acc = next;
                    }
                }
            },
        }
        k += 1;
    }
    proof {
        assert(digits.take(j - pos - 2) =~= digits);
    }
    if big {
        return None;
    }
    if 0xd800 <= acc && acc <= 0xdfff {
        return None;
    }
    proof {
        assert(vstd::utf8::is_scalar(acc));
        assert(is_scalar_val(acc as nat));
    }
    let ch = char::from_u32(acc).unwrap();
    proof {
        vstd::utf8::char_u32_cast(ch, acc);
    }
    Some((j - pos + 1, ch))
}

impl<P: CharPred> Escape<P> {
    /// The decoder's table lookup: the first entry whose code occurs at
    /// position `pos` of `s`, with the length of its code.
    #[verifier::loop_isolation(false)]
    fn try_match_code(&self, s: &str, pos: usize) -> (r: Option<(char, usize)>)
        requires
            pos <= s@.len(),
        ensures
            ({
                let mc = match_code(self@.tr, s@.skip(pos as int));
                &&& (r is Some <==> mc is Some)
                &&& (r matches Some(p) ==> mc matches Some(e) && p.0 == e.0 && p.1 as nat
                    == e.1.len() && p.1 <= s@.len() - pos)
            }),
    {
        let n = self.tr_len();
        let mut j: usize = 0;
        while j < n
            invariant
                0 <= j <= n,
                match_code(self@.tr, s@.skip(pos as int)) == match_code_from(
                    self@.tr,
                    s@.skip(pos as int),
                    j as int,
                ),
            decreases n - j,
        {
            let code = self.tr_code(j);
            if starts_with_at(s, pos, code) {
                return Some((self.tr_key(j), code.unicode_len()));
            }
            j += 1;
        }
        None
    }

    /// The decoding of a text, as a character vector.
    #[verifier::loop_isolation(false)]
    fn unescape_chars(&self, s: &str) -> (out: Vec<char>)
        ensures
            out@ == unescape_all(self@, s@),
    {
        let ec = self.get_escape_char();
        let n = s.unicode_len();
        let mut out: Vec<char> = Vec::new();
        let mut i: usize = 0;
        proof {
            assert(s@.skip(0) =~= s@);
            assert(Seq::<char>::empty() + unescape_all(self@, s@) =~= unescape_all(self@, s@));
        }
        while i < n
            invariant
                0 <= i <= n,
                unescape_all(self@, s@) == out@ + unescape_all(self@, s@.skip(i as int)),
            decreases n - i,
        {
            let ghost rem = s@.skip(i as int);
            let ghost out0 = out@;
            let c = s.get_char(i);
            proof {
                assert(rem[0] == s@[i as int]);
            }
            if c != ec {
                out.push(c);
                proof {
                    assert(rem.drop_first() =~= s@.skip(i + 1));
                    assert((out0 + seq![c]) + unescape_all(self@, s@.skip(i + 1)) =~= out0 + (
                    seq![c] + unescape_all(self@, s@.skip(i + 1))));
                }
                i += 1;
            } else if i + 1 == n {
                proof {
                    assert(unescape_all(self@, rem) =~= Seq::<char>::empty());
                    assert(s@.skip(i + 1) =~= Seq::<char>::empty());
                    assert(out0 + Seq::<char>::empty() =~= out0);
                }
                i += 1;
            } else {
                let ghost rest = s@.skip(i + 1);
                proof {
                    assert(rem.drop_first() =~= rest);
                }
                match self.try_match_code(s, i + 1) {
                    Some(p) => {
                        let ghost e = match_code(self@.tr, rest)->Some_0;
                        out.push(p.0);
                        proof {
                            assert(rest.skip(e.1.len() as int) =~= s@.skip(
                                i + 1 + e.1.len() as int,
                            ));
                            assert(unescape_all(self@, rem) == seq![e.0] + unescape_all(
                                self@,
                                s@.skip(i + 1 + e.1.len() as int),
                            ));
                            assert((out0 + seq![p.0]) + unescape_all(
                                self@,
                                s@.skip(i + 1 + p.1 as int),
                            ) =~= out0 + (seq![p.0] + unescape_all(
                                self@,
                                s@.skip(i + 1 + p.1 as int),
                            )));
                        }
                        i = i + 1 + p.1;
                    },
                    None => {
                        match parse_numeric_at(s, i + 1) {
                            Some(p) => {
                                let ghost q = parse_numeric(rest)->Some_0;
                                out.push(p.1);
                                proof {
                                    assert(rest.skip(q.0) =~= s@.skip(i + 1 + q.0));
                                    assert(unescape_all(self@, rem) == seq![q.1] + unescape_all(
                                        self@,
                                        s@.skip(i + 1 + q.0),
                                    ));
                                    assert((out0 + seq![p.1]) + unescape_all(
                                        self@,
                                        s@.skip(i + 1 + p.0 as int),
                                    ) =~= out0 + (seq![p.1] + unescape_all(
                                        self@,
                                        s@.skip(i + 1 + p.0 as int),
                                    )));
                                }
                                i = i + 1 + p.0;
                            },
                            None => {
                                let c2 = s.get_char(i + 1);
                                out.push(c2);
                                proof {
                                    assert(rest[0] == s@[i + 1]);
                                    assert(rest.skip(1) =~= s@.skip(i + 2));
                                    assert(unescape_all(self@, rem) == seq![c2] + unescape_all(
                                        self@,
                                        s@.skip(i + 2),
                                    ));
                                    assert((out0 + seq![c2]) + unescape_all(
                                        self@,
                                        s@.skip(i + 2),
                                    ) =~= out0 + (seq![c2] + unescape_all(self@, s@.skip(i + 2))));
                                }
                                i = i + 2;
                            },
                        }
                    },
                }
            }
        }
        proof {
            assert(s@.skip(n as int) =~= Seq::<char>::empty());
            assert(out@ + unescape_all(self@, Seq::<char>::empty()) =~= out@);
        }
        out
    }

    /// Unescapes the string and appends the result to the buffer.
    pub fn unescape_to(&self, s: &str, buf: &mut String)
        ensures
            final(buf)@ == old(buf)@ + unescape_all(self@, s@),
    {
        let out = self.unescape_chars(s);
        let tail = string_from_chars(&out);
        buf.append(tail.as_str());
    }

    /// Unescapes the string.  When the input holds no escape character the
    /// result equals the input (see [`crate::lemma_unescape_no_op`]).
    pub fn unescape(&self, s: &str) -> (r: String)
        ensures
            r@ == unescape_all(self@, s@),
    {
        let out = self.unescape_chars(s);
        string_from_chars(&out)
    }
}

} // verus!
