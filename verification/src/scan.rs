//! The escape-aware scanner: the single-flag separator test, the
//! escaped-position query, and splitting that is never fooled by an escaped
//! separator.

use vstd::prelude::*;

use crate::config::CharPred;
use crate::config::Escape;
use vstd::string::StrSliceExecFns;

verus! {

/// One step of the scan: given the current "escaped" flag and the next
/// character, whether that character is a split point, and the new flag.
/// The escape character seen unescaped sets the flag and is never a
/// separator; a separator seen unescaped is a split point; every other
/// character, and any character seen escaped, is data and clears the flag.
pub open spec fn sep_step(escape_char: char, sep: char, esc: bool, c: char) -> (bool, bool) {
    if c == escape_char {
        (false, !esc)
    } else if c == sep {
        (!esc, false)
    } else {
        (false, false)
    }
}

/// Whether the character at position `i` of `s` is escaped: preceded by an
/// odd-length contiguous run of the escape character.
pub open spec fn escaped_at(escape_char: char, s: Seq<char>, i: int) -> bool
    decreases i,
{
    if 0 < i <= s.len() && s[i - 1] == escape_char {
        !escaped_at(escape_char, s, i - 1)
    } else {
        false
    }
}

/// The segments of `s` from position `i` on, scanning with flag `esc`, the
/// current segment having begun at `start`.
pub open spec fn split_from(
    escape_char: char,
    sep: char,
    s: Seq<char>,
    i: int,
    esc: bool,
    start: int,
) -> Seq<Seq<char>>
    decreases s.len() - i,
{
    if i < 0 || i >= s.len() {
        seq![s.subrange(start, s.len() as int)]
    } else {
        let st = sep_step(escape_char, sep, esc, s[i]);
        if st.0 {
            seq![s.subrange(start, i)] + split_from(escape_char, sep, s, i + 1, st.1, i + 1)
        } else {
            split_from(escape_char, sep, s, i + 1, st.1, start)
        }
    }
}

/// The segments of `s` between unescaped separators; escape sequences are
/// kept verbatim inside each segment.
pub open spec fn split_all(escape_char: char, sep: char, s: Seq<char>) -> Seq<Seq<char>> {
    split_from(escape_char, sep, s, 0, false, 0)
}

/// As [`split_from`], but producing at most `left` further segments: once a
/// single segment remains to be produced, the rest of `s` is taken whole.
pub open spec fn splitn_from(
    escape_char: char,
    sep: char,
    s: Seq<char>,
    i: int,
    esc: bool,
    start: int,
    left: nat,
) -> Seq<Seq<char>>
    decreases s.len() - i,
{
    if i < 0 || i >= s.len() || left <= 1 {
        seq![s.subrange(start, s.len() as int)]
    } else {
        let st = sep_step(escape_char, sep, esc, s[i]);
        if st.0 {
            seq![s.subrange(start, i)] + splitn_from(
                escape_char,
                sep,
                s,
                i + 1,
                st.1,
                i + 1,
                (left - 1) as nat,
            )
        } else {
            splitn_from(escape_char, sep, s, i + 1, st.1, start, left)
        }
    }
}

/// At most `n` segments of `s` between unescaped separators: the first
/// `n - 1` as in [`split_all`], the remainder taken whole as the last.
pub open spec fn splitn_all(escape_char: char, sep: char, s: Seq<char>, n: nat) -> Seq<
    Seq<char>,
> {
    if n == 0 {
        Seq::empty()
    } else {
        splitn_from(escape_char, sep, s, 0, false, 0, n)
    }
}

/// The separator test threaded through a scan: updates the "escaped" flag
/// for the character `c` and returns whether `c` is an unescaped separator.
pub fn is_sep(esc: &mut bool, escape_char: char, c: char, sep: char) -> (r: bool)
    ensures
        r == sep_step(escape_char, sep, *old(esc), c).0,
        *final(esc) == sep_step(escape_char, sep, *old(esc), c).1,
{
    if c == escape_char {
        *esc = !*esc;
        false
    } else if c == sep {
        let r = !*esc;
        *esc = false;
        r
    } else {
        *esc = false;
        false
    }
}

impl<P: CharPred> Escape<P> {
    /// True when the character at position `i` (in characters) is escaped:
    /// preceded by an odd-length run of the escape character.  Positions
    /// past the end of the string are reported as escaped, the conservative
    /// answer.
    #[verifier::loop_isolation(false)]
    pub fn is_escaped(&self, s: &str, i: usize) -> (r: bool)
        ensures
            r == (i > s@.len() || escaped_at(self@.escape_char, s@, i as int)),
    {
        let ec = self.get_escape_char();
        let n = s.unicode_len();
        if i > n {
            return true;
        }
        let mut j: usize = i;
        let mut res = false;
        while j > 0 && s.get_char(j - 1) == ec
            invariant
                0 <= j <= i,
                escaped_at(self@.escape_char, s@, i as int) == (res != escaped_at(
                    self@.escape_char,
                    s@,
                    j as int,
                )),
            decreases j,
        {
            res = !res;
            j -= 1;
        }
        proof {
            assert(!escaped_at(self@.escape_char, s@, j as int));
        }
        res
    }

    /// Splits the string at unescaped occurrences of `sep` and returns the
    /// segments, escape sequences kept verbatim.
    #[verifier::loop_isolation(false)]
    pub fn split<'a>(&self, s: &'a str, sep: char) -> (r: Vec<&'a str>)
        ensures
            r.deep_view() == split_all(self@.escape_char, sep, s@),
    {
        let ec = self.get_escape_char();
        let n = s.unicode_len();
        let mut out: Vec<&'a str> = Vec::new();
        let mut esc = false;
        let mut start: usize = 0;
        let mut i: usize = 0;
        while i < n
            invariant
                0 <= start <= i <= n,
                split_all(self@.escape_char, sep, s@) == out.deep_view() + split_from(
                    self@.escape_char,
                    sep,
                    s@,
                    i as int,
                    esc,
                    start as int,
                ),
            decreases n - i,
        {
            let ghost out0 = out.deep_view();
            let c = s.get_char(i);
            let b = is_sep(&mut esc, ec, c, sep);
            if b {
                let part = s.substring_char(start, i);
                out.push(part);
                proof {
                    assert(out.deep_view() =~= out0 + seq![part@]);
                    assert((out0 + seq![s@.subrange(start as int, i as int)]) + split_from(
                        self@.escape_char,
                        sep,
                        s@,
                        i + 1,
                        esc,
                        i + 1,
                    ) =~= out0 + (seq![s@.subrange(start as int, i as int)] + split_from(
                        self@.escape_char,
                        sep,
                        s@,
                        i + 1,
                        esc,
                        i + 1,
                    )));
                }
                start = i + 1;
            }
            i += 1;
        }
        let last = s.substring_char(start, n);
        out.push(last);
        proof {
            assert(out.deep_view() =~= split_all(self@.escape_char, sep, s@));
        }
        out
    }

    /// Splits the string into at most `n` segments at unescaped occurrences
    /// of `sep`: the remainder after the first `n - 1` split points stays
    /// whole as the last segment.
    #[verifier::loop_isolation(false)]
    pub fn splitn<'a>(&self, s: &'a str, n: usize, sep: char) -> (r: Vec<&'a str>)
        ensures
            r.deep_view() == splitn_all(self@.escape_char, sep, s@, n as nat),
    {
        let ec = self.get_escape_char();
        if n == 0 {
            let out: Vec<&'a str> = Vec::new();
            proof {
                assert(out.deep_view() =~= Seq::<Seq<char>>::empty());
            }
            return out;
        }
        let nn = s.unicode_len();
        let mut out: Vec<&'a str> = Vec::new();
        let mut esc = false;
        let mut start: usize = 0;
        let mut i: usize = 0;
        let mut left: usize = n;
        while i < nn && left > 1
            invariant
                0 <= start <= i <= nn,
                1 <= left <= n,
                splitn_all(self@.escape_char, sep, s@, n as nat) == out.deep_view() + splitn_from(
                    self@.escape_char,
                    sep,
                    s@,
                    i as int,
                    esc,
                    start as int,
                    left as nat,
                ),
            decreases nn - i,
        {
            let ghost out0 = out.deep_view();
            let c = s.get_char(i);
            let b = is_sep(&mut esc, ec, c, sep);
            if b {
                let part = s.substring_char(start, i);
                out.push(part);
                proof {
                    assert(out.deep_view() =~= out0 + seq![part@]);
                    assert((out0 + seq![s@.subrange(start as int, i as int)]) + splitn_from(
                        self@.escape_char,
                        sep,
                        s@,
                        i + 1,
                        esc,
                        i + 1,
                        (left - 1) as nat,
                    ) =~= out0 + (seq![s@.subrange(start as int, i as int)] + splitn_from(
                        self@.escape_char,
                        sep,
                        s@,
                        i + 1,
                        esc,
                        i + 1,
                        (left - 1) as nat,
                    )));
                }
                start = i + 1;
                left -= 1;
            }
            i += 1;
        }
        let last = s.substring_char(start, nn);
        out.push(last);
        proof {
            assert(out.deep_view() =~= splitn_all(self@.escape_char, sep, s@, n as nat));
        }
        out
    }
}

} // verus!
