//! The encoder: what escaping a text means, and the executable encoding
//! proved to produce exactly that.

use vstd::prelude::*;

use crate::config::slice_contains_char;
use crate::config::CharPred;
use crate::config::Escape;
use crate::ext::string_from_chars;
use crate::hex::hex_seq;
use crate::hex::push_hex_digits;
use crate::model::find_code;
use crate::model::find_code_from;
use crate::model::EscapeModel;
use vstd::string::StrSliceExecFns;
use vstd::string::StringExecFns;

verus! {

/// The encoding of one character: the escape character followed by the
/// character's translation code, or by the character itself when it has
/// none; a numeric code point for characters the generic predicate selects;
/// every other character unchanged.
pub open spec fn escape_one(m: EscapeModel, c: char) -> Seq<char> {
    if m.escaped.contains(c) {
        match find_code(m.tr, c) {
            Some(code) => seq![m.escape_char] + code,
            None => seq![m.escape_char, c],
        }
    } else if (m.generic)(c) {
        seq![m.escape_char, 'u', '{'] + hex_seq(c as u32 as nat) + seq!['}']
    } else {
        seq![c]
    }
}

/// The encoding of a text: each character's encoding, in order.
pub open spec fn escape_all(m: EscapeModel, s: Seq<char>) -> Seq<char>
    decreases s.len(),
{
    if s.len() == 0 {
        Seq::empty()
    } else {
        escape_one(m, s[0]) + escape_all(m, s.drop_first())
    }
}

/// Encoding distributes over concatenation.
pub proof fn lemma_escape_all_concat(m: EscapeModel, a: Seq<char>, b: Seq<char>)
    ensures
        escape_all(m, a + b) == escape_all(m, a) + escape_all(m, b),
    decreases a.len(),
{
    if a.len() == 0 {
        assert(a + b =~= b);
        assert(escape_all(m, a) + escape_all(m, b) =~= escape_all(m, b));
    } else {
        assert((a + b).drop_first() =~= a.drop_first() + b);
        lemma_escape_all_concat(m, a.drop_first(), b);
        assert((a + b)[0] == a[0]);
        assert(escape_one(m, a[0]) + (escape_all(m, a.drop_first()) + escape_all(m, b)) =~= (
        escape_one(m, a[0]) + escape_all(m, a.drop_first())) + escape_all(m, b));
    }
}

/// Extending the text by one character appends that character's encoding.
pub proof fn lemma_escape_all_snoc(m: EscapeModel, s: Seq<char>, i: int)
    requires
        0 <= i < s.len(),
    ensures
        escape_all(m, s.take(i + 1)) == escape_all(m, s.take(i)) + escape_one(m, s[i]),
{
    assert(s.take(i + 1) =~= s.take(i) + seq![s[i]]);
    lemma_escape_all_concat(m, s.take(i), seq![s[i]]);
    assert(seq![s[i]].drop_first() =~= Seq::<char>::empty());
    assert(escape_all(m, seq![s[i]]) == escape_one(m, s[i]) + escape_all(
        m,
        Seq::<char>::empty(),
    ));
    assert(escape_one(m, s[i]) + escape_all(m, Seq::<char>::empty()) =~= escape_one(m, s[i]));
}

impl<P: CharPred> Escape<P> {
    /// Appends the encoding of one character.
    #[verifier::loop_isolation(false)]
    fn escape_push(&self, c: char, out: &mut Vec<char>)
        ensures
            final(out)@ == old(out)@ + escape_one(self@, c),
    {
        let ghost out0 = out@;
        if slice_contains_char(self.get_escaped(), c) {
            out.push(self.get_escape_char());
            let ghost out1 = out@;
            let n = self.tr_len();
            let mut j: usize = 0;
            while j < n
                invariant
                    0 <= j <= n,
                    n == self@.tr.len(),
                    out@ == out1,
                    find_code(self@.tr, c) == find_code_from(self@.tr, c, j as int),
                decreases n - j,
            {
                if self.tr_key(j) == c {
                    let code = self.tr_code(j);
                    let cl = code.unicode_len();
                    let mut k: usize = 0;
                    while k < cl
                        invariant
                            0 <= k <= cl,
                            cl == code@.len(),
                            out@ == out1 + code@.take(k as int),
                        decreases cl - k,
                    {
                        out.push(code.get_char(k));
                        assert(out@ =~= out1 + code@.take(k + 1));
                        k += 1;
                    }
                    assert(code@.take(cl as int) =~= code@);
                    assert(out@ =~= out0 + escape_one(self@, c));
                    return ;
                }
                j += 1;
            }
            out.push(c);
            assert(out@ =~= out0 + escape_one(self@, c));
        } else if self.generic_holds(c) {
            out.push(self.get_escape_char());
            out.push('u');
            out.push('{');
            push_hex_digits(c as u32, out);
            out.push('}');
            assert(out@ =~= out0 + escape_one(self@, c));
        } else {
            out.push(c);
            assert(out@ =~= out0 + escape_one(self@, c));
        }
    }

    /// The encoding of a text, as a character vector.
    #[verifier::loop_isolation(false)]
    fn escape_chars(&self, s: &str) -> (out: Vec<char>)
        ensures
            out@ == escape_all(self@, s@),
    {
        let n = s.unicode_len();
        let mut out: Vec<char> = Vec::new();
        let mut i: usize = 0;
        while i < n
            invariant
                0 <= i <= n,
                n == s@.len(),
                out@ == escape_all(self@, s@.take(i as int)),
            decreases n - i,
        {
            let c = s.get_char(i);
            self.escape_push(c, &mut out);
            proof {
                lemma_escape_all_snoc(self@, s@, i as int);
            }
            i += 1;
        }
        proof {
            assert(s@.take(n as int) =~= s@);
        }
        out
    }

    /// Escapes the string and appends the result to the buffer.
    pub fn escape_to(&self, s: &str, buf: &mut String)
        ensures
            final(buf)@ == old(buf)@ + escape_all(self@, s@),
    {
        let out = self.escape_chars(s);
        let tail = string_from_chars(&out);
        buf.append(tail.as_str());
    }

    /// Escapes the string.  When no character of the input needs escaping
    /// the result equals the input (see [`crate::lemma_escape_no_op`]).
    pub fn escape(&self, s: &str) -> (r: String)
        ensures
            r@ == escape_all(self@, s@),
    {
        let out = self.escape_chars(s);
        string_from_chars(&out)
    }
}

} // verus!
