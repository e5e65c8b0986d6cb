//! The mathematical model of an escape configuration, its construction-time
//! invariants, and the first-match lookups into the translation table that
//! both the encoder and the decoder are specified against.

use vstd::prelude::*;

verus! {

/// Mathematical model of an escape configuration: what an [`crate::Escape`]
/// value denotes.
pub ghost struct EscapeModel {
    /// The marker character that introduces an escape sequence.
    pub escape_char: char,
    /// The characters that are escaped when encoding.
    pub escaped: Seq<char>,
    /// The ordered translation table: (original character, mnemonic code).
    pub tr: Seq<(char, Seq<char>)>,
    /// The predicate sending further characters to numeric escapes.
    pub generic: spec_fn(char) -> bool,
}

/// True for characters in the ASCII range.
pub open spec fn is_ascii_char(c: char) -> bool {
    (c as u32) < 128
}

/// A translation code is well formed when it is non-empty, all ASCII, does
/// not begin with the letter that introduces numeric escapes, and does not
/// contain the escape character itself.
pub open spec fn valid_code(escape_char: char, code: Seq<char>) -> bool {
    &&& code.len() > 0
    &&& vstd::utf8::is_ascii_chars(code)
    &&& code[0] != 'u'
    &&& !code.contains(escape_char)
}

/// A translation entry is well formed when its key is escaped, is not the
/// escape character itself, and its code is well formed.
pub open spec fn valid_entry(m: EscapeModel, e: (char, Seq<char>)) -> bool {
    &&& e.0 != m.escape_char
    &&& m.escaped.contains(e.0)
    &&& valid_code(m.escape_char, e.1)
}

/// The construction-time invariants of a configuration: exactly what a
/// successful [`crate::Escape::new`] establishes.
pub open spec fn valid_model(m: EscapeModel) -> bool {
    &&& is_ascii_char(m.escape_char)
    &&& m.escaped.contains(m.escape_char)
    &&& forall|i: int| 0 <= i < m.tr.len() ==> valid_entry(m, #[trigger] m.tr[i])
    &&& forall|i: int, j: int|
        #![trigger m.tr[i], m.tr[j]]
        0 <= i < j < m.tr.len() ==> m.tr[i].0 != m.tr[j].0 && m.tr[i].1 != m.tr[j].1
}

/// The code of the first entry at or after position `k` whose key is `c`,
/// if any.
pub open spec fn find_code_from(tr: Seq<(char, Seq<char>)>, c: char, k: int) -> Option<Seq<char>>
    decreases tr.len() - k,
{
    if k < 0 || k >= tr.len() {
        None
    } else if tr[k].0 == c {
        Some(tr[k].1)
    } else {
        find_code_from(tr, c, k + 1)
    }
}

/// The translation code for `c`: the first entry whose key is `c`, if any.
pub open spec fn find_code(tr: Seq<(char, Seq<char>)>, c: char) -> Option<Seq<char>> {
    find_code_from(tr, c, 0)
}

/// The first entry at or after position `k` whose code is a prefix of `s`,
/// if any.
pub open spec fn match_code_from(tr: Seq<(char, Seq<char>)>, s: Seq<char>, k: int) -> Option<
    (char, Seq<char>),
>
    decreases tr.len() - k,
{
    if k < 0 || k >= tr.len() {
        None
    } else if tr[k].1.is_prefix_of(s) {
        Some(tr[k])
    } else {
        match_code_from(tr, s, k + 1)
    }
}

/// The entry the decoder picks after an escape character: the first whose
/// code is a prefix of the remaining input, if any.
pub open spec fn match_code(tr: Seq<(char, Seq<char>)>, s: Seq<char>) -> Option<
    (char, Seq<char>),
> {
    match_code_from(tr, s, 0)
}

/// A matched entry is an entry of the table, and its code is a prefix of
/// the input.
pub proof fn lemma_match_code_is_entry(tr: Seq<(char, Seq<char>)>, s: Seq<char>, k: int)
    requires
        match_code_from(tr, s, k) is Some,
    ensures
        exists|i: int|
            0 <= i < tr.len() && tr[i] == match_code_from(tr, s, k)->Some_0,
        (match_code_from(tr, s, k)->Some_0).1.is_prefix_of(s),
    decreases tr.len() - k,
{
    if 0 <= k < tr.len() {
        if tr[k].1.is_prefix_of(s) {
            assert(tr[k] == match_code_from(tr, s, k)->Some_0);
        } else {
            lemma_match_code_is_entry(tr, s, k + 1);
        }
    }
}

} // verus!
