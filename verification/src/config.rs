//! The escape configuration: its executable representation, the character
//! predicate capability, and validated construction that rejects every
//! malformed configuration with a distinct error.

use vstd::prelude::*;

use compact_str::CompactString;

use crate::ext::compact_chars;
use crate::ext::compact_new;
use crate::model::is_ascii_char;
use crate::model::valid_entry;
use crate::model::valid_model;
use crate::model::EscapeModel;
use vstd::string::StrSliceExecFns;

verus! {

/// Why a configuration was rejected at construction.
#[derive(Debug, PartialEq, Eq, Structural)]
pub enum ConfigError {
    /// The escape character is not ASCII.
    NonAsciiEscapeChar,
    /// The escaped set does not contain the escape character.
    EscapeCharNotEscaped,
    /// A translation key is the escape character itself.
    TranslatesEscapeChar,
    /// A translation code is empty.
    EmptyTarget,
    /// A translation code is not ASCII.
    NonAsciiTarget,
    /// A translation code starts with the letter that introduces numeric
    /// escapes.
    TargetStartsWithU,
    /// A translation code contains the escape character.
    TargetContainsEscape,
    /// A translation key is not in the escaped set.
    KeyNotEscaped,
    /// Two translation entries share a key.
    DuplicateKey,
    /// Two translation entries share a code.
    DuplicateTarget,
}

/// A character predicate handed to the configuration: the capability that
/// decides which characters, beyond the escaped set, get a numeric escape.
pub trait CharPred: Sized {
    /// What the predicate holds of a character.
    spec fn spec_pred(&self, c: char) -> bool;

    /// Decides the predicate for one character.
    fn pred(&self, c: char) -> (r: bool)
        ensures
            r == self.spec_pred(c),
    ;
}

/// The control-character predicate: true for the code points that Unicode
/// classes as control characters.
#[derive(Debug, Clone, Copy)]
pub struct IsControl;

impl CharPred for IsControl {
    open spec fn spec_pred(&self, c: char) -> bool {
        (c as u32) < 0x20 || (0x7f <= c as u32 && c as u32 <= 0x9f)
    }

    fn pred(&self, c: char) -> (r: bool) {
        let u = c as u32;
        u < 0x20 || (0x7f <= u && u <= 0x9f)
    }
}

/// A validated escape configuration, immutable once constructed.
#[derive(Debug)]
pub struct Escape<P: CharPred> {
    escape_char: char,
    escape: Vec<char>,
    tr: Vec<(char, CompactString)>,
    generic: Option<P>,
}

/// The predicate an optional capability denotes: false everywhere when
/// absent.
pub open spec fn gen_of<P: CharPred>(g: Option<P>) -> spec_fn(char) -> bool {
    match g {
        Some(p) => (|c: char| p.spec_pred(c)),
        None => (|c: char| false),
    }
}

/// The model of a translation-table argument.
pub open spec fn tr_of(tr: Seq<(char, &str)>) -> Seq<(char, Seq<char>)> {
    Seq::new(tr.len(), |i: int| (tr[i].0, tr[i].1@))
}

impl<P: CharPred> View for Escape<P> {
    type V = EscapeModel;

    closed spec fn view(&self) -> EscapeModel {
        EscapeModel {
            escape_char: self.escape_char,
            escaped: self.escape@,
            tr: Seq::new(self.tr@.len(), |i: int| (self.tr@[i].0, compact_chars(self.tr@[i].1))),
            generic: gen_of(self.generic),
        }
    }
}

/// The outcome of checking one translation entry against every other, in
/// the order construction checks them.
pub open spec fn dup_error(tr: Seq<(char, Seq<char>)>, i: int, j: int) -> Option<ConfigError>
    decreases tr.len() - j,
{
    if j < 0 || j >= tr.len() {
        None
    } else if j != i && tr[j].0 == tr[i].0 {
        Some(ConfigError::DuplicateKey)
    } else if j != i && tr[j].1 == tr[i].1 {
        Some(ConfigError::DuplicateTarget)
    } else {
        dup_error(tr, i, j + 1)
    }
}

/// The outcome of checking one translation entry, in the order construction
/// checks it.
pub open spec fn entry_error(
    escape_char: char,
    escaped: Seq<char>,
    tr: Seq<(char, Seq<char>)>,
    i: int,
) -> Option<ConfigError> {
    let c = tr[i].0;
    let s = tr[i].1;
    if c == escape_char {
        Some(ConfigError::TranslatesEscapeChar)
    } else if s.len() == 0 {
        Some(ConfigError::EmptyTarget)
    } else if !vstd::utf8::is_ascii_chars(s) {
        Some(ConfigError::NonAsciiTarget)
    } else if s[0] == 'u' {
        Some(ConfigError::TargetStartsWithU)
    } else if s.contains(escape_char) {
        Some(ConfigError::TargetContainsEscape)
    } else if !escaped.contains(c) {
        Some(ConfigError::KeyNotEscaped)
    } else {
        dup_error(tr, i, 0)
    }
}

/// The outcome of checking the translation entries from position `i` on.
pub open spec fn entries_error(
    escape_char: char,
    escaped: Seq<char>,
    tr: Seq<(char, Seq<char>)>,
    i: int,
) -> Option<ConfigError>
    decreases tr.len() - i,
{
    if i < 0 || i >= tr.len() {
        None
    } else if entry_error(escape_char, escaped, tr, i) is Some {
        entry_error(escape_char, escaped, tr, i)
    } else {
        entries_error(escape_char, escaped, tr, i + 1)
    }
}

/// The first violation construction finds, if any: the checks in the order
/// they are made.
pub open spec fn config_error(
    escape_char: char,
    escaped: Seq<char>,
    tr: Seq<(char, Seq<char>)>,
) -> Option<ConfigError> {
    if !is_ascii_char(escape_char) {
        Some(ConfigError::NonAsciiEscapeChar)
    } else if !escaped.contains(escape_char) {
        Some(ConfigError::EscapeCharNotEscaped)
    } else {
        entries_error(escape_char, escaped, tr, 0)
    }
}

proof fn lemma_dup_error_none(tr: Seq<(char, Seq<char>)>, i: int, j: int)
    requires
        0 <= i < tr.len(),
        0 <= j,
    ensures
        dup_error(tr, i, j) is None <==> (forall|k: int|
            #![trigger tr[k]]
            j <= k < tr.len() && k != i ==> tr[k].0 != tr[i].0 && tr[k].1 != tr[i].1),
    decreases tr.len() - j,
{
    if j < tr.len() {
        lemma_dup_error_none(tr, i, j + 1);
    }
}

proof fn lemma_entries_error_none(
    escape_char: char,
    escaped: Seq<char>,
    tr: Seq<(char, Seq<char>)>,
    i: int,
)
    requires
        0 <= i,
    ensures
        entries_error(escape_char, escaped, tr, i) is None <==> (forall|k: int|
            i <= k < tr.len() ==> entry_error(escape_char, escaped, tr, k) is None),
    decreases tr.len() - i,
{
    if i < tr.len() {
        lemma_entries_error_none(escape_char, escaped, tr, i + 1);
    }
}

/// A configuration is valid exactly when construction finds no violation.
pub proof fn lemma_config_error_none(m: EscapeModel)
    ensures
        config_error(m.escape_char, m.escaped, m.tr) is None <==> valid_model(m),
{
    let ec = m.escape_char;
    let tr = m.tr;
    if is_ascii_char(ec) && m.escaped.contains(ec) {
        lemma_entries_error_none(ec, m.escaped, tr, 0);
        assert forall|i: int| 0 <= i < tr.len() implies (entry_error(ec, m.escaped, tr, i)
            is None <==> (valid_entry(m, tr[i]) && (forall|k: int|
            #![trigger tr[k]]
            0 <= k < tr.len() && k != i ==> tr[k].0 != tr[i].0 && tr[k].1 != tr[i].1))) by {
            lemma_dup_error_none(tr, i, 0);
        }
        if config_error(ec, m.escaped, tr) is None {
            assert forall|i: int, j: int|
                #![trigger tr[i], tr[j]]
                0 <= i < j < tr.len() implies tr[i].0 != tr[j].0 && tr[i].1 != tr[j].1 by {
                assert(entry_error(ec, m.escaped, tr, i) is None);
            }
        } else {
            assert(!valid_model(m));
        }
    }
}

/// True when the slice holds the character.
pub(crate) fn slice_contains_char(s: &[char], c: char) -> (r: bool)
    ensures
        r == s@.contains(c),
{
    let n = s.len();
    let mut i: usize = 0;
    while i < n
        invariant
            0 <= i <= n,
            n == s@.len(),
            forall|k: int| 0 <= k < i ==> s@[k] != c,
        decreases n - i,
    {
        if s[i] == c {
            return true;
        }
        i += 1;
    }
    false
}

/// True when the string holds the character.
pub(crate) fn str_contains_char(s: &str, c: char) -> (r: bool)
    ensures
        r == s@.contains(c),
{
    let n = s.unicode_len();
    let mut i: usize = 0;
    while i < n
        invariant
            0 <= i <= n,
            n == s@.len(),
            forall|k: int| 0 <= k < i ==> s@[k] != c,
        decreases n - i,
    {
        if s.get_char(i) == c {
            return true;
        }
        i += 1;
    }
    false
}

/// True when the two strings hold the same characters.
pub(crate) fn str_eq(a: &str, b: &str) -> (r: bool)
    ensures
        r == (a@ == b@),
{
    let na = a.unicode_len();
    let nb = b.unicode_len();
    if na != nb {
        return false;
    }
    let mut i: usize = 0;
    while i < na
        invariant
            0 <= i <= na,
            na == a@.len(),
            na == b@.len(),
            forall|k: int| 0 <= k < i ==> a@[k] == b@[k],
        decreases na - i,
    {
        if a.get_char(i) != b.get_char(i) {
            return false;
        }
        i += 1;
    }
    assert(a@ =~= b@);
    true
}

impl<P: CharPred> Escape<P> {
    /// The construction-time invariants hold of this configuration's model.
    pub open spec fn wf(&self) -> bool {
        valid_model(self@)
    }

    /// Returns the escape character.
    pub fn get_escape_char(&self) -> (c: char)
        ensures
            c == self@.escape_char,
    {
        self.escape_char
    }

    /// Returns the set of escaped characters.
    pub fn get_escaped(&self) -> (r: &[char])
        ensures
            r@ == self@.escaped,
    {
        self.escape.as_slice()
    }

    /// Returns the translation table.
    pub fn get_tr(&self) -> (r: &[(char, CompactString)])
        ensures
            r@.len() == self@.tr.len(),
            forall|i: int|
                0 <= i < r@.len() ==> (#[trigger] r@[i]).0 == self@.tr[i].0 && compact_chars(
                    r@[i].1,
                ) == self@.tr[i].1,
    {
        self.tr.as_slice()
    }

    /// The number of translation entries.
    pub(crate) fn tr_len(&self) -> (n: usize)
        ensures
            n == self@.tr.len(),
    {
        self.tr.len()
    }

    /// The key of one translation entry.
    pub(crate) fn tr_key(&self, j: usize) -> (c: char)
        requires
            j < self@.tr.len(),
        ensures
            c == self@.tr[j as int].0,
    {
        self.tr[j].0
    }

    /// The code of one translation entry.
    pub(crate) fn tr_code(&self, j: usize) -> (r: &str)
        requires
            j < self@.tr.len(),
        ensures
            r@ == self@.tr[j as int].1,
    {
        crate::ext::compact_as_str(&self.tr[j].1)
    }

    /// Whether the generic predicate holds of a character.
    pub(crate) fn generic_holds(&self, c: char) -> (r: bool)
        ensures
            r == (self@.generic)(c),
    {
        match &self.generic {
            Some(p) => p.pred(c),
            None => false,
        }
    }

    /// Creates a validated configuration.
    ///
    /// `escape` is the set of characters escaped when encoding; it must
    /// contain `escape_char`.  `tr` maps escaped characters to short ASCII
    /// mnemonic codes emitted after `escape_char` in place of the literal
    /// character.  `generic`, if given, is consulted for every character not
    /// otherwise escaped; where it holds, the character is encoded as a
    /// numeric code point.  The first violated invariant, in the order
    /// checked, is reported as the error.
    pub fn new(
        escape_char: char,
        escape: &[char],
        tr: &[(char, &str)],
        generic: Option<P>,
    ) -> (r: Result<Self, ConfigError>)
        ensures
            r is Ok <==> config_error(escape_char, escape@, tr_of(tr@)) is None,
            (r matches Err(e) ==> Some(e) == config_error(escape_char, escape@, tr_of(tr@))),
            (r matches Ok(esc) ==> esc@ == (EscapeModel {
                escape_char,
                escaped: escape@,
                tr: tr_of(tr@),
                generic: gen_of(generic),
            }) && esc.wf()),
    {
        let ghost tv = tr_of(tr@);
        if !((escape_char as u32) < 128) {
            return Err(ConfigError::NonAsciiEscapeChar);
        }
        if !slice_contains_char(escape, escape_char) {
            return Err(ConfigError::EscapeCharNotEscaped);
        }
        let n = tr.len();
        let mut i: usize = 0;
        while i < n
            invariant
                0 <= i <= n,
                n == tr@.len(),
                tv == tr_of(tr@),
                is_ascii_char(escape_char),
                escape@.contains(escape_char),
                entries_error(escape_char, escape@, tv, 0) == entries_error(
                    escape_char,
                    escape@,
                    tv,
                    i as int,
                ),
            decreases n - i,
        {
            let pair = tr[i];
            let c = pair.0;
            let s = pair.1;
            assert(tv[i as int] == (tr@[i as int].0, tr@[i as int].1@));
            if c == escape_char {
                return Err(ConfigError::TranslatesEscapeChar);
            }
            if s.is_empty() {
                return Err(ConfigError::EmptyTarget);
            }
            if !s.is_ascii() {
                return Err(ConfigError::NonAsciiTarget);
            }
            if s.get_char(0) == 'u' {
                return Err(ConfigError::TargetStartsWithU);
            }
            if str_contains_char(s, escape_char) {
                return Err(ConfigError::TargetContainsEscape);
            }
            if !slice_contains_char(escape, c) {
                return Err(ConfigError::KeyNotEscaped);
            }
            assert(entry_error(escape_char, escape@, tv, i as int) == dup_error(tv, i as int, 0));
            let mut j: usize = 0;
            while j < n
                invariant
                    0 <= j <= n,
                    0 <= i < n,
                    n == tr@.len(),
                    tv == tr_of(tr@),
                    is_ascii_char(escape_char),
                    escape@.contains(escape_char),
                    entries_error(escape_char, escape@, tv, 0) == entries_error(
                        escape_char,
                        escape@,
                        tv,
                        i as int,
                    ),
                    entry_error(escape_char, escape@, tv, i as int) == dup_error(tv, i as int, 0),
                    c == tv[i as int].0,
                    s@ == tv[i as int].1,
                    dup_error(tv, i as int, 0) == dup_error(tv, i as int, j as int),
                decreases n - j,
            {
                if j != i {
                    let pair1 = tr[j];
                    assert(tv[j as int] == (tr@[j as int].0, tr@[j as int].1@));
                    if c == pair1.0 {
                        return Err(ConfigError::DuplicateKey);
                    }
                    if str_eq(s, pair1.1) {
                        return Err(ConfigError::DuplicateTarget);
                    }
                }
                j += 1;
            }
            assert(entry_error(escape_char, escape@, tv, i as int) is None);
            i += 1;
        }
        let esc_vec: Vec<char> = vstd::slice::slice_to_vec(escape);
        let mut tr_vec: Vec<(char, CompactString)> = Vec::new();
        let mut k: usize = 0;
        while k < n
            invariant
                0 <= k <= n,
                n == tr@.len(),
                tr_vec@.len() == k,
                forall|m: int|
                    0 <= m < k ==> (#[trigger] tr_vec@[m]).0 == tr@[m].0 && compact_chars(
                        tr_vec@[m].1,
                    ) == tr@[m].1@,
            decreases n - k,
        {
            let pair = tr[k];
            tr_vec.push((pair.0, compact_new(pair.1)));
            k += 1;
        }
        let result = Escape { escape_char, escape: esc_vec, tr: tr_vec, generic };
        proof {
            let m = EscapeModel { escape_char, escaped: escape@, tr: tv, generic: gen_of(generic) };
            assert(result@.tr =~= tv);
            assert(result@ == m);
            lemma_config_error_none(m);
        }
        Ok(result)
    }
}

} // verus!
