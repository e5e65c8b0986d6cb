//! The engine's laws: encoding and decoding are inverses, and both are the
//! identity on text that needs no work.

use vstd::prelude::*;

use crate::decode::find_brace_from;
use crate::decode::is_scalar_val;
use crate::decode::lemma_find_brace_at;
use crate::decode::parse_numeric;
use crate::decode::unescape_all;
use crate::encode::escape_all;
use crate::encode::escape_one;
use crate::hex::hex_seq;
use crate::hex::hex_val;
use crate::hex::lemma_hex_round_trip;
use crate::hex::lemma_hex_seq_wf;
use crate::model::find_code;
use crate::model::find_code_from;
use crate::model::match_code;
use crate::model::match_code_from;
use crate::model::valid_code;
use crate::model::valid_entry;
use crate::model::valid_model;
use crate::model::EscapeModel;

verus! {

/// No translation code is a prefix of another (nor equal to another, which
/// validity already rules out).
pub open spec fn prefix_free(tr: Seq<(char, Seq<char>)>) -> bool {
    forall|i: int, j: int|
        #![trigger tr[i], tr[j]]
        0 <= i < tr.len() && 0 <= j < tr.len() && i != j ==> !tr[i].1.is_prefix_of(tr[j].1)
}

/// Characters that are escaped literally (escaped but without a translation
/// code) cannot be mistaken for the start of a code or of a numeric escape:
/// no code begins with such a character, and the letter that introduces
/// numeric escapes is not among them.
pub open spec fn literal_safe(m: EscapeModel) -> bool {
    forall|c: char|
        #![trigger m.escaped.contains(c)]
        m.escaped.contains(c) && find_code(m.tr, c) is None ==> c != 'u' && (forall|i: int|
            0 <= i < m.tr.len() ==> (#[trigger] m.tr[i]).1[0] != c)
}

/// The conditions under which decoding cannot misread encoded text: the
/// codes are prefix-free, and literally escaped characters are unambiguous.
pub open spec fn unambiguous(m: EscapeModel) -> bool {
    prefix_free(m.tr) && literal_safe(m)
}

proof fn lemma_prefix_of_concat(a: Seq<char>, b: Seq<char>, t: Seq<char>)
    requires
        a.is_prefix_of(b + t),
    ensures
        a.len() <= b.len() ==> a.is_prefix_of(b),
        a.len() > b.len() ==> b.is_prefix_of(a),
{
    if a.len() <= b.len() {
        assert forall|k: int| 0 <= k < a.len() implies a[k] == b[k] by {
            assert(a[k] == (b + t).subrange(0, a.len() as int)[k]);
        }
        assert(a =~= b.subrange(0, a.len() as int));
    } else {
        assert forall|k: int| 0 <= k < b.len() implies b[k] == a[k] by {
            assert(a[k] == (b + t).subrange(0, a.len() as int)[k]);
        }
        assert(b =~= a.subrange(0, b.len() as int));
    }
}

proof fn lemma_self_prefix(a: Seq<char>, t: Seq<char>)
    ensures
        a.is_prefix_of(a + t),
{
    assert(a =~= (a + t).subrange(0, a.len() as int));
}

proof fn lemma_match_code_until(tr: Seq<(char, Seq<char>)>, s: Seq<char>, k: int, idx: int)
    requires
        0 <= k <= idx <= tr.len(),
        forall|j: int| k <= j < idx ==> !(#[trigger] tr[j]).1.is_prefix_of(s),
    ensures
        match_code_from(tr, s, k) == match_code_from(tr, s, idx),
    decreases idx - k,
{
    if k < idx {
        lemma_match_code_until(tr, s, k + 1, idx);
    }
}

proof fn lemma_find_code_entry(tr: Seq<(char, Seq<char>)>, c: char, k: int)
    requires
        0 <= k,
        find_code_from(tr, c, k) is Some,
    ensures
        exists|idx: int|
            k <= idx < tr.len() && (#[trigger] tr[idx]).0 == c && tr[idx].1 == find_code_from(
                tr,
                c,
                k,
            )->Some_0 && (forall|j: int| k <= j < idx ==> (#[trigger] tr[j]).0 != c),
    decreases tr.len() - k,
{
    if k < tr.len() && tr[k].0 != c {
        lemma_find_code_entry(tr, c, k + 1);
        let idx = choose|idx: int|
            k + 1 <= idx < tr.len() && (#[trigger] tr[idx]).0 == c && tr[idx].1 == find_code_from(
                tr,
                c,
                k + 1,
            )->Some_0 && (forall|j: int| k + 1 <= j < idx ==> (#[trigger] tr[j]).0 != c);
        assert(k <= idx < tr.len() && tr[idx].0 == c && tr[idx].1 == find_code_from(
            tr,
            c,
            k,
        )->Some_0 && (forall|j: int| k <= j < idx ==> (#[trigger] tr[j]).0 != c));
    }
}

/// Decoding the encoding of one character, followed by any tail, yields
/// that character followed by the decoding of the tail.
proof fn lemma_unescape_one(m: EscapeModel, c: char, t: Seq<char>)
    requires
        valid_model(m),
        unambiguous(m),
    ensures
        unescape_all(m, escape_one(m, c) + t) == seq![c] + unescape_all(m, t),
{
    let ec = m.escape_char;
    let tr = m.tr;
    let e = escape_one(m, c);
    let s = e + t;
    if m.escaped.contains(c) {
        match find_code(tr, c) {
            Some(code) => {
                lemma_find_code_entry(tr, c, 0);
                let idx = choose|idx: int|
                    0 <= idx < tr.len() && (#[trigger] tr[idx]).0 == c && tr[idx].1
                        == find_code_from(tr, c, 0)->Some_0 && (forall|j: int|
                        0 <= j < idx ==> (#[trigger] tr[j]).0 != c);
                assert(valid_entry(m, tr[idx]));
                assert(code.len() > 0);
                assert(s[0] == ec);
                assert(s.len() >= 2);
                let rest = s.drop_first();
                assert(rest =~= code + t);
                assert forall|j: int| 0 <= j < idx implies !(#[trigger] tr[j]).1.is_prefix_of(
                    rest,
                ) by {
                    if tr[j].1.is_prefix_of(rest) {
                        lemma_prefix_of_concat(tr[j].1, code, t);
                        assert(tr[idx].1 == code);
                    }
                }
                lemma_match_code_until(tr, rest, 0, idx);
                lemma_self_prefix(code, t);
                assert(tr[idx].1.is_prefix_of(rest));
                assert(match_code(tr, rest) == Some(tr[idx]));
                assert(tr[idx] == (c, code));
                assert(rest.skip(code.len() as int) =~= t);
                assert(unescape_all(m, s) == seq![c] + unescape_all(m, t));
            },
            None => {
                assert(s[0] == ec);
                assert(s.len() == 2 + t.len());
                let rest = s.drop_first();
                assert(rest =~= seq![c] + t);
                assert(rest[0] == c);
                assert(c != 'u');
                assert forall|j: int| 0 <= j < tr.len() implies !(#[trigger] tr[j]).1.is_prefix_of(
                    rest,
                ) by {
                    assert(valid_entry(m, tr[j]));
                    if tr[j].1.is_prefix_of(rest) {
                        assert(tr[j].1[0] == rest.subrange(0, tr[j].1.len() as int)[0]);
                        assert(tr[j].1[0] == c);
                    }
                }
                lemma_match_code_until(tr, rest, 0, tr.len() as int);
                assert(match_code(tr, rest) is None);
                assert(parse_numeric(rest) is None);
                assert(rest.skip(1) =~= t);
                assert(unescape_all(m, s) == seq![c] + unescape_all(m, t));
            },
        }
    } else if (m.generic)(c) {
        let cp = c as u32;
        let hx = hex_seq(cp as nat);
        let hl = hx.len() as int;
        lemma_hex_seq_wf(cp as nat);
        assert(e =~= seq![ec, 'u', '{'] + hx + seq!['}']);
        assert(s[0] == ec);
        assert(s.len() == 4 + hl + t.len());
        let rest = s.drop_first();
        assert(rest =~= seq!['u', '{'] + hx + seq!['}'] + t);
        assert(rest[0] == 'u');
        assert(rest[1] == '{');
        assert forall|j: int| 0 <= j < tr.len() implies !(#[trigger] tr[j]).1.is_prefix_of(
            rest,
        ) by {
            assert(valid_entry(m, tr[j]));
            if tr[j].1.is_prefix_of(rest) {
                assert(tr[j].1[0] == rest.subrange(0, tr[j].1.len() as int)[0]);
                assert(tr[j].1[0] == 'u');
            }
        }
        lemma_match_code_until(tr, rest, 0, tr.len() as int);
        assert(match_code(tr, rest) is None);
        assert(rest[2 + hl] == '}');
        assert forall|w: int| 2 <= w < 2 + hl implies rest[w] != '}' by {
            assert(rest[w] == hx[w - 2]);
        }
        lemma_find_brace_at(rest, 2, 2 + hl);
        let digits = rest.subrange(2, 2 + hl);
        assert(digits =~= hx);
        lemma_hex_round_trip(cp as nat);
        assert(hex_val(digits) == cp as nat);
        vstd::utf8::char_is_scalar(c);
        assert(is_scalar_val(hex_val(digits)));
        assert(parse_numeric(rest) == Some((2 + hl + 1, (cp as u32) as char)));
        vstd::utf8::char_u32_cast(c, cp);
        assert((cp as u32) as char == c);
        assert(rest.skip(2 + hl + 1) =~= t);
        assert(unescape_all(m, s) == seq![c] + unescape_all(m, t));
    } else {
        assert(c != ec);
        assert(e =~= seq![c]);
        assert(s[0] == c);
        assert(s.drop_first() =~= t);
        assert(unescape_all(m, s) == seq![c] + unescape_all(m, t));
    }
}

/// Round trip: decoding the encoding of any text under a valid,
/// unambiguous configuration yields the text again.
pub proof fn lemma_round_trip(m: EscapeModel, s: Seq<char>)
    requires
        valid_model(m),
        unambiguous(m),
    ensures
        unescape_all(m, escape_all(m, s)) == s,
    decreases s.len(),
{
    if s.len() == 0 {
        assert(escape_all(m, s) =~= Seq::<char>::empty());
        assert(unescape_all(m, escape_all(m, s)) =~= s);
    } else {
        lemma_unescape_one(m, s[0], escape_all(m, s.drop_first()));
        lemma_round_trip(m, s.drop_first());
        assert(seq![s[0]] + s.drop_first() =~= s);
    }
}

/// No-op encoding: text in which no character is escaped and no character
/// satisfies the generic predicate is returned unchanged.
pub proof fn lemma_escape_no_op(m: EscapeModel, s: Seq<char>)
    requires
        forall|i: int|
            0 <= i < s.len() ==> !m.escaped.contains(#[trigger] s[i]) && !(m.generic)(s[i]),
    ensures
        escape_all(m, s) == s,
    decreases s.len(),
{
    if s.len() == 0 {
        assert(escape_all(m, s) =~= s);
    } else {
        assert forall|i: int| 0 <= i < s.drop_first().len() implies !m.escaped.contains(
            #[trigger] s.drop_first()[i],
        ) && !(m.generic)(s.drop_first()[i]) by {
            assert(s.drop_first()[i] == s[i + 1]);
        }
        lemma_escape_no_op(m, s.drop_first());
        assert(escape_one(m, s[0]) =~= seq![s[0]]);
        assert(seq![s[0]] + s.drop_first() =~= s);
    }
}

/// No-op decoding: text that holds no escape character is returned
/// unchanged.
pub proof fn lemma_unescape_no_op(m: EscapeModel, s: Seq<char>)
    requires
        forall|i: int| 0 <= i < s.len() ==> #[trigger] s[i] != m.escape_char,
    ensures
        unescape_all(m, s) == s,
    decreases s.len(),
{
    if s.len() == 0 {
        assert(unescape_all(m, s) =~= s);
    } else {
        assert forall|i: int|
            0 <= i < s.drop_first().len() implies #[trigger] s.drop_first()[i]
            != m.escape_char by {
            assert(s.drop_first()[i] == s[i + 1]);
        }
        lemma_unescape_no_op(m, s.drop_first());
        assert(seq![s[0]] + s.drop_first() =~= s);
    }
}

} // verus!
