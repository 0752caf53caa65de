//! Byte-length accounting for the transform: how the UTF-8 byte length of
//! the text relates to the byte lengths of its trimmed form and of its line
//! segments. The rewriter's no-change check compares byte lengths, so these
//! lemmas are what ties that check to the transform's steps.

use vstd::prelude::*;
use vstd::utf8::encode_scalar;
use vstd::utf8::encode_utf8;

use crate::chars::contains_break;
use crate::chars::is_break_char;
use crate::chars::is_space_char;
use crate::segment::split_breaks;
use crate::segment::trim_back;
use crate::segment::trim_front;
use crate::segment::trim_spec;
use crate::segment::lemma_split_breaks_nonempty;

verus! {

/// The length in bytes of the text's UTF-8 encoding.
pub open spec fn byte_len(s: Seq<char>) -> nat {
    encode_utf8(s).len()
}

/// The byte lengths of the segments, summed.
pub open spec fn sum_byte_len(parts: Seq<Seq<char>>) -> nat
    decreases parts.len(),
{
    if parts.len() == 0 {
        0
    } else {
        byte_len(parts[0]) + sum_byte_len(parts.drop_first())
    }
}

/// Byte length distributes over concatenation.
pub proof fn lemma_byte_len_concat(a: Seq<char>, b: Seq<char>)
    ensures
        byte_len(a + b) == byte_len(a) + byte_len(b),
    decreases a.len(),
{
    if a.len() == 0 {
        assert(a + b =~= b);
    } else {
        let t = a.drop_first();
        assert((a + b)[0] == a[0]);
        assert((a + b).drop_first() =~= t + b);
        lemma_byte_len_concat(t, b);
    }
}

/// A character's UTF-8 encoding takes one to four bytes; a line break takes
/// exactly one.
proof fn lemma_scalar_width(c: char)
    ensures
        1 <= encode_scalar(c as u32).len() <= 4,
        is_break_char(c) ==> encode_scalar(c as u32).len() == 1,
{
}

proof fn lemma_trim_front_byte_len(s: Seq<char>)
    ensures
        trim_front(s).len() <= s.len(),
        byte_len(trim_front(s)) + s.len() <= byte_len(s) + trim_front(s).len(),
    decreases s.len(),
{
    if s.len() > 0 && is_space_char(s[0]) {
        lemma_scalar_width(s[0]);
        lemma_trim_front_byte_len(s.drop_first());
    }
}

proof fn lemma_trim_back_byte_len(s: Seq<char>)
    ensures
        trim_back(s).len() <= s.len(),
        byte_len(trim_back(s)) + s.len() <= byte_len(s) + trim_back(s).len(),
    decreases s.len(),
{
    if s.len() > 0 && is_space_char(s.last()) {
        let t = s.drop_last();
        lemma_scalar_width(s.last());
        assert(s =~= t + seq![s.last()]);
        lemma_byte_len_concat(t, seq![s.last()]);
        assert(seq![s.last()].drop_first() =~= Seq::<char>::empty());
        lemma_trim_back_byte_len(t);
    }
}

/// Trimming never lengthens the text, in characters or in bytes; every
/// character it removes takes at least one byte with it.
pub proof fn lemma_trim_byte_len(s: Seq<char>)
    ensures
        trim_spec(s).len() <= s.len(),
        byte_len(trim_spec(s)) + s.len() <= byte_len(s) + trim_spec(s).len(),
{
    lemma_trim_front_byte_len(s);
    lemma_trim_back_byte_len(trim_front(s));
}

proof fn lemma_trim_front_same_len(s: Seq<char>)
    ensures
        trim_front(s).len() == s.len() ==> trim_front(s) == s,
    decreases s.len(),
{
    if s.len() > 0 && is_space_char(s[0]) {
        lemma_trim_front_byte_len(s.drop_first());
    }
}

proof fn lemma_trim_back_same_len(s: Seq<char>)
    ensures
        trim_back(s).len() == s.len() ==> trim_back(s) == s,
    decreases s.len(),
{
    if s.len() > 0 && is_space_char(s.last()) {
        lemma_trim_back_byte_len(s.drop_last());
    }
}

/// Trimming that removes no character returns the text itself.
pub proof fn lemma_trim_same_len(s: Seq<char>)
    ensures
        trim_spec(s).len() == s.len() ==> trim_spec(s) == s,
{
    lemma_trim_front_same_len(s);
    lemma_trim_front_byte_len(s);
    lemma_trim_back_same_len(trim_front(s));
    lemma_trim_back_byte_len(trim_front(s));
}

/// The text's byte length is the segments' byte lengths plus one byte for
/// each line break that separated them.
pub proof fn lemma_split_byte_len(t: Seq<char>)
    ensures
        byte_len(t) + 1 == sum_byte_len(split_breaks(t)) + split_breaks(t).len(),
    decreases t.len(),
{
    let parts = split_breaks(t);
    if t.len() == 0 {
        assert(parts.drop_first() =~= Seq::<Seq<char>>::empty());
        assert(sum_byte_len(parts.drop_first()) == 0);
        assert(byte_len(Seq::<char>::empty()) == 0);
        assert(sum_byte_len(parts) == 0);
        assert(byte_len(t) == 0);
    } else if is_break_char(t[0]) {
        lemma_scalar_width(t[0]);
        lemma_split_byte_len(t.drop_first());
        let rest = split_breaks(t.drop_first());
        assert(parts[0] == Seq::<char>::empty());
        assert(parts.drop_first() =~= rest);
        assert(byte_len(Seq::<char>::empty()) == 0);
        assert(sum_byte_len(parts) == byte_len(parts[0]) + sum_byte_len(rest));
        assert(byte_len(t) == 1 + byte_len(t.drop_first()));
        assert(parts.len() == 1 + rest.len());
    } else {
        lemma_scalar_width(t[0]);
        lemma_split_byte_len(t.drop_first());
        let rest = split_breaks(t.drop_first());
        lemma_split_breaks_nonempty(t.drop_first());
        assert(parts[0] == seq![t[0]] + rest[0]);
        assert(parts.drop_first() =~= rest.drop_first());
        lemma_byte_len_concat(seq![t[0]], rest[0]);
        assert(seq![t[0]].drop_first() =~= Seq::<char>::empty());
        let w = encode_scalar(t[0] as u32).len();
        assert(seq![t[0]][0] == t[0]);
        assert(encode_utf8(seq![t[0]].drop_first()) =~= Seq::<u8>::empty());
        assert(encode_utf8(seq![t[0]]) =~= encode_scalar(t[0] as u32));
        assert(byte_len(seq![t[0]]) == w);
        assert(byte_len(parts[0]) == w + byte_len(rest[0]));
        assert(sum_byte_len(rest) == byte_len(rest[0]) + sum_byte_len(rest.drop_first()));
        assert(sum_byte_len(parts) == byte_len(parts[0]) + sum_byte_len(rest.drop_first()));
        assert(sum_byte_len(parts) == w + sum_byte_len(rest));
        assert(byte_len(t) == w + byte_len(t.drop_first()));
        assert(parts.len() == rest.len());
    }
}

/// A text that holds a line break splits into at least two segments.
pub proof fn lemma_split_contains_break(t: Seq<char>)
    requires
        contains_break(t),
    ensures
        split_breaks(t).len() >= 2,
    decreases t.len(),
{
    let i = choose|i: int| 0 <= i < t.len() && is_break_char(t[i]);
    if is_break_char(t[0]) {
        lemma_split_breaks_nonempty(t.drop_first());
    } else {
        assert(t.drop_first()[i - 1] == t[i]);
        assert(contains_break(t.drop_first()));
        lemma_split_contains_break(t.drop_first());
    }
}

/// Trimming each segment never raises the summed byte length.
pub proof fn lemma_sum_trimmed(parts: Seq<Seq<char>>)
    ensures
        sum_byte_len(parts.map_values(|p: Seq<char>| trim_spec(p))) <= sum_byte_len(parts),
    decreases parts.len(),
{
    let m = parts.map_values(|p: Seq<char>| trim_spec(p));
    if parts.len() > 0 {
        assert(m[0] == trim_spec(parts[0]));
        assert(m.drop_first() =~= parts.drop_first().map_values(|p: Seq<char>| trim_spec(p)));
        lemma_trim_byte_len(parts[0]);
        lemma_sum_trimmed(parts.drop_first());
    }
}

/// Summed byte length over a segment appended at the end.
pub proof fn lemma_sum_push(parts: Seq<Seq<char>>, p: Seq<char>)
    ensures
        sum_byte_len(parts.push(p)) == sum_byte_len(parts) + byte_len(p),
    decreases parts.len(),
{
    let whole = parts.push(p);
    assert(whole.len() == parts.len() + 1);
    if parts.len() == 0 {
        assert(whole[0] == p);
        assert(whole.drop_first() =~= Seq::<Seq<char>>::empty());
        assert(sum_byte_len(whole) == byte_len(p) + sum_byte_len(whole.drop_first()));
        assert(sum_byte_len(whole.drop_first()) == 0);
    } else {
        assert(whole[0] == parts[0]);
        assert(whole.drop_first() =~= parts.drop_first().push(p));
        lemma_sum_push(parts.drop_first(), p);
        assert(sum_byte_len(whole) == byte_len(parts[0]) + sum_byte_len(whole.drop_first()));
        assert(sum_byte_len(whole.drop_first()) == sum_byte_len(parts.drop_first()) + byte_len(
            p,
        ));
        assert(sum_byte_len(parts) == byte_len(parts[0]) + sum_byte_len(parts.drop_first()));
    }
}

} // verus!
