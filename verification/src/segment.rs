//! Splitting clipboard text into line segments: whole-text trimming,
//! splitting on line breaks, and per-segment trimming.

use vstd::prelude::*;
use vstd::string::StrSliceExecFns;

use crate::chars::is_break_char;
use crate::chars::is_space_char;
use crate::chars::no_break_chars;
use crate::chars::break_char;
use crate::chars::space_char;

verus! {

/// The text with its leading whitespace removed.
pub open spec fn trim_front(s: Seq<char>) -> Seq<char>
    decreases s.len(),
{
    if s.len() > 0 && is_space_char(s[0]) {
        trim_front(s.drop_first())
    } else {
        s
    }
}

/// The text with its trailing whitespace removed.
pub open spec fn trim_back(s: Seq<char>) -> Seq<char>
    decreases s.len(),
{
    if s.len() > 0 && is_space_char(s.last()) {
        trim_back(s.drop_last())
    } else {
        s
    }
}

/// The text with leading and trailing whitespace removed.
pub open spec fn trim_spec(s: Seq<char>) -> Seq<char> {
    trim_back(trim_front(s))
}

/// The text split on line-break characters: one segment between every two
/// breaks, plus one before the first and one after the last. Never empty;
/// the breaks themselves appear in no segment.
pub open spec fn split_breaks(s: Seq<char>) -> Seq<Seq<char>>
    decreases s.len(),
{
    if s.len() == 0 {
        seq![Seq::<char>::empty()]
    } else if is_break_char(s[0]) {
        seq![Seq::<char>::empty()] + split_breaks(s.drop_first())
    } else {
        let rest = split_breaks(s.drop_first());
        seq![seq![s[0]] + rest[0]] + rest.drop_first()
    }
}

pub proof fn lemma_split_breaks_nonempty(s: Seq<char>)
    ensures
        split_breaks(s).len() >= 1,
    decreases s.len(),
{
    if s.len() > 0 {
        lemma_split_breaks_nonempty(s.drop_first());
    }
}

/// Splitting text without a line break yields that text as the one segment.
pub proof fn lemma_split_no_break(s: Seq<char>)
    requires
        no_break_chars(s),
    ensures
        split_breaks(s) =~~= seq![s],
    decreases s.len(),
{
    if s.len() == 0 {
        assert(s =~= Seq::<char>::empty());
    } else {
        assert(no_break_chars(s.drop_first()));
        lemma_split_no_break(s.drop_first());
        assert(seq![s[0]] + s.drop_first() =~= s);
    }
}

/// Splitting text whose first line break stands at `j` yields the prefix
/// before `j` as the first segment, followed by the split of the suffix
/// after `j`.
pub proof fn lemma_split_first_break(s: Seq<char>, j: int)
    requires
        0 <= j < s.len(),
        is_break_char(s[j]),
        forall|i: int| 0 <= i < j ==> !is_break_char(s[i]),
    ensures
        split_breaks(s) =~~= seq![s.subrange(0, j)] + split_breaks(
            s.subrange(j + 1, s.len() as int),
        ),
    decreases j,
{
    if j == 0 {
        assert(s.subrange(0, 0) =~= Seq::<char>::empty());
        assert(s.subrange(1, s.len() as int) =~= s.drop_first());
    } else {
        let t = s.drop_first();
        lemma_split_first_break(t, j - 1);
        lemma_split_breaks_nonempty(t.subrange(j, t.len() as int));
        assert(t.subrange(j, t.len() as int) =~= s.subrange(j + 1, s.len() as int));
        assert(t.subrange(0, j - 1) =~= s.subrange(1, j));
        assert(seq![s[0]] + s.subrange(1, j) =~= s.subrange(0, j));
    }
}

/// No segment of a split holds a line-break character.
pub proof fn lemma_split_parts_no_break(s: Seq<char>)
    ensures
        forall|k: int|
            0 <= k < split_breaks(s).len() ==> no_break_chars(#[trigger] split_breaks(s)[k]),
    decreases s.len(),
{
    if s.len() == 0 {
    } else if is_break_char(s[0]) {
        lemma_split_parts_no_break(s.drop_first());
    } else {
        let rest = split_breaks(s.drop_first());
        lemma_split_parts_no_break(s.drop_first());
        lemma_split_breaks_nonempty(s.drop_first());
        assert forall|k: int| 0 <= k < split_breaks(s).len() implies no_break_chars(
            #[trigger] split_breaks(s)[k],
        ) by {
            if k == 0 {
                let p = seq![s[0]] + rest[0];
                assert(no_break_chars(rest[0]));
                assert forall|i: int| 0 <= i < p.len() implies !is_break_char(p[i]) by {
                    if i > 0 {
                        assert(p[i] == rest[0][i - 1]);
                    }
                }
            } else {
                assert(split_breaks(s)[k] == rest[k]);
            }
        }
    }
}

proof fn lemma_trim_front_all(s: Seq<char>, p: spec_fn(char) -> bool)
    requires
        forall|i: int| 0 <= i < s.len() ==> p(s[i]),
    ensures
        forall|i: int| 0 <= i < trim_front(s).len() ==> p(trim_front(s)[i]),
    decreases s.len(),
{
    if s.len() > 0 && is_space_char(s[0]) {
        let t = s.drop_first();
        assert forall|i: int| 0 <= i < t.len() implies p(t[i]) by {
            assert(t[i] == s[i + 1]);
        }
        lemma_trim_front_all(t, p);
        assert(trim_front(s) == trim_front(t));
        assert forall|i: int| 0 <= i < trim_front(s).len() implies p(trim_front(s)[i]) by {
            assert(p(trim_front(t)[i]));
        }
    }
}

proof fn lemma_trim_back_all(s: Seq<char>, p: spec_fn(char) -> bool)
    requires
        forall|i: int| 0 <= i < s.len() ==> p(s[i]),
    ensures
        forall|i: int| 0 <= i < trim_back(s).len() ==> p(trim_back(s)[i]),
    decreases s.len(),
{
    if s.len() > 0 && is_space_char(s.last()) {
        let t = s.drop_last();
        assert forall|i: int| 0 <= i < t.len() implies p(t[i]) by {
            assert(t[i] == s[i]);
        }
        lemma_trim_back_all(t, p);
        assert(trim_back(s) == trim_back(t));
        assert forall|i: int| 0 <= i < trim_back(s).len() implies p(trim_back(s)[i]) by {
            assert(p(trim_back(t)[i]));
        }
    }
}

/// Trimming keeps only characters the text already had: any property that
/// held of every character still holds of every character afterwards.
pub proof fn lemma_trim_all(s: Seq<char>, p: spec_fn(char) -> bool)
    requires
        forall|i: int| 0 <= i < s.len() ==> p(s[i]),
    ensures
        forall|i: int| 0 <= i < trim_spec(s).len() ==> p(trim_spec(s)[i]),
{
    lemma_trim_front_all(s, p);
    lemma_trim_back_all(trim_front(s), p);
}

proof fn lemma_trim_front_at(s: Seq<char>, a: int)
    requires
        0 <= a <= s.len(),
        forall|i: int| 0 <= i < a ==> is_space_char(s[i]),
        a == s.len() || !is_space_char(s[a]),
    ensures
        trim_front(s) =~= s.subrange(a, s.len() as int),
    decreases a,
{
    if a == 0 {
        assert(s.subrange(0, s.len() as int) =~= s);
    } else {
        let t = s.drop_first();
        lemma_trim_front_at(t, a - 1);
        assert(t.subrange(a - 1, t.len() as int) =~= s.subrange(a, s.len() as int));
    }
}

proof fn lemma_trim_back_at(s: Seq<char>, b: int)
    requires
        0 <= b <= s.len(),
        forall|i: int| b <= i < s.len() ==> is_space_char(s[i]),
        b == 0 || !is_space_char(s[b - 1]),
    ensures
        trim_back(s) =~= s.subrange(0, b),
    decreases s.len() - b,
{
    if b == s.len() {
        assert(s.subrange(0, b) =~= s);
    } else {
        let t = s.drop_last();
        lemma_trim_back_at(t, b);
        assert(t.subrange(0, b) =~= s.subrange(0, b));
    }
}

/// Removes leading and trailing whitespace.
pub fn trim<'a>(text: &'a str) -> (r: &'a str)
    ensures
        r@ == trim_spec(text@),
{
    let n = text.unicode_len();
    let mut a: usize = 0;
    while a < n && space_char(text.get_char(a))
        invariant
            n == text@.len(),
            a <= n,
            forall|j: int| 0 <= j < a ==> is_space_char(text@[j]),
        decreases n - a,
    {
        a += 1;
    }
    let mut b: usize = n;
    while b > a && space_char(text.get_char(b - 1))
        invariant
            n == text@.len(),
            a <= b <= n,
            forall|j: int| b <= j < n ==> is_space_char(text@[j]),
        decreases b,
    {
        b -= 1;
    }
    proof {
        lemma_trim_front_at(text@, a as int);
        let sub = text@.subrange(a as int, n as int);
        lemma_trim_back_at(sub, b - a);
        assert(sub.subrange(0, b - a) =~= text@.subrange(a as int, b as int));
        assert forall|i: int| b - a <= i < sub.len() implies is_space_char(sub[i]) by {
            assert(sub[i] == text@[a + i]);
        }
    }
    text.substring_char(a, b)
}

/// Splits the text into its line segments, in order.
pub fn split_on_breaks<'a>(text: &'a str) -> (parts: Vec<&'a str>)
    ensures
        parts.deep_view() == split_breaks(text@),
        parts.len() >= 1,
{
    let n = text.unicode_len();
    let mut parts: Vec<&'a str> = Vec::new();
    let mut start: usize = 0;
    let mut i: usize = 0;
    proof {
        assert(text@.subrange(0, n as int) =~= text@);
        assert(parts.deep_view() =~~= Seq::<Seq<char>>::empty());
    }
    while i < n
        invariant
            n == text@.len(),
            start <= i <= n,
            forall|k: int| start <= k < i ==> !is_break_char(text@[k]),
            split_breaks(text@) =~~= parts.deep_view() + split_breaks(
                text@.subrange(start as int, n as int),
            ),
        decreases n - i,
    {
        if break_char(text.get_char(i)) {
            let ghost sub = text@.subrange(start as int, n as int);
            proof {
                lemma_split_first_break(sub, i - start);
                assert(sub.subrange(0, i - start) =~= text@.subrange(start as int, i as int));
                assert(sub.subrange(i - start + 1, sub.len() as int) =~= text@.subrange(
                    i + 1,
                    n as int,
                ));
            }
            let piece = text.substring_char(start, i);
            let ghost prev = parts.deep_view();
            parts.push(piece);
            proof {
                assert(parts.deep_view() =~~= prev.push(piece@));
            }
            start = i + 1;
        }
        i += 1;
    }
    let ghost sub = text@.subrange(start as int, n as int);
    proof {
        lemma_split_no_break(sub);
    }
    let piece = text.substring_char(start, n);
    let ghost prev = parts.deep_view();
    parts.push(piece);
    proof {
        assert(parts.deep_view() =~~= prev.push(piece@));
        assert(parts.deep_view() =~~= split_breaks(text@));
    }
    parts
}

} // verus!
