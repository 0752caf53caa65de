//! The clipboard rewriter: splits the text into line segments, drops empty
//! or fully skippable interior segments, joins the survivors into one line,
//! and reports the replacement text when one is due.

use vstd::prelude::*;
use vstd::string::StringExecFns;

use crate::chars::all_skippable;
use crate::chars::contains_break;
use crate::chars::no_break_chars;
use crate::chars::contains_line_break;
use crate::chars::is_furi_skip;
use crate::segment::split_breaks;
use crate::segment::trim_spec;
use crate::segment::lemma_split_breaks_nonempty;
use crate::segment::lemma_split_parts_no_break;
use crate::segment::lemma_trim_all;
use crate::segment::split_on_breaks;
use crate::segment::trim;
use crate::length::byte_len;
use crate::length::sum_byte_len;
use crate::length::lemma_byte_len_concat;
use crate::length::lemma_split_byte_len;
use crate::length::lemma_split_contains_break;
use crate::length::lemma_sum_push;
use crate::length::lemma_sum_trimmed;
use crate::length::lemma_trim_byte_len;
use crate::length::lemma_trim_same_len;

verus! {

/// A segment survives interior filtering when it is non-empty and not
/// fully skippable.
pub open spec fn keep_segment(p: Seq<char>) -> bool {
    p.len() > 0 && !all_skippable(p)
}

/// The surviving segments of a sequence, joined in order.
pub open spec fn join_kept(parts: Seq<Seq<char>>) -> Seq<char>
    decreases parts.len(),
{
    if parts.len() == 0 {
        Seq::<char>::empty()
    } else {
        (if keep_segment(parts[0]) {
            parts[0]
        } else {
            Seq::<char>::empty()
        }) + join_kept(parts.drop_first())
    }
}

/// The rebuilt text: the first and last segment verbatim, the interior
/// segments filtered, all joined without separators. A sole segment is
/// kept as it is; no segments yield empty text.
pub open spec fn rebuilt(parts: Seq<Seq<char>>) -> Seq<char> {
    if parts.len() == 0 {
        Seq::<char>::empty()
    } else if parts.len() == 1 {
        parts[0]
    } else {
        parts[0] + join_kept(parts.subrange(1, parts.len() - 1)) + parts.last()
    }
}

/// The line segments of the text: the whole text trimmed once, split on
/// line breaks, each segment trimmed again.
pub open spec fn segments_of(s: Seq<char>) -> Seq<Seq<char>> {
    split_breaks(trim_spec(s)).map_values(|p: Seq<char>| trim_spec(p))
}

/// The replacement text computed for the input, before the length check.
pub open spec fn new_text_spec(s: Seq<char>) -> Seq<char> {
    rebuilt(segments_of(s))
}

/// Whether the rewriter processes the text at all: the content gate asks
/// that the Japanese-content verdict hold and that the text contain a line
/// break.
pub open spec fn should_process_spec(s: Seq<char>, jp: bool) -> bool {
    jp && contains_break(s)
}

/// What `rewrite` returns: nothing when `should_process_spec` is false,
/// nothing when the rebuilt text's byte length equals the whole input's
/// byte length (a cheap no-change check, kept on purpose), and the rebuilt
/// text otherwise.
pub open spec fn rewrite_spec(s: Seq<char>, jp: bool) -> Option<Seq<char>> {
    if !should_process_spec(s, jp) {
        None
    } else if byte_len(new_text_spec(s)) == byte_len(s) {
        None
    } else {
        Some(new_text_spec(s))
    }
}

/// The content gate: `jp` is the verdict of the Japanese-content oracle on
/// this text, handed in by the caller.
pub fn should_process(text: &str, jp: bool) -> (r: bool)
    ensures
        r == should_process_spec(text@, jp),
{
    jp && contains_line_break(text)
}

proof fn lemma_join_kept_snoc(parts: Seq<Seq<char>>, p: Seq<char>)
    ensures
        join_kept(parts.push(p)) == join_kept(parts) + (if keep_segment(p) {
            p
        } else {
            Seq::<char>::empty()
        }),
    decreases parts.len(),
{
    let whole = parts.push(p);
    if parts.len() == 0 {
        assert(whole[0] == p);
        assert(whole.drop_first() =~= Seq::<Seq<char>>::empty());
        assert(join_kept(whole.drop_first()) == Seq::<char>::empty());
        assert(join_kept(whole) =~= join_kept(parts) + (if keep_segment(p) {
            p
        } else {
            Seq::<char>::empty()
        }));
    } else {
        assert(whole.drop_first() =~= parts.drop_first().push(p));
        lemma_join_kept_snoc(parts.drop_first(), p);
        assert(whole[0] == parts[0]);
        assert(join_kept(whole) =~= join_kept(parts) + (if keep_segment(p) {
            p
        } else {
            Seq::<char>::empty()
        }));
    }
}

/// Replaces the clipboard text when it calls for it. `text` is the current
/// clipboard value, untrimmed; `jp` is the Japanese-content oracle's
/// verdict on it. Returns the replacement text, or nothing when the
/// clipboard is to be left alone: when `should_process` is false, and when
/// the rebuilt text's byte length equals the input's.
pub fn rewrite(text: &str, jp: bool) -> (r: Option<String>)
    ensures
        r.deep_view() == rewrite_spec(text@, jp),
        !jp ==> r is None,
        !contains_break(text@) ==> r is None,
        r matches Some(t) ==> t@ == new_text_spec(text@) && byte_len(t@) != byte_len(text@),
{
    if !should_process(text, jp) {
        return None;
    }
    let trimmed = trim(text);
    let raw = split_on_breaks(trimmed);
    let ghost segs = segments_of(text@);

    let mut parts: Vec<&str> = Vec::new();
    let mut k: usize = 0;
    let m = raw.len();
    proof {
        assert(parts.deep_view() =~~= segs.subrange(0, 0));
    }
    while k < m
        invariant
            m == raw.len(),
            k <= m,
            raw.deep_view() == split_breaks(trim_spec(text@)),
            segs == segments_of(text@),
            parts.len() == k,
            parts.deep_view() =~~= segs.subrange(0, k as int),
        decreases m - k,
    {
        let piece = trim(raw[k]);
        let ghost prev = parts.deep_view();
        parts.push(piece);
        proof {
            assert(raw[k as int]@ == raw.deep_view()[k as int]);
            assert(piece@ == segs[k as int]);
            assert(parts.deep_view() =~~= prev.push(piece@));
            assert(parts.deep_view() =~~= segs.subrange(0, k + 1));
        }
        k += 1;
    }
    proof {
        assert(parts.deep_view() =~~= segs);
        lemma_split_breaks_nonempty(trim_spec(text@));
    }

    let count = parts.len();
    let mut out = String::new();
    out.append(parts[0]);
    if count > 1 {
        proof {
            assert(segs.subrange(1, 1) =~= Seq::<Seq<char>>::empty());
        }
        let mut j: usize = 1;
        while j < count - 1
            invariant
                count == parts.len(),
                count == segs.len(),
                count > 1,
                1 <= j <= count - 1,
                parts.deep_view() == segs,
                out@ == segs[0] + join_kept(segs.subrange(1, j as int)),
            decreases count - j,
        {
            let piece = parts[j];
            proof {
                assert(piece@ == segs[j as int]);
            }
            if !piece.is_empty() && !is_furi_skip(piece) {
                out.append(piece);
            }
            proof {
                lemma_join_kept_snoc(segs.subrange(1, j as int), segs[j as int]);
                assert(segs.subrange(1, j + 1) =~= segs.subrange(1, j as int).push(
                    segs[j as int],
                ));
                assert(out@ =~= segs[0] + join_kept(segs.subrange(1, j + 1)));
            }
            j += 1;
        }
        out.append(parts[count - 1]);
        proof {
            assert(segs.last() == segs[count - 1]);
            assert(out@ =~= segs[0] + join_kept(segs.subrange(1, count - 1)) + segs.last());
        }
    }
    proof {
        assert(out@ == rebuilt(segs));
    }

    let out_bytes = out.as_str().as_bytes().len();
    let in_bytes = text.as_bytes().len();
    proof {
        assert(out_bytes == byte_len(out@));
        assert(in_bytes == byte_len(text@));
    }
    if out_bytes == in_bytes {
        proof {
            assert(rewrite_spec(text@, jp) is None);
        }
        None
    } else {
        proof {
            assert(rewrite_spec(text@, jp) == Some(out@));
        }
        Some(out)
    }
}

/// Law: with exactly three segments whose middle one is empty or fully
/// skippable, the rebuilt text is the two boundary segments joined, whatever
/// they hold.
pub proof fn lemma_boundary_exception(a: Seq<char>, b: Seq<char>, c: Seq<char>)
    requires
        b.len() == 0 || all_skippable(b),
    ensures
        rebuilt(seq![a, b, c]) == a + c,
{
    let parts = seq![a, b, c];
    assert(parts.subrange(1, 2) =~= seq![b]);
    assert(seq![b].drop_first() =~= Seq::<Seq<char>>::empty());
    assert(seq![b][0] == b);
    assert(!keep_segment(b));
    assert(join_kept(Seq::<Seq<char>>::empty()) == Seq::<char>::empty());
    assert(join_kept(seq![b]) =~= Seq::<char>::empty());
    assert(parts[0] + join_kept(parts.subrange(1, 2)) + parts.last() =~= a + c);
}

/// Law: a text whose segments are exactly three, the middle one empty or
/// fully skippable, rewrites to the boundary segments joined.
pub proof fn lemma_boundary_exception_segments(s: Seq<char>, a: Seq<char>, b: Seq<char>, c: Seq<char>)
    requires
        segments_of(s) == seq![a, b, c],
        b.len() == 0 || all_skippable(b),
    ensures
        new_text_spec(s) == a + c,
{
    lemma_boundary_exception(a, b, c);
}

proof fn lemma_join_kept_no_break(parts: Seq<Seq<char>>)
    requires
        forall|k: int| 0 <= k < parts.len() ==> no_break_chars(#[trigger] parts[k]),
    ensures
        no_break_chars(join_kept(parts)),
    decreases parts.len(),
{
    if parts.len() > 0 {
        let rest = parts.drop_first();
        assert forall|k: int| 0 <= k < rest.len() implies no_break_chars(
            #[trigger] rest[k],
        ) by {
            assert(rest[k] == parts[k + 1]);
        }
        lemma_join_kept_no_break(rest);
        let head = if keep_segment(parts[0]) {
            parts[0]
        } else {
            Seq::<char>::empty()
        };
        assert(no_break_chars(parts[0]));
        assert forall|i: int| 0 <= i < join_kept(parts).len() implies !crate::chars::is_break_char(
            join_kept(parts)[i],
        ) by {
            if i < head.len() {
                assert(join_kept(parts)[i] == head[i]);
            } else {
                assert(join_kept(parts)[i] == join_kept(rest)[i - head.len()]);
            }
        }
    }
}

/// Law: the rebuilt text holds no line break, so a second rewrite of a
/// rewrite's output returns nothing, whatever the oracle says of it.
pub proof fn lemma_rewrite_twice_is_noop(s: Seq<char>, jp: bool, out: Seq<char>, jp2: bool)
    requires
        rewrite_spec(s, jp) == Some(out),
    ensures
        no_break_chars(out),
        rewrite_spec(out, jp2) is None,
{
    let t = trim_spec(s);
    let raw = split_breaks(t);
    let segs = segments_of(s);
    lemma_split_parts_no_break(t);
    assert forall|k: int| 0 <= k < segs.len() implies no_break_chars(#[trigger] segs[k]) by {
        assert(segs[k] == trim_spec(raw[k]));
        assert(no_break_chars(raw[k]));
        lemma_trim_all(raw[k], |c: char| !crate::chars::is_break_char(c));
    }
    assert(out == rebuilt(segs));
    lemma_split_breaks_nonempty(t);
    if segs.len() == 1 {
        assert(out == segs[0]);
    } else {
        let mid = segs.subrange(1, segs.len() - 1);
        assert forall|k: int| 0 <= k < mid.len() implies no_break_chars(#[trigger] mid[k]) by {
            assert(mid[k] == segs[k + 1]);
        }
        lemma_join_kept_no_break(mid);
        assert forall|i: int| 0 <= i < out.len() implies !crate::chars::is_break_char(
            out[i],
        ) by {
            let first = segs[0];
            let inner = join_kept(mid);
            if i < first.len() {
                assert(out[i] == first[i]);
            } else if i < first.len() + inner.len() {
                assert(out[i] == inner[i - first.len()]);
            } else {
                assert(out[i] == segs.last()[i - first.len() - inner.len()]);
            }
        }
    }
    assert(!contains_break(out));
}

proof fn lemma_join_kept_byte_len(parts: Seq<Seq<char>>)
    ensures
        byte_len(join_kept(parts)) <= sum_byte_len(parts),
    decreases parts.len(),
{
    if parts.len() > 0 {
        lemma_join_kept_byte_len(parts.drop_first());
        let head = if keep_segment(parts[0]) {
            parts[0]
        } else {
            Seq::<char>::empty()
        };
        lemma_byte_len_concat(head, join_kept(parts.drop_first()));
    }
}

proof fn lemma_rebuilt_byte_len(parts: Seq<Seq<char>>)
    ensures
        byte_len(rebuilt(parts)) <= sum_byte_len(parts),
{
    if parts.len() == 0 {
    } else if parts.len() == 1 {
        assert(parts.drop_first() =~= Seq::<Seq<char>>::empty());
    } else {
        let mid = parts.subrange(1, parts.len() - 1);
        lemma_join_kept_byte_len(mid);
        lemma_byte_len_concat(parts[0], join_kept(mid));
        lemma_byte_len_concat(parts[0] + join_kept(mid), parts.last());
        assert(parts.drop_first() =~= mid.push(parts.last()));
        lemma_sum_push(mid, parts.last());
    }
}

/// Law: a text that `should_process_spec` accepts always loses a byte — its
/// line-break characters never survive into the rebuilt text — so the
/// rebuilt text is strictly shorter than the input, the no-change length
/// check never withholds a replacement, and `rewrite` returns the rebuilt
/// text on every processed input.
pub proof fn lemma_processed_text_shrinks(s: Seq<char>, jp: bool)
    requires
        should_process_spec(s, jp),
    ensures
        byte_len(new_text_spec(s)) < byte_len(s),
        rewrite_spec(s, jp) == Some(new_text_spec(s)),
{
    let t = trim_spec(s);
    let raw = split_breaks(t);
    let segs = segments_of(s);
    lemma_split_breaks_nonempty(t);
    lemma_rebuilt_byte_len(segs);
    lemma_sum_trimmed(raw);
    lemma_split_byte_len(t);
    lemma_trim_byte_len(s);
    if contains_break(t) {
        lemma_split_contains_break(t);
    } else {
        lemma_trim_same_len(s);
        if t.len() == s.len() {
            assert(t == s);
            assert(false);
        }
    }
}

} // verus!
