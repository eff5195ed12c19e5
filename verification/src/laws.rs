use vstd::prelude::*;

use crate::header::{
    seg_is_by, seg_is_for, seg_is_host, seg_is_proto, spec_apply_segment, spec_empty_header,
    spec_fold_segments, spec_parse_header, HeaderView,
};
use crate::text::{
    end_non_space, first_non_space, lemma_end_non_space_range, lemma_first_non_space_range,
    lemma_split_char_len, lower_char, lower_seq, spec_trim, split_char,
};

verus! {

proof fn lemma_split_preserves_absent(s: Seq<char>, d: char, c: char)
    requires
        forall|i: int| 0 <= i < s.len() ==> s[i] != c,
    ensures
        forall|j: int, k: int|
            0 <= j < split_char(s, d).len() && 0 <= k < split_char(s, d)[j].len()
                ==> #[trigger] split_char(s, d)[j][k] != c,
    decreases s.len(),
{
    if s.len() != 0 {
        let rest = split_char(s.drop_first(), d);
        assert(forall|i: int| 0 <= i < s.drop_first().len() ==> s.drop_first()[i] != c);
        lemma_split_preserves_absent(s.drop_first(), d, c);
        lemma_split_char_len(s.drop_first(), d);
        if s[0] == d {
            assert forall|j: int, k: int|
                0 <= j < split_char(s, d).len() && 0 <= k < split_char(s, d)[j].len() implies #[trigger] split_char(
                s,
                d,
            )[j][k] != c by {
                if j > 0 {
                    assert(split_char(s, d)[j] == rest[j - 1]);
                }
            }
        } else {
            assert forall|j: int, k: int|
                0 <= j < split_char(s, d).len() && 0 <= k < split_char(s, d)[j].len() implies #[trigger] split_char(
                s,
                d,
            )[j][k] != c by {
                if j == 0 {
                    assert(split_char(s, d)[0] == seq![s[0]] + rest[0]);
                    if k > 0 {
                        assert(split_char(s, d)[0][k] == rest[0][k - 1]);
                    }
                } else {
                    assert(split_char(s, d)[j] == rest[j]);
                }
            }
        }
    }
}

proof fn lemma_apply_segment_no_eq(h: HeaderView, seg: Seq<char>)
    requires
        forall|k: int| 0 <= k < seg.len() ==> seg[k] != '=',
    ensures
        spec_apply_segment(h, seg) == h,
{
    let tr = spec_trim(seg);
    lemma_first_non_space_range(seg, 0);
    lemma_end_non_space_range(seg, seg.len() as int);
    assert forall|k: int| 0 <= k < tr.len() implies tr[k] != '=' by {
        let a = first_non_space(seg, 0);
        let b = end_non_space(seg, seg.len() as int);
        if a < b {
            assert(tr[k] == seg[a + k]);
        }
    }
    let t = lower_seq(tr);
    assert forall|k: int| 0 <= k < t.len() implies t[k] != '=' by {
        assert(t[k] == lower_char(tr[k]));
    }
}

proof fn lemma_fold_no_eq(h: HeaderView, segs: Seq<Seq<char>>)
    requires
        forall|j: int, k: int|
            0 <= j < segs.len() && 0 <= k < segs[j].len() ==> #[trigger] segs[j][k] != '=',
    ensures
        spec_fold_segments(h, segs) == h,
    decreases segs.len(),
{
    if segs.len() != 0 {
        lemma_apply_segment_no_eq(h, segs[0]);
        assert forall|j: int, k: int|
            0 <= j < segs.drop_first().len() && 0 <= k < segs.drop_first()[j].len()
                implies #[trigger] segs.drop_first()[j][k] != '=' by {
            assert(segs.drop_first()[j] == segs[j + 1]);
        }
        lemma_fold_no_eq(h, segs.drop_first());
    }
}

/// Law: a header value without any `key=value` structure — one holding no `=`
/// at all — parses to the empty record: no `for` entries and no `by`, `host`
/// or `proto`.
pub proof fn lemma_parse_no_key_value(s: Seq<char>)
    requires
        forall|i: int| 0 <= i < s.len() ==> s[i] != '=',
    ensures
        spec_parse_header(s) == spec_empty_header(),
{
    lemma_split_preserves_absent(s, ';', '=');
    lemma_fold_no_eq(spec_empty_header(), split_char(s, ';'));
}

/// Law: parsing is deterministic — any two records parsed from the same text
/// are structurally equal.
pub proof fn lemma_parse_deterministic(s: Seq<char>, h1: HeaderView, h2: HeaderView)
    requires
        h1 == spec_parse_header(s),
        h2 == spec_parse_header(s),
    ensures
        h1 == h2,
{
}

proof fn lemma_fold_preserves_by(h: HeaderView, segs: Seq<Seq<char>>)
    requires
        forall|k: int| 0 <= k < segs.len() ==> !seg_is_by(lower_seq(spec_trim(#[trigger] segs[k]))),
    ensures
        spec_fold_segments(h, segs).by == h.by,
    decreases segs.len(),
{
    if segs.len() != 0 {
        let h1 = spec_apply_segment(h, segs[0]);
        assert(h1.by == h.by);
        assert forall|k: int|
            0 <= k < segs.drop_first().len() implies !seg_is_by(
            lower_seq(spec_trim(#[trigger] segs.drop_first()[k])),
        ) by {
            assert(segs.drop_first()[k] == segs[k + 1]);
        }
        lemma_fold_preserves_by(h1, segs.drop_first());
    }
}

/// Law: when one or more segments assign to `by`, the record's `by` field is
/// exactly the value carried by the last of them, whatever stood before.
pub proof fn lemma_repeated_by_last_wins(h: HeaderView, segs: Seq<Seq<char>>, j: int)
    requires
        0 <= j < segs.len(),
        seg_is_by(lower_seq(spec_trim(segs[j]))),
        forall|k: int| j < k < segs.len() ==> !seg_is_by(lower_seq(spec_trim(#[trigger] segs[k]))),
    ensures
        spec_fold_segments(h, segs).by == Some(
            crate::text::suffix_after_last(lower_seq(spec_trim(segs[j])), '='),
        ),
    decreases segs.len(),
{
    let h1 = spec_apply_segment(h, segs[0]);
    if j == 0 {
        assert(h1.by == Some(
            crate::text::suffix_after_last(lower_seq(spec_trim(segs[0])), '='),
        ));
        assert forall|k: int|
            0 <= k < segs.drop_first().len() implies !seg_is_by(
            lower_seq(spec_trim(#[trigger] segs.drop_first()[k])),
        ) by {
            assert(segs.drop_first()[k] == segs[k + 1]);
        }
        lemma_fold_preserves_by(h1, segs.drop_first());
    } else {
        assert(segs.drop_first()[j - 1] == segs[j]);
        assert forall|k: int|
            j - 1 < k < segs.drop_first().len() implies !seg_is_by(
            lower_seq(spec_trim(#[trigger] segs.drop_first()[k])),
        ) by {
            assert(segs.drop_first()[k] == segs[k + 1]);
        }
        lemma_repeated_by_last_wins(h1, segs.drop_first(), j - 1);
    }
}

/// Law: a segment that assigns to `by`, `host` or `proto` sets that field the
/// same way whatever record it is applied to — so with repeated keys, the last
/// occurrence wins.
pub proof fn lemma_last_assignment_wins(h1: HeaderView, h2: HeaderView, seg: Seq<char>)
    ensures
        seg_is_by(lower_seq(spec_trim(seg))) ==> spec_apply_segment(h1, seg).by
            == spec_apply_segment(h2, seg).by,
        seg_is_host(lower_seq(spec_trim(seg))) ==> spec_apply_segment(h1, seg).host
            == spec_apply_segment(h2, seg).host,
        seg_is_proto(lower_seq(spec_trim(seg))) ==> spec_apply_segment(h1, seg).proto
            == spec_apply_segment(h2, seg).proto,
{
}

} // verus!
