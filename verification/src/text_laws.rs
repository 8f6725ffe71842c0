//! What holds where the edits are edits of text: the text is UTF-8, every
//! replacement is UTF-8, and every range begins and ends between two
//! characters. Such edits produce text again, and carrying them out and
//! composing them succeeds.

use vstd::prelude::*;
use vstd::utf8::{
    valid_utf8,
    is_char_boundary,
    valid_utf8_concat,
    is_char_boundary_start_end_of_seq,
};
use crate::model::{Edit, drift, fits, applied_from, applied};
use crate::shape::{
    gap_start,
    gap_end,
    lemma_gaps_ordered,
    lemma_applied_kept,
    lemma_applied_replaced,
};
use crate::chars::{lemma_boundary_is_local, lemma_valid_between};
use crate::compose::{
    Pending,
    image_start,
    image_end,
    opened_by_first,
    opened_by_second,
    with_second,
    with_first,
    closed,
    compose_from,
    compose,
};
use crate::effect::{
    consistent,
    lemma_consistent_facts,
    lemma_open_first,
    lemma_open_second,
    lemma_take_second,
    lemma_take_first,
    lemma_close,
};
use crate::cuts::{splits_in, splits_character, cuts_in, cuts_character, composition_keeps_utf8};
use crate::edits::{EditError, all_utf8, lemma_defect_canonical};
use crate::merge::merged;
use crate::apply::{between_characters, replaced, lemma_fits_by_last};
use crate::laws::composition_keeps_effect;

verus! {

/// The text is UTF-8, the edits fit it, every replacement is UTF-8, and every
/// range begins and ends between two characters of the text.
pub open spec fn well_placed(text: Seq<u8>, edits: Seq<Edit>) -> bool {
    &&& valid_utf8(text)
    &&& fits(edits, text.len() as int)
    &&& all_utf8(edits)
    &&& forall|k: int| 0 <= k < edits.len() ==> between_characters(text, #[trigger] edits[k])
}

/// What well placed edits make of a UTF-8 text from a position between two
/// characters on is UTF-8.
proof fn lemma_applied_from_valid(text: Seq<u8>, edits: Seq<Edit>, k: int, pos: int)
    requires
        well_placed(text, edits),
        0 <= k <= edits.len(),
        gap_start(edits, k) <= pos <= gap_end(edits, text.len() as int, k),
        is_char_boundary(text, pos),
    ensures
        valid_utf8(applied_from(text, edits.skip(k), pos)),
    decreases edits.len() - k,
{
    let len = text.len() as int;
    lemma_gaps_ordered(edits, len, k, edits.len() as int);
    is_char_boundary_start_end_of_seq(text);
    if k < edits.len() {
        let e = edits[k];
        assert(edits.skip(k)[0] == e);
        assert(edits.skip(k).drop_first() =~= edits.skip(k + 1));
        assert(0 <= e.start <= e.end <= len);
        assert(between_characters(text, e));
        lemma_gaps_ordered(edits, len, k + 1, edits.len() as int);
        lemma_applied_from_valid(text, edits, k + 1, e.end);
        lemma_valid_between(text, pos, e.start);
        valid_utf8_concat(text.subrange(pos, e.start), e.text);
        valid_utf8_concat(
            text.subrange(pos, e.start) + e.text,
            applied_from(text, edits.skip(k + 1), e.end),
        );
    } else {
        lemma_valid_between(text, pos, len);
    }
}

/// Well placed edits make UTF-8 text of UTF-8 text.
pub proof fn application_keeps_text(text: Seq<u8>, edits: Seq<Edit>)
    requires
        well_placed(text, edits),
    ensures
        valid_utf8(applied(text, edits)),
{
    assert(edits.skip(0) =~= edits);
    lemma_gaps_ordered(edits, text.len() as int, 0, 0);
    is_char_boundary_start_end_of_seq(text);
    lemma_applied_from_valid(text, edits, 0, 0);
}

/// Carrying out well placed edits succeeds: on a UTF-8 text, with ranges that
/// begin and end between two characters, the result is the text that the
/// edits produce.
pub proof fn application_of_text_succeeds(text: Seq<u8>, edits: Seq<Edit>)
    requires
        well_placed(text, edits),
    ensures
        replaced(text, edits) == Ok::<Seq<u8>, EditError>(applied(text, edits)),
{
    lemma_defect_canonical(edits);
}

/// A position between two characters of the text that `first` produces lies
/// inside no character of a replacement of `first`.
proof fn lemma_cut_at_boundary(text: Seq<u8>, first: Seq<Edit>, at: int)
    requires
        well_placed(text, first),
        is_char_boundary(applied(text, first), at),
    ensures
        !splits_character(first, at),
{
    let mid = applied(text, first);
    application_keeps_text(text, first);
    assert forall|i: int| 0 <= i < first.len() implies !#[trigger] splits_in(first, i, at) by {
        if image_start(first, i) < at < image_end(first, i) {
            lemma_applied_replaced(text, first, i);
            let piece = mid.subrange(image_start(first, i), image_end(first, i));
            assert(piece[at - image_start(first, i)] == mid[at]);
            lemma_boundary_is_local(mid, at);
        }
    }
}

/// Edits of a second list that are well placed in the text that `first`
/// produces cut no character of a replacement of `first`.
pub proof fn lemma_well_placed_cuts_nothing(text: Seq<u8>, first: Seq<Edit>, second: Seq<Edit>)
    requires
        well_placed(text, first),
        well_placed(applied(text, first), second),
    ensures
        !cuts_character(first, second),
{
    let mid = applied(text, first);
    assert forall|j: int| 0 <= j < second.len() implies !cuts_in(first, #[trigger] second[j]) by {
        assert(between_characters(mid, second[j]));
        lemma_cut_at_boundary(text, first, second[j].start);
        lemma_cut_at_boundary(text, first, second[j].end);
    }
}

/// A position of the first text between two edits lies between two
/// characters if the same position of the intermediate text does.
proof fn lemma_boundary_back(text: Seq<u8>, first: Seq<Edit>, i: int, x: int)
    requires
        well_placed(text, first),
        0 <= i <= first.len(),
        gap_start(first, i) <= x <= gap_end(first, text.len() as int, i),
        is_char_boundary(applied(text, first), x + drift(first, i)),
    ensures
        is_char_boundary(text, x),
{
    let len = text.len() as int;
    let mid = applied(text, first);
    lemma_gaps_ordered(first, len, i, first.len() as int);
    application_keeps_text(text, first);
    if x == gap_end(first, len, i) {
        if i < first.len() {
            assert(between_characters(text, first[i]));
        } else {
            is_char_boundary_start_end_of_seq(text);
        }
    } else {
        lemma_applied_kept(text, first, i, x, x + 1);
        let d = drift(first, i);
        assert(mid.subrange(x + d, x + 1 + d)[0] == text.subrange(x, x + 1)[0]);
        lemma_boundary_is_local(mid, x + d);
        lemma_boundary_is_local(text, x);
    }
}

/// A growing edit starts between two characters of the first text, and where
/// its reach lies behind the last replacement used, it lies between two
/// characters of the intermediate text.
pub open spec fn anchored(
    text: Seq<u8>,
    first: Seq<Edit>,
    i: int,
    pending: Option<Pending>,
) -> bool {
    match pending {
        None => true,
        Some(p) => {
            &&& is_char_boundary(text, p.start)
            &&& p.reach > gap_start(first, i) + drift(first, i) ==> is_char_boundary(
                applied(text, first),
                p.reach,
            )
        },
    }
}

/// A growing edit opened by an edit of `second` is anchored.
proof fn lemma_anchored_open_second(
    text: Seq<u8>,
    first: Seq<Edit>,
    second: Seq<Edit>,
    i: int,
    j: int,
    pos: int,
)
    requires
        well_placed(text, first),
        well_placed(applied(text, first), second),
        consistent(text, first, second, i, j, None, pos),
        j < second.len(),
        !(i < first.len() && image_start(first, i) <= second[j].start),
    ensures
        anchored(text, first, i, Some(opened_by_second(first, i, second[j]))),
{
    lemma_consistent_facts(text, first, second, i, j, None, pos);
    lemma_open_second(text, first, second, i, j, pos);
    assert(between_characters(applied(text, first), second[j]));
    lemma_boundary_back(text, first, i, second[j].start - drift(first, i));
}

/// An anchored growing edit that is finished begins and ends between two
/// characters of the first text.
proof fn lemma_anchored_close(
    text: Seq<u8>,
    first: Seq<Edit>,
    second: Seq<Edit>,
    i: int,
    j: int,
    p: Pending,
    pos: int,
)
    requires
        well_placed(text, first),
        consistent(text, first, second, i, j, Some(p), pos),
        anchored(text, first, i, Some(p)),
        !(j < second.len() && second[j].start < p.reach),
        !(i < first.len() && image_start(first, i) < p.reach),
    ensures
        between_characters(text, closed(p, first, i)),
{
    lemma_consistent_facts(text, first, second, i, j, Some(p), pos);
    lemma_close(text, first, second, i, j, p, pos);
    if p.reach > gap_start(first, i) + drift(first, i) {
        lemma_boundary_back(text, first, i, p.reach - drift(first, i));
    } else if i > 0 {
        assert(between_characters(text, first[i - 1]));
    } else {
        is_char_boundary_start_end_of_seq(text);
    }
}

/// From every consistent and anchored state on, the edits that the
/// composition yields begin and end between two characters of the first
/// text.
proof fn lemma_compose_from_anchored(
    text: Seq<u8>,
    first: Seq<Edit>,
    second: Seq<Edit>,
    i: int,
    j: int,
    pending: Option<Pending>,
    pos: int,
)
    requires
        well_placed(text, first),
        well_placed(applied(text, first), second),
        consistent(text, first, second, i, j, pending, pos),
        anchored(text, first, i, pending),
    ensures
        forall|k: int|
            0 <= k < compose_from(first, second, i, j, pending).len() ==> between_characters(
                text,
                #[trigger] compose_from(first, second, i, j, pending)[k],
            ),
    decreases
        2 * (first.len() - i) + 2 * (second.len() - j) + (if pending is Some {
            1int
        } else {
            0int
        }),
{
    let out = compose_from(first, second, i, j, pending);
    lemma_consistent_facts(text, first, second, i, j, pending, pos);
    match pending {
        None => {
            if i < first.len() && (j >= second.len() || image_start(first, i) <= second[j].start) {
                let p = opened_by_first(first, i);
                lemma_open_first(text, first, second, i, j, pos);
                assert(between_characters(text, first[i]));
                lemma_compose_from_anchored(text, first, second, i + 1, j, Some(p), pos);
                assert(out == compose_from(first, second, i + 1, j, Some(p)));
            } else if j < second.len() {
                let p = opened_by_second(first, i, second[j]);
                lemma_open_second(text, first, second, i, j, pos);
                lemma_anchored_open_second(text, first, second, i, j, pos);
                lemma_compose_from_anchored(text, first, second, i, j + 1, Some(p), pos);
                assert(out == compose_from(first, second, i, j + 1, Some(p)));
            } else {
                assert(out.len() == 0);
            }
        },
        Some(p) => {
            if j < second.len() && second[j].start < p.reach {
                let q = with_second(p, second[j]);
                lemma_take_second(text, first, second, i, j, p, pos);
                assert(between_characters(applied(text, first), second[j]));
                lemma_compose_from_anchored(text, first, second, i, j + 1, Some(q), pos);
                assert(out == compose_from(first, second, i, j + 1, Some(q)));
            } else if i < first.len() && image_start(first, i) < p.reach {
                let q = with_first(p, first, i);
                lemma_take_first(text, first, second, i, j, p, pos);
                lemma_compose_from_anchored(text, first, second, i + 1, j, Some(q), pos);
                assert(out == compose_from(first, second, i + 1, j, Some(q)));
            } else {
                let c = closed(p, first, i);
                let more = compose_from(first, second, i, j, None);
                lemma_close(text, first, second, i, j, p, pos);
                lemma_anchored_close(text, first, second, i, j, p, pos);
                lemma_compose_from_anchored(text, first, second, i, j, None, c.end);
                assert(out == seq![c] + more);
                assert forall|k: int| 0 <= k < out.len() implies between_characters(
                    text,
                    #[trigger] out[k],
                ) by {
                    if k > 0 {
                        assert(out[k] == more[k - 1]);
                    }
                }
            }
        },
    }
}

/// Composition keeps text: where `first` is well placed in a text and
/// `second` in the text that `first` produces, the composed list is well
/// placed in the first text.
pub proof fn composition_keeps_text(text: Seq<u8>, first: Seq<Edit>, second: Seq<Edit>)
    requires
        well_placed(text, first),
        well_placed(applied(text, first), second),
    ensures
        well_placed(text, compose(first, second)),
{
    composition_keeps_effect(text, first, second);
    lemma_well_placed_cuts_nothing(text, first, second);
    composition_keeps_utf8(first, second);
    lemma_compose_from_anchored(text, first, second, 0, 0, None, 0);
}

/// Composing well placed lists succeeds: where `first` is well placed in a
/// text that offsets can address and `second` in the text that `first`
/// produces, the result is the composed list.
pub proof fn composition_of_text_succeeds(text: Seq<u8>, first: Seq<Edit>, second: Seq<Edit>)
    requires
        well_placed(text, first),
        well_placed(applied(text, first), second),
        text.len() <= usize::MAX,
    ensures
        merged(first, second) == Ok::<Seq<Edit>, EditError>(compose(first, second)),
{
    let all = compose(first, second);
    lemma_defect_canonical(first);
    lemma_defect_canonical(second);
    composition_keeps_text(text, first, second);
    lemma_well_placed_cuts_nothing(text, first, second);
    if all.len() > 0 {
        assert(all.last().end <= text.len());
    }
}

/// Edits of UTF-8 replacements that can be carried out on a UTF-8 text are
/// well placed in it.
pub proof fn lemma_replaced_well_placed(text: Seq<u8>, edits: Seq<Edit>)
    requires
        valid_utf8(text),
        all_utf8(edits),
        replaced(text, edits) is Ok,
    ensures
        well_placed(text, edits),
        replaced(text, edits) == Ok::<Seq<u8>, EditError>(applied(text, edits)),
{
    assert forall|k: int| 0 <= k < edits.len() implies 0 <= (#[trigger] edits[k]).start by {
        assert(between_characters(text, edits[k]));
    }
    lemma_defect_canonical(edits);
    lemma_fits_by_last(edits, text.len() as int);
}

/// Composing agrees with carrying out one list after the other: where
/// carrying out `first` on a UTF-8 text and then `second` on what results
/// succeeds, composing the two succeeds, and carrying out the composed list
/// on the text gives the same result.
pub proof fn composing_agrees_with_applying_in_turn(
    text: Seq<u8>,
    first: Seq<Edit>,
    second: Seq<Edit>,
)
    requires
        valid_utf8(text),
        text.len() <= usize::MAX,
        all_utf8(first),
        all_utf8(second),
        replaced(text, first) is Ok,
        replaced(applied(text, first), second) is Ok,
    ensures
        merged(first, second) == Ok::<Seq<Edit>, EditError>(compose(first, second)),
        replaced(text, compose(first, second)) == replaced(applied(text, first), second),
{
    lemma_replaced_well_placed(text, first);
    application_keeps_text(text, first);
    lemma_replaced_well_placed(applied(text, first), second);
    composition_of_text_succeeds(text, first, second);
    composition_keeps_text(text, first, second);
    composition_keeps_effect(text, first, second);
    application_of_text_succeeds(text, compose(first, second));
}

} // verus!
