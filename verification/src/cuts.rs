//! Cuts inside characters: where an edit of the second list begins or ends
//! within a replacement of the first list, the replacement is cut there, and
//! the cut must not fall inside a character.

use vstd::prelude::*;
use vstd::utf8::{
    valid_utf8,
    is_char_boundary,
    is_continuation_byte,
    valid_utf8_concat,
    is_char_boundary_start_end_of_seq,
};
use crate::model::{Edit, drift, canonical};
use crate::shape::gap_start;
use crate::compose::{
    Pending,
    kept_before,
    gone_with,
    covered_of,
    coherent,
    lemma_coherent_steps,
    lemma_images_ordered,
    image_start,
    image_end,
    opened_by_first,
    opened_by_second,
    with_second,
    with_first,
    closed,
    compose_from,
    compose,
};
use crate::edits::all_utf8;
use crate::chars::{lemma_boundary_is_local, lemma_valid_between, lemma_boundary_in_piece};

verus! {

/// The position `at` of the intermediate text lies within the `i`-th
/// replacement of `first`, and the byte there continues a character.
pub open spec fn splits_in(first: Seq<Edit>, i: int, at: int) -> bool {
    &&& image_start(first, i) < at < image_end(first, i)
    &&& is_continuation_byte(first[i].text[at - image_start(first, i)])
}

/// The position `at` of the intermediate text lies inside a character of a
/// replacement of `first`.
pub open spec fn splits_character(first: Seq<Edit>, at: int) -> bool {
    exists|i: int| 0 <= i < first.len() && #[trigger] splits_in(first, i, at)
}

/// The range of the edit begins or ends inside a character of a replacement
/// of `first`.
pub open spec fn cuts_in(first: Seq<Edit>, e: Edit) -> bool {
    splits_character(first, e.start) || splits_character(first, e.end)
}

/// Some edit of `second` begins or ends inside a character of a replacement
/// of `first`.
pub open spec fn cuts_character(first: Seq<Edit>, second: Seq<Edit>) -> bool {
    exists|j: int| 0 <= j < second.len() && cuts_in(first, #[trigger] second[j])
}

/// Only one replacement can hold a position: the first that ends behind it.
pub proof fn lemma_only_candidate(first: Seq<Edit>, i: int, at: int)
    requires
        canonical(first),
        0 <= i <= first.len(),
        i > 0 ==> image_end(first, i - 1) <= at,
        i < first.len() ==> at < image_end(first, i),
    ensures
        splits_character(first, at) <==> i < first.len() && splits_in(first, i, at),
{
    assert forall|k: int| 0 <= k < first.len() && k != i implies !splits_in(first, k, at) by {
        if k < i {
            lemma_images_ordered(first, k + 1, i);
            assert(drift(first, k + 1) == drift(first, k) + first[k].delta());
            assert(drift(first, i) == drift(first, i - 1) + first[i - 1].delta());
        } else {
            lemma_images_ordered(first, i + 1, k);
            assert(drift(first, i + 1) == drift(first, i) + first[i].delta());
            assert(0 <= first[k].start <= first[k].end);
            if k > 0 {
                assert(first[k - 1].end <= first[k].start);
            }
        }
    }
}

/// A growing edit holds UTF-8; an open tail is the end of the last
/// replacement used; and a reach behind that replacement is the end of an
/// edit of `second`.
pub open spec fn tidy(
    first: Seq<Edit>,
    second: Seq<Edit>,
    i: int,
    j: int,
    pending: Option<Pending>,
) -> bool {
    match pending {
        None => true,
        Some(p) => {
            &&& valid_utf8(p.fixed)
            &&& valid_utf8(p.tail)
            &&& p.tail.len() > 0 ==> {
                &&& i > 0
                &&& p.reach == image_end(first, i - 1)
                &&& p.tail.len() <= first[i - 1].text.len()
                &&& p.tail == first[i - 1].text.subrange(
                    first[i - 1].text.len() - p.tail.len(),
                    first[i - 1].text.len() as int,
                )
            }
            &&& p.reach > gap_start(first, i) + drift(first, i) ==> exists|k: int|
                0 <= k < j && p.reach == (#[trigger] second[k]).end
        },
    }
}

/// A position within the open tail where no character is split lies between
/// two characters of the tail.
proof fn lemma_tail_boundary(first: Seq<Edit>, i: int, p: Pending, at: int)
    requires
        0 < i <= first.len(),
        valid_utf8(first[i - 1].text),
        valid_utf8(p.tail),
        p.reach == image_end(first, i - 1),
        p.tail.len() <= first[i - 1].text.len(),
        p.tail == first[i - 1].text.subrange(
            first[i - 1].text.len() - p.tail.len(),
            first[i - 1].text.len() as int,
        ),
        p.reach - p.tail.len() <= at <= p.reach,
        !splits_character(first, at),
    ensures
        is_char_boundary(p.tail, at - (p.reach - p.tail.len())),
{
    let piece = first[i - 1].text;
    let from = piece.len() - p.tail.len();
    let off = at - image_start(first, i - 1);
    is_char_boundary_start_end_of_seq(p.tail);
    if p.reach - p.tail.len() < at < p.reach {
        assert(!splits_in(first, i - 1, at));
        lemma_boundary_is_local(piece, off);
        lemma_boundary_in_piece(piece, from, piece.len() as int, p.tail, off);
    }
}

/// Where the next edit of `second` cuts no character, the open tail is cut
/// between two characters at both ends of that edit.
pub proof fn lemma_tail_cuts(first: Seq<Edit>, second: Seq<Edit>, i: int, j: int, p: Pending)
    requires
        coherent(first, second, i, j, Some(p)),
        tidy(first, second, i, j, Some(p)),
        all_utf8(first),
        j < second.len(),
        second[j].start < p.reach,
        !cuts_in(first, second[j]),
    ensures
        0 <= kept_before(p, second[j]) <= gone_with(p, second[j]) <= p.tail.len(),
        is_char_boundary(p.tail, kept_before(p, second[j])),
        is_char_boundary(p.tail, gone_with(p, second[j])),
{
    let e = second[j];
    assert(0 <= e.start <= e.end);
    assert(valid_utf8(first[i - 1].text));
    lemma_tail_boundary(first, i, p, e.start);
    if e.end < p.reach {
        lemma_tail_boundary(first, i, p, e.end);
    } else {
        is_char_boundary_start_end_of_seq(p.tail);
    }
}

/// Where no edit of `second` cuts a character, the next replacement of
/// `first` is cut between two characters where the growing edit reaches into
/// it.
pub proof fn lemma_reach_cuts(first: Seq<Edit>, second: Seq<Edit>, i: int, j: int, p: Pending)
    requires
        coherent(first, second, i, j, Some(p)),
        tidy(first, second, i, j, Some(p)),
        all_utf8(first),
        !cuts_character(first, second),
        i < first.len(),
        image_start(first, i) < p.reach,
    ensures
        0 <= covered_of(p, first, i) <= first[i].text.len(),
        is_char_boundary(first[i].text, covered_of(p, first, i)),
{
    let piece = first[i].text;
    assert(0 <= first[i].start <= first[i].end);
    if i > 0 {
        assert(first[i - 1].end <= first[i].start);
    }
    assert(valid_utf8(piece));
    is_char_boundary_start_end_of_seq(piece);
    if p.reach < image_end(first, i) {
        let k = choose|k: int| 0 <= k < j && p.reach == (#[trigger] second[k]).end;
        assert(!cuts_in(first, second[k]));
        assert(!splits_in(first, i, p.reach));
        lemma_boundary_is_local(piece, covered_of(p, first, i));
    }
}

/// The first edit of `first` that is left, opened, is a tidy growing edit.
pub proof fn lemma_tidy_open_first(first: Seq<Edit>, second: Seq<Edit>, i: int, j: int)
    requires
        all_utf8(first),
        0 <= i < first.len(),
    ensures
        tidy(first, second, i + 1, j, Some(opened_by_first(first, i))),
{
    let p = opened_by_first(first, i);
    assert(valid_utf8(first[i].text));
    assert(p.tail =~= first[i].text.subrange(0, first[i].text.len() as int));
    assert(drift(first, i + 1) == drift(first, i) + first[i].delta());
}

/// The first edit of `second` that is left, opened, is a tidy growing edit.
pub proof fn lemma_tidy_open_second(first: Seq<Edit>, second: Seq<Edit>, i: int, j: int)
    requires
        all_utf8(second),
        0 <= j < second.len(),
    ensures
        tidy(first, second, i, j + 1, Some(opened_by_second(first, i, second[j]))),
{
    let p = opened_by_second(first, i, second[j]);
    assert(valid_utf8(second[j].text));
    assert(p.reach == second[j].end);
}

/// Taking in an edit of `second` that cuts no character leaves the growing
/// edit tidy.
pub proof fn lemma_tidy_take_second(
    first: Seq<Edit>,
    second: Seq<Edit>,
    i: int,
    j: int,
    p: Pending,
)
    requires
        coherent(first, second, i, j, Some(p)),
        tidy(first, second, i, j, Some(p)),
        all_utf8(first),
        all_utf8(second),
        j < second.len(),
        second[j].start < p.reach,
        !cuts_in(first, second[j]),
    ensures
        tidy(first, second, i, j + 1, Some(with_second(p, second[j]))),
{
    let e = second[j];
    let q = with_second(p, e);
    let size = p.tail.len() as int;
    lemma_tail_cuts(first, second, i, j, p);
    is_char_boundary_start_end_of_seq(p.tail);
    lemma_valid_between(p.tail, 0, kept_before(p, e));
    lemma_valid_between(p.tail, gone_with(p, e), size);
    if e.end < p.reach {
        let piece = first[i - 1].text;
        assert(q.tail =~= piece.subrange(piece.len() - q.tail.len(), piece.len() as int));
    } else {
        assert(q.reach == second[j].end);
    }
    valid_utf8_concat(p.fixed, p.tail.subrange(0, kept_before(p, e)));
    valid_utf8_concat(p.fixed + p.tail.subrange(0, kept_before(p, e)), e.text);
}

/// Taking in an edit of `first` that is cut inside no character leaves the
/// growing edit tidy.
pub proof fn lemma_tidy_take_first(
    first: Seq<Edit>,
    second: Seq<Edit>,
    i: int,
    j: int,
    p: Pending,
)
    requires
        coherent(first, second, i, j, Some(p)),
        tidy(first, second, i, j, Some(p)),
        all_utf8(first),
        !cuts_character(first, second),
        i < first.len(),
        image_start(first, i) < p.reach,
    ensures
        tidy(first, second, i + 1, j, Some(with_first(p, first, i))),
{
    let piece = first[i].text;
    let size = piece.len() as int;
    let q = with_first(p, first, i);
    lemma_reach_cuts(first, second, i, j, p);
    assert(0 <= first[i].start <= first[i].end);
    if i > 0 {
        assert(first[i - 1].end <= first[i].start);
    }
    assert(drift(first, i + 1) == drift(first, i) + first[i].delta());
    valid_utf8_concat(p.fixed, p.tail);
    is_char_boundary_start_end_of_seq(piece);
    lemma_valid_between(piece, covered_of(p, first, i), size);
    if p.reach < image_end(first, i) {
        assert(q.tail =~= piece.subrange(size - q.tail.len(), size));
    } else {
        let k = choose|k: int| 0 <= k < j && p.reach == (#[trigger] second[k]).end;
        assert(q.reach == second[k].end);
    }
}

/// From every coherent and tidy state on, the composition of lists of UTF-8
/// replacements that cut no character yields UTF-8 replacements.
proof fn lemma_compose_from_utf8(
    first: Seq<Edit>,
    second: Seq<Edit>,
    i: int,
    j: int,
    pending: Option<Pending>,
)
    requires
        coherent(first, second, i, j, pending),
        tidy(first, second, i, j, pending),
        all_utf8(first),
        all_utf8(second),
        !cuts_character(first, second),
    ensures
        all_utf8(compose_from(first, second, i, j, pending)),
    decreases
        2 * (first.len() - i) + 2 * (second.len() - j) + (if pending is Some {
            1int
        } else {
            0int
        }),
{
    let out = compose_from(first, second, i, j, pending);
    lemma_coherent_steps(first, second, i, j, pending);
    match pending {
        None => {
            if i < first.len() && (j >= second.len() || image_start(first, i) <= second[j].start) {
                let p = opened_by_first(first, i);
                lemma_tidy_open_first(first, second, i, j);
                lemma_compose_from_utf8(first, second, i + 1, j, Some(p));
                assert(out == compose_from(first, second, i + 1, j, Some(p)));
            } else if j < second.len() {
                let p = opened_by_second(first, i, second[j]);
                lemma_tidy_open_second(first, second, i, j);
                lemma_compose_from_utf8(first, second, i, j + 1, Some(p));
                assert(out == compose_from(first, second, i, j + 1, Some(p)));
            } else {
                assert(out.len() == 0);
            }
        },
        Some(p) => {
            if j < second.len() && second[j].start < p.reach {
                let q = with_second(p, second[j]);
                assert(!cuts_in(first, second[j]));
                lemma_tidy_take_second(first, second, i, j, p);
                lemma_compose_from_utf8(first, second, i, j + 1, Some(q));
                assert(out == compose_from(first, second, i, j + 1, Some(q)));
            } else if i < first.len() && image_start(first, i) < p.reach {
                let q = with_first(p, first, i);
                lemma_tidy_take_first(first, second, i, j, p);
                lemma_compose_from_utf8(first, second, i + 1, j, Some(q));
                assert(out == compose_from(first, second, i + 1, j, Some(q)));
            } else {
                let c = closed(p, first, i);
                let more = compose_from(first, second, i, j, None);
                valid_utf8_concat(p.fixed, p.tail);
                lemma_compose_from_utf8(first, second, i, j, None);
                assert(out == seq![c] + more);
                assert forall|k: int| 0 <= k < out.len() implies valid_utf8(
                    (#[trigger] out[k]).text,
                ) by {
                    if k > 0 {
                        assert(out[k] == more[k - 1]);
                    }
                }
            }
        },
    }
}

/// Composition keeps UTF-8: composing canonical lists of UTF-8 replacements,
/// where no edit of `second` begins or ends inside a character of a
/// replacement of `first`, yields UTF-8 replacements.
pub proof fn composition_keeps_utf8(first: Seq<Edit>, second: Seq<Edit>)
    requires
        canonical(first),
        canonical(second),
        all_utf8(first),
        all_utf8(second),
        !cuts_character(first, second),
    ensures
        all_utf8(compose(first, second)),
{
    if second.len() > 0 {
        assert(0 <= second[0].start);
    }
    lemma_compose_from_utf8(first, second, 0, 0, None);
}

} // verus!
