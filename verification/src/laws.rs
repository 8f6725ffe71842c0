//! What holds of composition for all texts and all canonical lists.

use vstd::prelude::*;
use crate::model::{Edit, drift, canonical, fits, applied, lemma_canonical_order};
use crate::shape::lemma_applied_len;
use crate::compose::{
    image_start,
    opened_by_first,
    opened_by_second,
    closed,
    compose_from,
    compose,
};
use crate::effect::lemma_compose_from;

verus! {

/// Composition keeps the effect: where `first` fits a text and `second` fits
/// the text that `first` produces, the composed list fits the first text and
/// produces from it what `second` produces from the text that `first`
/// produces.
pub proof fn composition_keeps_effect(text: Seq<u8>, first: Seq<Edit>, second: Seq<Edit>)
    requires
        fits(first, text.len() as int),
        fits(second, applied(text, first).len() as int),
    ensures
        fits(compose(first, second), text.len() as int),
        applied(text, compose(first, second)) == applied(applied(text, first), second),
{
    assert(second.skip(0) =~= second);
    lemma_compose_from(text, first, second, 0, 0, None, 0);
}

/// Any two canonical lists fit some text and the text that the first
/// produces from it.
pub proof fn lemma_some_text_fits(first: Seq<Edit>, second: Seq<Edit>) -> (text: Seq<u8>)
    requires
        canonical(first),
        canonical(second),
    ensures
        fits(first, text.len() as int),
        fits(second, applied(text, first).len() as int),
{
    let end1 = if first.len() > 0 {
        first.last().end
    } else {
        0
    };
    let end2 = if second.len() > 0 {
        second.last().end
    } else {
        0
    };
    let lost = if drift(first, first.len() as int) < 0 {
        -drift(first, first.len() as int)
    } else {
        0
    };
    if first.len() > 0 {
        assert(0 <= first.last().start <= first.last().end);
    }
    if second.len() > 0 {
        assert(0 <= second.last().start <= second.last().end);
    }
    let len = end1 + end2 + lost;
    let text = Seq::new(len as nat, |k: int| 0u8);
    assert forall|k: int| 0 <= k < first.len() implies (#[trigger] first[k]).end <= len by {
        if k < first.len() - 1 {
            lemma_canonical_order(first, k, first.len() - 1);
            assert(first.last().start <= first.last().end);
        }
    }
    lemma_applied_len(text, first);
    assert forall|k: int| 0 <= k < second.len() implies (#[trigger] second[k]).end <= applied(
        text,
        first,
    ).len() by {
        if k < second.len() - 1 {
            lemma_canonical_order(second, k, second.len() - 1);
            assert(second.last().start <= second.last().end);
        }
    }
    text
}

/// The composition of two canonical lists is canonical.
pub proof fn composition_is_canonical(first: Seq<Edit>, second: Seq<Edit>)
    requires
        canonical(first),
        canonical(second),
    ensures
        canonical(compose(first, second)),
{
    let text = lemma_some_text_fits(first, second);
    composition_keeps_effect(text, first, second);
}

/// With nothing left of the second list, the composition hands out the rest
/// of a canonical first list as it is.
proof fn lemma_rest_of_first(first: Seq<Edit>, i: int)
    requires
        canonical(first),
        0 <= i <= first.len(),
    ensures
        compose_from(first, Seq::empty(), i, 0, None) == first.skip(i),
    decreases first.len() - i,
{
    let none = Seq::<Edit>::empty();
    if i < first.len() {
        let p = opened_by_first(first, i);
        assert(drift(first, i + 1) == drift(first, i) + first[i].delta());
        if i + 1 < first.len() {
            assert(first[i + 1 - 1].end <= first[i + 1].start);
            assert(!(image_start(first, i + 1) < p.reach));
        }
        lemma_rest_of_first(first, i + 1);
        assert(closed(p, first, i + 1).text =~= first[i].text);
        assert(closed(p, first, i + 1) == first[i]);
        assert(compose_from(first, none, i + 1, 0, Some(p)) == seq![first[i]] + first.skip(i + 1));
        assert(seq![first[i]] + first.skip(i + 1) =~= first.skip(i));
    } else {
        assert(first.skip(i) =~= none);
    }
}

/// With no first list, the composition hands out the rest of a canonical
/// second list as it is.
proof fn lemma_rest_of_second(second: Seq<Edit>, j: int)
    requires
        canonical(second),
        0 <= j <= second.len(),
    ensures
        compose_from(Seq::empty(), second, 0, j, None) == second.skip(j),
    decreases second.len() - j,
{
    let none = Seq::<Edit>::empty();
    if j < second.len() {
        let p = opened_by_second(none, 0, second[j]);
        if j + 1 < second.len() {
            assert(second[j + 1 - 1].end <= second[j + 1].start);
        }
        lemma_rest_of_second(second, j + 1);
        assert(closed(p, none, 0).text =~= second[j].text);
        assert(closed(p, none, 0) == second[j]);
        assert(compose_from(none, second, 0, j + 1, Some(p)) == seq![second[j]] + second.skip(
            j + 1,
        ));
        assert(seq![second[j]] + second.skip(j + 1) =~= second.skip(j));
    } else {
        assert(second.skip(j) =~= none);
    }
}

/// The empty list is the identity of composition on either side: composed
/// with the empty list, a canonical list stays as it is.
pub proof fn composition_has_identity(edits: Seq<Edit>)
    requires
        canonical(edits),
    ensures
        compose(edits, Seq::empty()) == edits,
        compose(Seq::empty(), edits) == edits,
{
    lemma_rest_of_first(edits, 0);
    lemma_rest_of_second(edits, 0);
    assert(edits.skip(0) =~= edits);
}

/// Composition is associative by its effect: where each of three lists fits
/// the text that the one before it produces, composing the first two and then
/// the third produces from the text what composing the first with the
/// composition of the other two does.
pub proof fn composition_associates_by_effect(
    text: Seq<u8>,
    first: Seq<Edit>,
    second: Seq<Edit>,
    third: Seq<Edit>,
)
    requires
        fits(first, text.len() as int),
        fits(second, applied(text, first).len() as int),
        fits(third, applied(applied(text, first), second).len() as int),
    ensures
        applied(text, compose(compose(first, second), third)) == applied(
            text,
            compose(first, compose(second, third)),
        ),
        applied(text, compose(compose(first, second), third)) == applied(
            applied(applied(text, first), second),
            third,
        ),
{
    composition_keeps_effect(text, first, second);
    composition_keeps_effect(text, compose(first, second), third);
    composition_keeps_effect(applied(text, first), second, third);
    composition_keeps_effect(text, first, compose(second, third));
}

} // verus!
