//! What holds of normalization for all texts and all lists.

use vstd::prelude::*;
use crate::model::{Edit, drift, canonical, fits, applied};
use crate::shape::{gap_start, lemma_applied_len};
use crate::compose::{
    lemma_images_ordered,
    lemma_image_not_negative,
    image_start,
    opened_by_first,
    opened_by_second,
    closed,
    compose_from,
};
use vstd::utf8::valid_utf8;
use crate::laws::composition_keeps_effect;
use crate::edits::EditError;
use crate::normalize::{
    replayed,
    replayable,
    normal,
    normalized,
    has_invalid_range,
    lemma_normal_canonical,
};
use crate::text_laws::{well_placed, composition_keeps_text, composition_of_text_succeeds};

verus! {

/// Normalization keeps the effect: where every edit of a list lies in the
/// text as the edits before it leave it, the normal form fits the first text
/// and produces from it at once what the edits produce one after the other.
pub proof fn normalization_keeps_effect(text: Seq<u8>, edits: Seq<Edit>)
    requires
        replayable(text, edits),
    ensures
        fits(normal(edits), text.len() as int),
        applied(text, normal(edits)) == replayed(text, edits),
    decreases edits.len(),
{
    if edits.len() == 0 {
        assert(applied(text, normal(edits)) =~= text);
    } else {
        normalization_keeps_effect(text, edits.drop_last());
        composition_keeps_effect(text, normal(edits.drop_last()), seq![edits.last()]);
    }
}

/// A canonical list written as edits to make one after the other: each edit
/// moved by the drift of the edits before it.
pub open spec fn in_sequence(edits: Seq<Edit>) -> Seq<Edit> {
    Seq::new(edits.len(), |k: int| edits[k].shifted(drift(edits, k)))
}

/// The drift of the first `n` edits is that of any list that starts with
/// them.
pub proof fn lemma_drift_of_prefix(edits: Seq<Edit>, other: Seq<Edit>, n: int)
    requires
        0 <= n <= edits.len(),
        n <= other.len(),
        forall|k: int| 0 <= k < n ==> edits[k] == other[k],
    ensures
        drift(edits, n) == drift(other, n),
    decreases n,
{
    if n > 0 {
        lemma_drift_of_prefix(edits, other, n - 1);
    }
}

/// Composing a canonical list with one edit that lies behind all of it in the
/// text that the list produces hands out the rest of the list and then that
/// edit, moved back into the first text.
proof fn lemma_compose_behind(first: Seq<Edit>, e: Edit, i: int)
    requires
        canonical(first),
        0 <= i <= first.len(),
        gap_start(first, first.len() as int) <= e.start <= e.end,
    ensures
        compose_from(first, seq![e.shifted(drift(first, first.len() as int))], i, 0, None)
            == first.skip(i) + seq![e],
    decreases first.len() - i,
{
    let n = first.len() as int;
    let moved = e.shifted(drift(first, n));
    let second = seq![moved];
    if i < n {
        let p = opened_by_first(first, i);
        lemma_images_ordered(first, i + 1, n);
        lemma_images_ordered(first, i, i + 1);
        assert(0 <= first[i].start <= first[i].end);
        assert(drift(first, i + 1) == drift(first, i) + first[i].delta());
        assert(image_start(first, i) <= moved.start);
        assert(!(moved.start < p.reach));
        if i + 1 < n {
            assert(first[i + 1 - 1].end <= first[i + 1].start);
            assert(!(image_start(first, i + 1) < p.reach));
        }
        lemma_compose_behind(first, e, i + 1);
        assert(closed(p, first, i + 1).text =~= first[i].text);
        assert(closed(p, first, i + 1) == first[i]);
        assert(second[0] == moved);
        assert(compose_from(first, second, i, 0, None) == compose_from(
            first,
            second,
            i + 1,
            0,
            Some(p),
        ));
        assert(compose_from(first, second, i + 1, 0, Some(p)) == seq![first[i]] + compose_from(
            first,
            second,
            i + 1,
            0,
            None,
        ));
        assert(compose_from(first, second, i, 0, None) == seq![first[i]] + (first.skip(i + 1)
            + seq![e]));
        assert(seq![first[i]] + (first.skip(i + 1) + seq![e]) =~= first.skip(i) + seq![e]);
    } else {
        let p = opened_by_second(first, n, moved);
        assert(closed(p, first, n).text =~= e.text);
        assert(closed(p, first, n) == e);
        assert(second[0] == moved);
        assert(compose_from(first, second, n, 0, None) == compose_from(
            first,
            second,
            n,
            1,
            Some(p),
        ));
        assert(compose_from(first, second, n, 1, None) =~= Seq::<Edit>::empty());
        assert(compose_from(first, second, n, 1, Some(p)) == seq![e] + Seq::<Edit>::empty());
        assert(compose_from(first, second, n, 0, None) =~= first.skip(i) + seq![e]);
    }
}

/// Writing a list in sequence keeps the effect: the edits of a canonical list
/// that fits a text, written as edits to make one after the other, can be
/// carried out in turn and produce what the list produces at once.
pub proof fn sequence_keeps_effect(text: Seq<u8>, edits: Seq<Edit>)
    requires
        fits(edits, text.len() as int),
    ensures
        replayable(text, in_sequence(edits)),
        replayed(text, in_sequence(edits)) == applied(text, edits),
    decreases edits.len(),
{
    if edits.len() > 0 {
        let n = edits.len() as int;
        let init = edits.drop_last();
        let last = edits.last();
        let moved = last.shifted(drift(init, n - 1));
        assert(fits(init, text.len() as int));
        sequence_keeps_effect(text, init);
        assert(in_sequence(edits).drop_last() =~= in_sequence(init)) by {
            assert forall|k: int| 0 <= k < n - 1 implies in_sequence(edits).drop_last()[k]
                == in_sequence(init)[k] by {
                lemma_drift_of_prefix(edits, init, k);
            }
        }
        lemma_drift_of_prefix(edits, init, n - 1);
        assert(in_sequence(edits).last() == moved);
        assert(0 <= last.start <= last.end <= text.len());
        if n > 1 {
            assert(edits[n - 1 - 1].end <= edits[n - 1].start);
        }
        lemma_image_not_negative(init, n - 1);
        lemma_applied_len(text, init);
        assert(fits(seq![moved], applied(text, init).len() as int));
        lemma_compose_behind(init, last, 0);
        assert(init.skip(0) + seq![last] =~= edits);
        composition_keeps_effect(text, init, seq![moved]);
    } else {
        assert(applied(text, edits) =~= text);
    }
}

/// A canonical list is the normal form of itself written as edits to make one
/// after the other.
pub proof fn normal_form_of_sequence(edits: Seq<Edit>)
    requires
        canonical(edits),
    ensures
        normal(in_sequence(edits)) == edits,
    decreases edits.len(),
{
    if edits.len() > 0 {
        let n = edits.len() as int;
        let init = edits.drop_last();
        let last = edits.last();
        assert(canonical(init));
        normal_form_of_sequence(init);
        assert(in_sequence(edits).drop_last() =~= in_sequence(init)) by {
            assert forall|k: int| 0 <= k < n - 1 implies in_sequence(edits).drop_last()[k]
                == in_sequence(init)[k] by {
                lemma_drift_of_prefix(edits, init, k);
            }
        }
        lemma_drift_of_prefix(edits, init, n - 1);
        assert(in_sequence(edits).last() == last.shifted(drift(init, n - 1)));
        assert(0 <= last.start <= last.end);
        if n > 1 {
            assert(edits[n - 1 - 1].end <= edits[n - 1].start);
        }
        lemma_compose_behind(init, last, 0);
        assert(init.skip(0) + seq![last] =~= edits);
    } else {
        assert(normal(in_sequence(edits)) =~= edits);
    }
}

/// Normalization is idempotent: the normal form of a list of well formed
/// edits, written as edits to make one after the other as the list itself
/// was, has the same normal form.
pub proof fn normalization_is_idempotent_in_sequence(edits: Seq<Edit>)
    requires
        forall|k: int| 0 <= k < edits.len() ==> 0 <= (#[trigger] edits[k]).start <= edits[k].end,
    ensures
        normal(in_sequence(normal(edits))) == normal(edits),
{
    lemma_normal_canonical(edits);
    normal_form_of_sequence(normal(edits));
}

/// Normalization is idempotent on what reads the same both ways: where the
/// ranges of a list are well formed and no edit of its normal form but the
/// last changes the length of the text, so that the normal form says the same
/// carried out at once and one edit after the other, normalizing the normal
/// form gives the normal form.
pub proof fn normalization_is_idempotent(edits: Seq<Edit>)
    requires
        forall|k: int| 0 <= k < edits.len() ==> 0 <= (#[trigger] edits[k]).start <= edits[k].end,
        forall|k: int|
            0 <= k < normal(edits).len() - 1 ==> (#[trigger] normal(edits)[k]).delta() == 0,
    ensures
        normal(normal(edits)) == normal(edits),
{
    let list = normal(edits);
    lemma_normal_canonical(edits);
    assert forall|k: int| 0 <= k < list.len() implies #[trigger] drift(list, k) == 0 by {
        lemma_no_drift(list, k);
    }
    assert(in_sequence(list) =~= list);
    normal_form_of_sequence(list);
}

/// Edits that keep the length of the text cause no drift.
proof fn lemma_no_drift(edits: Seq<Edit>, n: int)
    requires
        0 <= n <= edits.len(),
        forall|k: int| 0 <= k < n ==> (#[trigger] edits[k]).delta() == 0,
    ensures
        drift(edits, n) == 0,
    decreases n,
{
    if n > 0 {
        lemma_no_drift(edits, n - 1);
    }
}

/// The text is UTF-8, and every edit of the list is well placed in the text
/// as the edits before it leave it.
pub open spec fn well_replayable(text: Seq<u8>, edits: Seq<Edit>) -> bool
    decreases edits.len(),
{
    if edits.len() == 0 {
        valid_utf8(text)
    } else {
        well_replayable(text, edits.drop_last()) && well_placed(
            replayed(text, edits.drop_last()),
            seq![edits.last()],
        )
    }
}

/// Normalizing edits of text succeeds: where the text is UTF-8 and offsets
/// can address it, and every edit is well placed in the text as the edits
/// before it leave it, the result is the normal form, which is well placed in
/// the first text and produces what the edits produce one after the other.
pub proof fn normalization_of_text_succeeds(text: Seq<u8>, edits: Seq<Edit>)
    requires
        well_replayable(text, edits),
        text.len() <= usize::MAX,
    ensures
        normalized(edits) == Ok::<Seq<Edit>, EditError>(normal(edits)),
        well_placed(text, normal(edits)),
        applied(text, normal(edits)) == replayed(text, edits),
    decreases edits.len(),
{
    if edits.len() == 0 {
        assert(applied(text, normal(edits)) =~= text);
    } else {
        let init = edits.drop_last();
        let one = seq![edits.last()];
        normalization_of_text_succeeds(text, init);
        composition_keeps_text(text, normal(init), one);
        composition_of_text_succeeds(text, normal(init), one);
        composition_keeps_effect(text, normal(init), one);
        assert(!has_invalid_range(init));
        assert(one[0].start <= one[0].end);
        assert forall|k: int| 0 <= k < edits.len() implies !((#[trigger] edits[k]).start
            > edits[k].end) by {
            if k < init.len() {
                assert(init[k] == edits[k]);
            }
        }
    }
}

} // verus!
