//! Carrying out a canonical list of edits on a text.

use vstd::prelude::*;
use vstd::utf8::{
    encode_utf8,
    encode_utf8_valid_utf8,
    is_char_boundary,
    is_char_boundary_start_end_of_seq,
};
use std::ops::Range;
use crate::model::{Edit, canonical, fits, applied_from, applied, lemma_canonical_order};
use crate::edits::{EditError, Text, edit_of, model, defect, validate, lemma_model_utf8};
use crate::chars::{lemma_boundary_in_piece, push_text, text_before, text_from};
use crate::text_laws::well_placed;

verus! {

/// The range of the edit begins and ends between two characters of the text.
pub open spec fn between_characters(text: Seq<u8>, e: Edit) -> bool {
    is_char_boundary(text, e.start) && is_char_boundary(text, e.end)
}

/// Some range of the list begins or ends inside a character of the text.
pub open spec fn misplaced(text: Seq<u8>, edits: Seq<Edit>) -> bool {
    exists|k: int| 0 <= k < edits.len() && !between_characters(text, #[trigger] edits[k])
}

/// What carrying out the edits on a text gives: the defect of the list, else
/// `OutOfBounds` where its last range ends beyond the text, else `InvalidEdit`
/// where a range begins or ends inside a character of the text, else the
/// text that the edits produce.
pub open spec fn replaced(text: Seq<u8>, edits: Seq<Edit>) -> Result<Seq<u8>, EditError> {
    if defect(edits) is Some {
        Err(defect(edits)->0)
    } else if edits.len() > 0 && edits.last().end > text.len() {
        Err(EditError::OutOfBounds)
    } else if misplaced(text, edits) {
        Err(EditError::InvalidEdit)
    } else {
        Ok(applied(text, edits))
    }
}

/// A canonical list whose last range ends in the text fits the text.
pub proof fn lemma_fits_by_last(edits: Seq<Edit>, len: int)
    requires
        canonical(edits),
        edits.len() > 0 ==> edits.last().end <= len,
    ensures
        fits(edits, len),
{
    assert forall|k: int| 0 <= k < edits.len() implies (#[trigger] edits[k]).end <= len by {
        if k < edits.len() - 1 {
            lemma_canonical_order(edits, k, edits.len() - 1);
            assert(edits.last().start <= edits.last().end);
        }
    }
}

/// Carries out a canonical list of edits on a text: the stretches of the text
/// between the ranges, with each replacement in the place of its range.
///
/// Fails with the defect of a list that is not canonical, with `OutOfBounds`
/// where a range ends beyond the text, and with `InvalidEdit` where a range
/// begins or ends inside a character of the text.
pub fn apply<T: Text>(text: &str, edits: &[(Range<usize>, T)]) -> (res: Result<String, EditError>)
    ensures
        match res {
            Ok(s) => replaced(encode_utf8(text@), model(edits@)) == Ok::<Seq<u8>, EditError>(
                encode_utf8(s@),
            ),
            Err(e) => replaced(encode_utf8(text@), model(edits@)) == Err::<Seq<u8>, EditError>(e),
        },
{
    let source = text.as_bytes();
    let ghost list = model(edits@);
    match validate(edits) {
        Err(e) => {
            return Err(e);
        },
        Ok(_) => {},
    }
    let n: usize = edits.len();
    if n > 0 && edits[n - 1].0.end > source.len() {
        assert(list.last() == edit_of(edits@[n - 1]));
        return Err(EditError::OutOfBounds);
    }
    proof {
        if n > 0 {
            assert(list.last() == edit_of(edits@[n - 1]));
        }
        lemma_fits_by_last(list, source@.len() as int);
        assert(list.skip(0) =~= list);
    }
    let mut k: usize = 0;
    while k < n
        invariant
            list == model(edits@),
            n == edits@.len(),
            0 <= k <= n,
            source@ == encode_utf8(text@),
            defect(list) is None,
            !(list.len() > 0 && list.last().end > source@.len()),
            forall|t: int| 0 <= t < k ==> between_characters(source@, #[trigger] list[t]),
        decreases n - k,
    {
        assert(list[k as int] == edit_of(edits@[k as int]));
        if !text.is_char_boundary(edits[k].0.start) || !text.is_char_boundary(edits[k].0.end) {
            return Err(EditError::InvalidEdit);
        }
        k += 1;
    }
    proof {
        lemma_model_utf8(edits@);
        encode_utf8_valid_utf8(text@);
    }
    let mut out: String = String::new();
    let mut rest: &str = text;
    let mut prev: usize = 0;
    k = 0;
    assert(encode_utf8(out@) =~= Seq::<u8>::empty());
    assert(source@.subrange(0, source@.len() as int) =~= source@);
    proof {
        is_char_boundary_start_end_of_seq(source@);
    }
    while k < n
        invariant
            list == model(edits@),
            n == edits@.len(),
            source@ == encode_utf8(text@),
            well_placed(source@, list),
            0 <= k <= n,
            prev <= source@.len(),
            is_char_boundary(source@, prev as int),
            k < n ==> prev <= list[k as int].start,
            encode_utf8(rest@) == source@.subrange(prev as int, source@.len() as int),
            encode_utf8(out@) + applied_from(source@, list.skip(k as int), prev as int) == applied(
                source@,
                list,
            ),
        decreases n - k,
    {
        let start: usize = edits[k].0.start;
        let end: usize = edits[k].0.end;
        let ghost so_far = encode_utf8(out@);
        let ghost len = source@.len() as int;
        proof {
            let e = list[k as int];
            assert(e == edit_of(edits@[k as int]));
            assert(between_characters(source@, e));
            assert(0 <= e.start <= e.end <= len);
            assert(list.skip(k as int)[0] == e);
            assert(list.skip(k as int).drop_first() =~= list.skip(k + 1));
            if k + 1 < n {
                assert(list[k + 1 - 1].end <= list[k + 1].start);
            }
            encode_utf8_valid_utf8(rest@);
            lemma_boundary_in_piece(source@, prev as int, len, encode_utf8(rest@), start as int);
            lemma_boundary_in_piece(source@, prev as int, len, encode_utf8(rest@), end as int);
        }
        push_text(&mut out, text_before(rest, start - prev));
        push_text(&mut out, edits[k].1.text());
        rest = text_from(rest, end - prev);
        proof {
            let e = list[k as int];
            assert(source@.subrange(prev as int, len).subrange(0, start - prev)
                =~= source@.subrange(prev as int, start as int));
            assert(source@.subrange(prev as int, len).subrange(end - prev, len - prev)
                =~= source@.subrange(end as int, len));
            assert(encode_utf8(out@) + applied_from(source@, list.skip(k + 1), end as int)
                =~= so_far + (source@.subrange(prev as int, start as int) + e.text + applied_from(
                source@,
                list.skip(k + 1),
                end as int,
            )));
        }
        prev = end;
        k += 1;
    }
    push_text(&mut out, rest);
    Ok(out)
}

} // verus!
