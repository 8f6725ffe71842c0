//! Normalizing a list of edits that were made one after the other, each
//! against the text as the edits before it left it, into one canonical list
//! against the first text.

use vstd::prelude::*;
use vstd::slice::slice_subrange;
use std::ops::Range;
use crate::model::{Edit, canonical, fits, applied};
use crate::compose::compose;
use crate::edits::{
    EditError,
    Text,
    edit_of,
    model,
    defect_at,
    defect_from,
    lemma_defect_canonical,
};
use crate::merge::{merged, merge_lists};
use crate::laws::composition_is_canonical;

verus! {

/// The text that results when the edits are carried out one at a time, in the
/// order of the list, each on the text that the one before it produced.
pub open spec fn replayed(text: Seq<u8>, edits: Seq<Edit>) -> Seq<u8>
    decreases edits.len(),
{
    if edits.len() == 0 {
        text
    } else {
        applied(replayed(text, edits.drop_last()), seq![edits.last()])
    }
}

/// Every edit of the list has a well formed range that lies in the text as
/// the edits before it leave it.
pub open spec fn replayable(text: Seq<u8>, edits: Seq<Edit>) -> bool
    decreases edits.len(),
{
    edits.len() == 0 || (replayable(text, edits.drop_last()) && fits(
        seq![edits.last()],
        replayed(text, edits.drop_last()).len() as int,
    ))
}

/// The canonical list that does at once what the edits do one after the
/// other: each edit in turn is composed onto the list for the edits before
/// it.
pub open spec fn normal(edits: Seq<Edit>) -> Seq<Edit>
    decreases edits.len(),
{
    if edits.len() == 0 {
        Seq::empty()
    } else {
        compose(normal(edits.drop_last()), seq![edits.last()])
    }
}

/// Some range of the list starts behind its end.
pub open spec fn has_invalid_range(edits: Seq<Edit>) -> bool {
    exists|k: int| 0 <= k < edits.len() && (#[trigger] edits[k]).start > edits[k].end
}

/// What composing the edits one by one gives: the error of the first
/// composition that fails, else the list that the last one gives.
pub open spec fn folded(edits: Seq<Edit>) -> Result<Seq<Edit>, EditError>
    decreases edits.len(),
{
    if edits.len() == 0 {
        Ok(Seq::empty())
    } else {
        match folded(edits.drop_last()) {
            Err(e) => Err(e),
            Ok(list) => merged(list, seq![edits.last()]),
        }
    }
}

/// What normalizing gives: `InvalidRange` where a range starts behind its
/// end, else what composing the edits one by one gives.
pub open spec fn normalized(edits: Seq<Edit>) -> Result<Seq<Edit>, EditError> {
    if has_invalid_range(edits) {
        Err(EditError::InvalidRange)
    } else {
        folded(edits)
    }
}

/// The normal form of a list of well formed edits is canonical.
pub proof fn lemma_normal_canonical(edits: Seq<Edit>)
    requires
        forall|k: int| 0 <= k < edits.len() ==> 0 <= (#[trigger] edits[k]).start <= edits[k].end,
    ensures
        canonical(normal(edits)),
    decreases edits.len(),
{
    if edits.len() > 0 {
        let init = edits.drop_last();
        assert forall|k: int| 0 <= k < init.len() implies 0 <= (#[trigger] init[k]).start
            <= init[k].end by {
            assert(init[k] == edits[k]);
        }
        lemma_normal_canonical(init);
        let one = seq![edits.last()];
        assert(canonical(one));
        composition_is_canonical(normal(init), one);
    }
}

/// Composing the edits one by one never finds its own list out of order,
/// and where it succeeds, it gives the normal form, which is canonical.
pub proof fn lemma_folded_normal(edits: Seq<Edit>)
    requires
        forall|k: int| 0 <= k < edits.len() ==> 0 <= (#[trigger] edits[k]).start,
    ensures
        folded(edits) != Err::<Seq<Edit>, EditError>(EditError::MisorderedInput),
        folded(edits) matches Ok(list) ==> list == normal(edits) && canonical(list),
    decreases edits.len(),
{
    if edits.len() > 0 {
        let init = edits.drop_last();
        let one = seq![edits.last()];
        assert forall|k: int| 0 <= k < init.len() implies 0 <= (#[trigger] init[k]).start by {
            assert(init[k] == edits[k]);
        }
        lemma_folded_normal(init);
        if let Ok(list) = folded(init) {
            lemma_defect_canonical(list);
            lemma_defect_canonical(one);
            assert(defect_at(one, 0) != Some(EditError::MisorderedInput));
            assert(defect_from(one, 1) is None);
            if canonical(one) {
                composition_is_canonical(list, one);
            }
        }
    }
}

/// An error of composing the first `k` edits one by one is the error of
/// composing all of them.
proof fn lemma_folded_error_stays(edits: Seq<Edit>, k: int)
    requires
        0 <= k <= edits.len(),
        folded(edits.take(k)) is Err,
    ensures
        folded(edits) == folded(edits.take(k)),
    decreases edits.len() - k,
{
    if k < edits.len() {
        assert(edits.take(k + 1).drop_last() =~= edits.take(k));
        lemma_folded_error_stays(edits, k + 1);
    } else {
        assert(edits.take(k) =~= edits);
    }
}

/// Normalizes a list of edits that were made one after the other, each
/// against the text as the edits before it left it: the result is the
/// canonical list against the first text that does at once what they do in
/// turn.
///
/// Fails with `InvalidRange` where a range starts behind its end, with
/// `InvalidEdit` where an edit begins or ends inside a character of a
/// replacement made before it, and with `OutOfBounds` where a range of a
/// composed list would end beyond the largest offset.
pub fn normalize<T: Text>(edits: &[(Range<usize>, T)]) -> (res: Result<
    Vec<(Range<usize>, String)>,
    EditError,
>)
    ensures
        match res {
            Ok(list) => {
                &&& normalized(model(edits@)) == Ok::<Seq<Edit>, EditError>(model(list@))
                &&& model(list@) == normal(model(edits@))
                &&& canonical(model(list@))
            },
            Err(e) => {
                &&& normalized(model(edits@)) == Err::<Seq<Edit>, EditError>(e)
                &&& e != EditError::MisorderedInput
            },
        },
{
    let ghost raw = model(edits@);
    let n: usize = edits.len();
    let mut k: usize = 0;
    while k < n
        invariant
            raw == model(edits@),
            n == edits@.len(),
            0 <= k <= n,
            forall|t: int| 0 <= t < k ==> 0 <= (#[trigger] raw[t]).start <= raw[t].end,
        decreases n - k,
    {
        assert(raw[k as int] == edit_of(edits@[k as int]));
        if edits[k].0.start > edits[k].0.end {
            return Err(EditError::InvalidRange);
        }
        k += 1;
    }
    let mut list: Vec<(Range<usize>, String)> = Vec::new();
    k = 0;
    assert(raw.take(0) =~= Seq::<Edit>::empty());
    assert(model(list@) =~= Seq::<Edit>::empty());
    while k < n
        invariant
            raw == model(edits@),
            n == edits@.len(),
            0 <= k <= n,
            forall|t: int| 0 <= t < n ==> 0 <= (#[trigger] raw[t]).start <= raw[t].end,
            !has_invalid_range(raw),
            folded(raw.take(k as int)) == Ok::<Seq<Edit>, EditError>(model(list@)),
        decreases n - k,
    {
        let one = slice_subrange(edits, k, k + 1);
        proof {
            assert(raw.take(k + 1).drop_last() =~= raw.take(k as int));
            assert(raw.take(k + 1).last() == raw[k as int]);
            assert(model(one@) =~= seq![raw[k as int]]);
        }
        match merge_lists(list.as_slice(), one) {
            Ok(next) => {
                list = next;
            },
            Err(e) => {
                proof {
                    lemma_folded_error_stays(raw, k + 1);
                    lemma_folded_normal(raw);
                }
                return Err(e);
            },
        }
        k += 1;
    }
    proof {
        assert(raw.take(n as int) =~= raw);
        lemma_folded_normal(raw);
    }
    Ok(list)
}

} // verus!
