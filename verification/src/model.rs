//! The mathematical model: edits over byte sequences, what it means for a list
//! of edits to be canonical, and the text that applying such a list produces.

use vstd::prelude::*;

verus! {

/// One replacement instruction against a snapshot of a text: the bytes in
/// `start..end` are to be replaced by `text`.
pub struct Edit {
    pub start: int,
    pub end: int,
    pub text: Seq<u8>,
}

impl Edit {
    /// How much longer the text gets when this edit is carried out.
    pub open spec fn delta(self) -> int {
        self.text.len() - (self.end - self.start)
    }

    /// The same edit, moved `by` positions to the right.
    pub open spec fn shifted(self, by: int) -> Edit {
        Edit { start: self.start + by, end: self.end + by, text: self.text }
    }
}

/// The sum of the length deltas of the first `n` edits: the distance between a
/// position behind those edits in the edited text and the same position in the
/// text before.
pub open spec fn drift(edits: Seq<Edit>, n: int) -> int
    decreases n,
{
    if n <= 0 {
        0
    } else {
        drift(edits, n - 1) + edits[n - 1].delta()
    }
}

/// Every range is well formed, and the ranges are sorted and do not overlap.
/// Ranges may touch, and empty ranges (pure insertions) may share a position.
pub open spec fn canonical(edits: Seq<Edit>) -> bool {
    &&& forall|k: int| 0 <= k < edits.len() ==> 0 <= (#[trigger] edits[k]).start <= edits[k].end
    &&& forall|k: int| 0 < k < edits.len() ==> edits[k - 1].end <= (#[trigger] edits[k]).start
}

/// The list is canonical and none of its ranges reaches beyond a text of
/// `len` bytes.
pub open spec fn fits(edits: Seq<Edit>, len: int) -> bool {
    &&& canonical(edits)
    &&& forall|k: int| 0 <= k < edits.len() ==> (#[trigger] edits[k]).end <= len
}

/// What the edits make of the part of `text` that starts at `pos`, where no
/// edit starts before `pos`.
pub open spec fn applied_from(text: Seq<u8>, edits: Seq<Edit>, pos: int) -> Seq<u8>
    decreases edits.len(),
{
    if edits.len() == 0 {
        text.subrange(pos, text.len() as int)
    } else {
        text.subrange(pos, edits[0].start) + edits[0].text + applied_from(
            text,
            edits.drop_first(),
            edits[0].end,
        )
    }
}

/// The text that results when all the edits are carried out at once on `text`:
/// the unchanged stretches between the ranges, with each replacement in the
/// place of its range.
pub open spec fn applied(text: Seq<u8>, edits: Seq<Edit>) -> Seq<u8> {
    applied_from(text, edits, 0)
}

/// In a canonical list an earlier edit ends before a later one starts.
pub proof fn lemma_canonical_order(edits: Seq<Edit>, i: int, j: int)
    requires
        canonical(edits),
        0 <= i < j < edits.len(),
    ensures
        edits[i].end <= edits[j].start,
    decreases j - i,
{
    if i + 1 < j {
        lemma_canonical_order(edits, i, j - 1);
        assert(edits[j - 1].start <= edits[j - 1].end);
        assert(edits[j - 1].end <= edits[j].start);
    } else {
        assert(edits[j - 1].end <= edits[j].start);
    }
}

} // verus!
