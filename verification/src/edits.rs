//! Edits as callers hold them: a byte range and a replacement text, with the
//! model of each and the check that a list is canonical.

use vstd::prelude::*;
use vstd::utf8::{valid_utf8, encode_utf8, encode_utf8_valid_utf8};
use std::ops::Range;
use crate::model::{Edit, canonical};

verus! {

/// Why a list of edits is turned down.
#[derive(Clone, Copy, Debug, PartialEq, Eq, Structural)]
pub enum EditError {
    /// A range starts behind its end.
    InvalidRange,
    /// An edit starts before the edit in front of it ends.
    MisorderedInput,
    /// A range reaches beyond the text, or beyond what an offset can hold.
    OutOfBounds,
    /// A replacement would be cut inside a character: the bytes that result
    /// are no UTF-8 text.
    InvalidEdit,
}

/// A replacement text: anything that holds a string.
pub trait Text {
    /// The bytes of the text.
    spec fn bytes(&self) -> Seq<u8>;

    /// The bytes of a text are UTF-8.
    proof fn bytes_are_utf8(&self)
        ensures
            valid_utf8(self.bytes()),
    ;

    /// The text as a string slice.
    fn text(&self) -> (s: &str)
        ensures
            encode_utf8(s@) == self.bytes(),
    ;
}

impl Text for String {
    open spec fn bytes(&self) -> Seq<u8> {
        encode_utf8(self@)
    }

    proof fn bytes_are_utf8(&self) {
        encode_utf8_valid_utf8(self@);
    }

    fn text(&self) -> (s: &str) {
        self.as_str()
    }
}

impl<'a> Text for &'a str {
    open spec fn bytes(&self) -> Seq<u8> {
        encode_utf8(self@)
    }

    proof fn bytes_are_utf8(&self) {
        encode_utf8_valid_utf8(self@);
    }

    fn text(&self) -> (s: &str) {
        *self
    }
}

/// Every replacement of the list is UTF-8.
pub open spec fn all_utf8(edits: Seq<Edit>) -> bool {
    forall|k: int| 0 <= k < edits.len() ==> valid_utf8((#[trigger] edits[k]).text)
}

/// The replacements of a list as callers hold it are UTF-8.
pub proof fn lemma_model_utf8<T: Text>(raw: Seq<(Range<usize>, T)>)
    ensures
        all_utf8(model(raw)),
{
    assert forall|k: int| 0 <= k < raw.len() implies valid_utf8(
        (#[trigger] model(raw)[k]).text,
    ) by {
        raw[k].1.bytes_are_utf8();
    }
}

/// The edit that a pair of range and replacement stands for.
pub open spec fn edit_of<T: Text>(raw: (Range<usize>, T)) -> Edit {
    Edit { start: raw.0.start as int, end: raw.0.end as int, text: raw.1.bytes() }
}

/// The edits that a list of pairs stands for.
pub open spec fn model<T: Text>(raw: Seq<(Range<usize>, T)>) -> Seq<Edit> {
    Seq::new(raw.len(), |k: int| edit_of(raw[k]))
}

/// What is wrong with the `k`-th edit, seen with the edit in front of it.
pub open spec fn defect_at(edits: Seq<Edit>, k: int) -> Option<EditError> {
    if edits[k].start > edits[k].end {
        Some(EditError::InvalidRange)
    } else if k > 0 && edits[k].start < edits[k - 1].end {
        Some(EditError::MisorderedInput)
    } else {
        None
    }
}

/// What is wrong with the first edit from the `k`-th on that is not in order.
pub open spec fn defect_from(edits: Seq<Edit>, k: int) -> Option<EditError>
    decreases edits.len() - k,
{
    if k >= edits.len() {
        None
    } else if defect_at(edits, k) is Some {
        defect_at(edits, k)
    } else {
        defect_from(edits, k + 1)
    }
}

/// What keeps the list from being canonical: the fault of the first edit that
/// has one.
pub open spec fn defect(edits: Seq<Edit>) -> Option<EditError> {
    defect_from(edits, 0)
}

/// From `k` on no edit has a fault exactly if none of them has one.
pub proof fn lemma_defect_from(edits: Seq<Edit>, k: int)
    requires
        0 <= k,
    ensures
        defect_from(edits, k) is None <==> forall|n: int|
            k <= n < edits.len() ==> (#[trigger] defect_at(edits, n)) is None,
    decreases edits.len() - k,
{
    if k < edits.len() {
        lemma_defect_from(edits, k + 1);
        if defect_at(edits, k) is None && defect_from(edits, k + 1) is None {
            assert forall|n: int| k <= n < edits.len() implies (#[trigger] defect_at(
                edits,
                n,
            )) is None by {
                if n > k {
                    assert(k + 1 <= n);
                }
            }
        }
    }
}

/// A list whose ranges start at or behind zero is canonical exactly if it has
/// no defect.
pub proof fn lemma_defect_canonical(edits: Seq<Edit>)
    requires
        forall|k: int| 0 <= k < edits.len() ==> 0 <= (#[trigger] edits[k]).start,
    ensures
        defect(edits) is None <==> canonical(edits),
{
    lemma_defect_from(edits, 0);
    if canonical(edits) {
        assert forall|n: int| 0 <= n < edits.len() implies (#[trigger] defect_at(
            edits,
            n,
        )) is None by {
            assert(edits[n].start <= edits[n].end);
            if n > 0 {
                assert(edits[n - 1].end <= edits[n].start);
            }
        }
    }
    if defect(edits) is None {
        assert forall|k: int| 0 <= k < edits.len() implies 0 <= (#[trigger] edits[k]).start
            <= edits[k].end by {
            assert(defect_at(edits, k) is None);
        }
        assert forall|k: int| 0 < k < edits.len() implies edits[k - 1].end <= (
        #[trigger] edits[k]).start by {
            assert(defect_at(edits, k) is None);
        }
    }
}

/// Checks that a list of edits is canonical: every range well formed, and each
/// edit at or behind the end of the one in front of it. The error is that of
/// the first edit at fault.
pub fn validate<T: Text>(edits: &[(Range<usize>, T)]) -> (res: Result<(), EditError>)
    ensures
        res is Ok <==> canonical(model(edits@)),
        match res {
            Ok(_) => defect(model(edits@)) is None,
            Err(e) => defect(model(edits@)) == Some(e),
        },
{
    let ghost m = model(edits@);
    let mut k: usize = 0;
    let mut prev_end: usize = 0;
    while k < edits.len()
        invariant
            m == model(edits@),
            0 <= k <= edits@.len(),
            defect(m) == defect_from(m, k as int),
            prev_end == (if k == 0 {
                0
            } else {
                m[k - 1].end
            }),
        decreases edits@.len() - k,
    {
        let start: usize = edits[k].0.start;
        let end: usize = edits[k].0.end;
        assert(m[k as int] == edit_of(edits@[k as int]));
        if start > end {
            proof {
                lemma_defect_canonical(m);
            }
            return Err(EditError::InvalidRange);
        }
        if start < prev_end {
            proof {
                lemma_defect_canonical(m);
            }
            return Err(EditError::MisorderedInput);
        }
        prev_end = end;
        k += 1;
    }
    proof {
        lemma_defect_canonical(m);
    }
    Ok(())
}

} // verus!
