//! Where the pieces of a text and the replacements lie in the text that a
//! canonical list of edits produces from it.

use vstd::prelude::*;
use crate::model::{Edit, drift, canonical, fits, applied_from, applied, lemma_canonical_order};

verus! {

/// The end of the edit before the `i`-th, or the start of the text.
pub open spec fn gap_start(edits: Seq<Edit>, i: int) -> int {
    if i <= 0 {
        0
    } else {
        edits[i - 1].end
    }
}

/// The start of the `i`-th edit, or the end of a text of `len` bytes.
pub open spec fn gap_end(edits: Seq<Edit>, len: int, i: int) -> int {
    if i < edits.len() {
        edits[i].start
    } else {
        len
    }
}

/// The unchanged stretches of a text that a canonical list fits are in order.
pub proof fn lemma_gaps_ordered(edits: Seq<Edit>, len: int, i: int, k: int)
    requires
        fits(edits, len),
        0 <= len,
        0 <= i <= k <= edits.len(),
    ensures
        0 <= gap_start(edits, i) <= gap_end(edits, len, i) <= len,
        gap_start(edits, i) <= gap_start(edits, k),
        gap_end(edits, len, i) <= gap_end(edits, len, k),
        i < k ==> gap_end(edits, len, i) <= gap_start(edits, k),
{
    if i > 0 {
        assert(edits[i - 1].start <= edits[i - 1].end <= len);
    }
    if k > 0 {
        assert(edits[k - 1].start <= edits[k - 1].end <= len);
    }
    if i < edits.len() {
        assert(0 <= edits[i].start <= edits[i].end <= len);
        if i > 0 {
            assert(edits[i - 1].end <= edits[i].start);
        }
    }
    if k < edits.len() {
        assert(0 <= edits[k].start <= edits[k].end <= len);
    }
    if i < k {
        if i < k - 1 {
            lemma_canonical_order(edits, i, k - 1);
        }
        if i > 0 {
            lemma_canonical_order(edits, i - 1, k - 1);
        }
        if k < edits.len() {
            lemma_canonical_order(edits, i, k);
        }
    }
}

/// The shape of what the edits from the `i`-th on make of the text from `pos`
/// on: its length, where the unchanged stretch before the `k`-th edit lies in
/// it, and where the `k`-th replacement lies.
pub proof fn lemma_applied_from_shape(
    text: Seq<u8>,
    edits: Seq<Edit>,
    i: int,
    pos: int,
    k: int,
    x: int,
    y: int,
)
    requires
        fits(edits, text.len() as int),
        0 <= i <= k <= edits.len(),
        gap_start(edits, i) <= pos <= gap_end(edits, text.len() as int, i),
        pos <= x,
        gap_start(edits, k) <= x <= y <= gap_end(edits, text.len() as int, k),
    ensures
        ({
            let out = applied_from(text, edits.skip(i), pos);
            let by = drift(edits, k) - drift(edits, i) - pos;
            &&& out.len() == text.len() - pos + drift(edits, edits.len() as int) - drift(edits, i)
            &&& 0 <= x + by <= y + by <= out.len()
            &&& out.subrange(x + by, y + by) == text.subrange(x, y)
            &&& k < edits.len() ==> {
                &&& edits[k].start + by + edits[k].text.len() <= out.len()
                &&& out.subrange(
                    edits[k].start + by,
                    edits[k].start + by + edits[k].text.len(),
                ) == edits[k].text
            }
        }),
    decreases edits.len() - i,
{
    let len = text.len() as int;
    let rest = edits.skip(i);
    let out = applied_from(text, rest, pos);
    let by = drift(edits, k) - drift(edits, i) - pos;
    lemma_gaps_ordered(edits, len, i, k);
    if i == edits.len() {
        assert(rest.len() == 0);
        assert(out == text.subrange(pos, len));
        assert(out.subrange(x + by, y + by) =~= text.subrange(x, y));
    } else {
        let e = edits[i];
        assert(rest[0] == e);
        assert(rest.drop_first() =~= edits.skip(i + 1));
        let head = text.subrange(pos, e.start);
        let tail = applied_from(text, edits.skip(i + 1), e.end);
        assert(out == head + e.text + tail);
        assert(0 <= e.start <= e.end <= len);
        assert(drift(edits, i + 1) == drift(edits, i) + e.delta());
        lemma_gaps_ordered(edits, len, i + 1, edits.len() as int);
        if k == i {
            lemma_applied_from_shape(text, edits, i + 1, e.end, i + 1, e.end, e.end);
            assert(out.subrange(x + by, y + by) =~= text.subrange(x, y));
            assert(out.subrange(e.start + by, e.start + by + e.text.len()) =~= e.text);
        } else {
            lemma_gaps_ordered(edits, len, i + 1, k);
            lemma_applied_from_shape(text, edits, i + 1, e.end, k, x, y);
            let by2 = drift(edits, k) - drift(edits, i + 1) - e.end;
            let off = head.len() + e.text.len();
            assert(by == by2 + off);
            assert(out.subrange(x + by, y + by) =~= tail.subrange(x + by2, y + by2));
            if k < edits.len() {
                let f = edits[k];
                assert(out.subrange(f.start + by, f.start + by + f.text.len()) =~= tail.subrange(
                    f.start + by2,
                    f.start + by2 + f.text.len(),
                ));
            }
        }
    }
}

/// The length of the text that a fitting list of edits produces.
pub proof fn lemma_applied_len(text: Seq<u8>, edits: Seq<Edit>)
    requires
        fits(edits, text.len() as int),
    ensures
        applied(text, edits).len() == text.len() + drift(edits, edits.len() as int),
{
    assert(edits.skip(0) =~= edits);
    lemma_gaps_ordered(edits, text.len() as int, 0, 0);
    lemma_applied_from_shape(text, edits, 0, 0, 0, 0, 0);
}

/// An unchanged stretch lies in the produced text where it lay before, moved
/// by the drift of the edits before it.
pub proof fn lemma_applied_kept(text: Seq<u8>, edits: Seq<Edit>, k: int, x: int, y: int)
    requires
        fits(edits, text.len() as int),
        0 <= k <= edits.len(),
        gap_start(edits, k) <= x <= y <= gap_end(edits, text.len() as int, k),
    ensures
        0 <= x + drift(edits, k) <= y + drift(edits, k) <= applied(text, edits).len(),
        applied(text, edits).subrange(x + drift(edits, k), y + drift(edits, k)) == text.subrange(
            x,
            y,
        ),
{
    assert(edits.skip(0) =~= edits);
    lemma_gaps_ordered(edits, text.len() as int, 0, k);
    lemma_applied_from_shape(text, edits, 0, 0, k, x, y);
}

/// A replacement lies in the produced text at the start of its range, moved by
/// the drift of the edits before it.
pub proof fn lemma_applied_replaced(text: Seq<u8>, edits: Seq<Edit>, k: int)
    requires
        fits(edits, text.len() as int),
        0 <= k < edits.len(),
    ensures
        0 <= edits[k].start + drift(edits, k),
        edits[k].start + drift(edits, k) + edits[k].text.len() <= applied(text, edits).len(),
        edits[k].start + drift(edits, k) + edits[k].text.len() == edits[k].end + drift(
            edits,
            k + 1,
        ),
        applied(text, edits).subrange(
            edits[k].start + drift(edits, k),
            edits[k].start + drift(edits, k) + edits[k].text.len(),
        ) == edits[k].text,
{
    assert(edits.skip(0) =~= edits);
    lemma_gaps_ordered(edits, text.len() as int, 0, k);
    lemma_gaps_ordered(edits, text.len() as int, k, k);
    let s = edits[k].start;
    lemma_applied_from_shape(text, edits, 0, 0, k, s, s);
}

} // verus!
