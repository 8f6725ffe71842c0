//! The composition of two canonical lists of edits, the second made against
//! the text that the first produces, as one list against the first text.

use vstd::prelude::*;
use crate::model::{Edit, drift, canonical};
use crate::shape::gap_start;

verus! {

/// An edit of the composed list while it is still growing.
///
/// `start` is where its range begins in the first text and `fixed` the part of
/// its replacement that no later edit can change. `reach` is a position in the
/// intermediate text: up to there the intermediate text is used up. The last
/// `tail.len()` bytes before `reach` come from a replacement of the first list
/// and are still open to the second list.
pub struct Pending {
    pub start: int,
    pub fixed: Seq<u8>,
    pub tail: Seq<u8>,
    pub reach: int,
}

/// Where the `i`-th replacement of `first` begins in the intermediate text.
pub open spec fn image_start(first: Seq<Edit>, i: int) -> int {
    first[i].start + drift(first, i)
}

/// Where the `i`-th replacement of `first` ends in the intermediate text.
pub open spec fn image_end(first: Seq<Edit>, i: int) -> int {
    first[i].start + drift(first, i) + first[i].text.len()
}

/// The growing edit that starts as the `i`-th edit of `first`, whose whole
/// replacement is open to the second list.
pub open spec fn opened_by_first(first: Seq<Edit>, i: int) -> Pending {
    Pending {
        start: first[i].start,
        fixed: Seq::empty(),
        tail: first[i].text,
        reach: image_end(first, i),
    }
}

/// The growing edit that starts as the edit `e` of the second list, after `i`
/// edits of `first`: its range is moved back into the first text.
pub open spec fn opened_by_second(first: Seq<Edit>, i: int, e: Edit) -> Pending {
    Pending { start: e.start - drift(first, i), fixed: e.text, tail: Seq::empty(), reach: e.end }
}

/// How much of the open tail lies before the edit `e` of the second list,
/// which starts in the tail.
pub open spec fn kept_before(p: Pending, e: Edit) -> int {
    e.start - (p.reach - p.tail.len())
}

/// How much of the open tail lies before the end of the edit `e` of the
/// second list: all of it where `e` ends at or behind `reach`.
pub open spec fn gone_with(p: Pending, e: Edit) -> int {
    if e.end < p.reach {
        e.end - (p.reach - p.tail.len())
    } else {
        p.tail.len() as int
    }
}

/// The growing edit after the edit `e` of the second list, which starts
/// before `reach`, has been taken in: what of the open tail lies before `e` is
/// kept for good, then comes the replacement of `e`, and what of the tail lies
/// behind `e` stays open.
pub open spec fn with_second(p: Pending, e: Edit) -> Pending {
    Pending {
        start: p.start,
        fixed: p.fixed + p.tail.subrange(0, kept_before(p, e)) + e.text,
        tail: p.tail.subrange(gone_with(p, e), p.tail.len() as int),
        reach: if p.reach < e.end {
            e.end
        } else {
            p.reach
        },
    }
}

/// How much of the `i`-th replacement of `first`, which begins before
/// `reach`, lies before `reach`: all of it where it ends there or before.
pub open spec fn covered_of(p: Pending, first: Seq<Edit>, i: int) -> int {
    if p.reach < image_end(first, i) {
        p.reach - image_start(first, i)
    } else {
        first[i].text.len() as int
    }
}

/// The growing edit after the `i`-th edit of `first`, whose replacement
/// begins before `reach` in the intermediate text, has been taken in: the part
/// of that replacement before `reach` is already replaced, the rest is open.
pub open spec fn with_first(p: Pending, first: Seq<Edit>, i: int) -> Pending {
    Pending {
        start: p.start,
        fixed: p.fixed + p.tail,
        tail: first[i].text.subrange(covered_of(p, first, i), first[i].text.len() as int),
        reach: if p.reach < image_end(first, i) {
            image_end(first, i)
        } else {
            p.reach
        },
    }
}

/// The finished edit: its range ends where `reach` lies in the first text,
/// behind `i` edits of `first`.
pub open spec fn closed(p: Pending, first: Seq<Edit>, i: int) -> Edit {
    Edit { start: p.start, end: p.reach - drift(first, i), text: p.fixed + p.tail }
}

/// The edits that the composition yields from a state on: `i` edits of `first`
/// and `j` edits of `second` are used up, and `pending` is the edit that is
/// growing, if there is one.
///
/// With no edit growing, the next one starts as the edit that begins first in
/// the intermediate text, that of `first` where both begin at one position.
/// A growing edit takes in the next edit of `second` while that one starts
/// before `reach`, else the next edit of `first` while its replacement starts
/// before `reach`, and is finished when neither does.
pub open spec fn compose_from(
    first: Seq<Edit>,
    second: Seq<Edit>,
    i: int,
    j: int,
    pending: Option<Pending>,
) -> Seq<Edit>
    decreases
        2 * (first.len() - i) + 2 * (second.len() - j) + (if pending is Some {
            1int
        } else {
            0int
        }),
    when 0 <= i <= first.len() && 0 <= j <= second.len()
{
    match pending {
        None => {
            if i < first.len() && (j >= second.len() || image_start(first, i) <= second[j].start) {
                compose_from(first, second, i + 1, j, Some(opened_by_first(first, i)))
            } else if j < second.len() {
                compose_from(first, second, i, j + 1, Some(opened_by_second(first, i, second[j])))
            } else {
                Seq::empty()
            }
        },
        Some(p) => {
            if j < second.len() && second[j].start < p.reach {
                compose_from(first, second, i, j + 1, Some(with_second(p, second[j])))
            } else if i < first.len() && image_start(first, i) < p.reach {
                compose_from(first, second, i + 1, j, Some(with_first(p, first, i)))
            } else {
                seq![closed(p, first, i)] + compose_from(first, second, i, j, None)
            }
        },
    }
}

/// The one list of edits that does to a text what `first` and then `second`
/// do: `first` is made against the text, `second` against the text that
/// `first` produces.
pub open spec fn compose(first: Seq<Edit>, second: Seq<Edit>) -> Seq<Edit> {
    compose_from(first, second, 0, 0, None)
}

/// A state of the composition agrees with the two lists: what is open of a
/// growing edit lies before the next edit of `second`, and its `reach` is
/// neither before its start nor before the end of the last replacement of
/// `first` that was used.
pub open spec fn coherent(
    first: Seq<Edit>,
    second: Seq<Edit>,
    i: int,
    j: int,
    pending: Option<Pending>,
) -> bool {
    &&& canonical(first)
    &&& canonical(second)
    &&& 0 <= i <= first.len()
    &&& 0 <= j <= second.len()
    &&& match pending {
        None => { j < second.len() ==> gap_start(first, i) + drift(first, i) <= second[j].start },
        Some(p) => {
            let open_from = p.reach - p.tail.len();
            &&& 0 <= open_from
            &&& j < second.len() ==> open_from <= second[j].start
            &&& gap_start(first, i) + drift(first, i) <= p.reach
            &&& 0 <= p.start
            &&& i < first.len() ==> p.start <= first[i].start
            &&& p.start + drift(first, i) <= p.reach
        },
    }
}

/// The end of a replacement of a canonical list does not lie before the start
/// of the text that the list produces.
pub proof fn lemma_image_not_negative(first: Seq<Edit>, i: int)
    requires
        canonical(first),
        0 <= i <= first.len(),
    ensures
        0 <= gap_start(first, i) + drift(first, i),
    decreases i,
{
    if i > 0 {
        lemma_image_not_negative(first, i - 1);
        let e = first[i - 1];
        assert(0 <= e.start <= e.end);
        if i > 1 {
            assert(first[i - 1 - 1].end <= first[i - 1].start);
        }
    }
}

/// Every step of the composition leads from a coherent state to a coherent
/// state, and a growing edit that is finished has a well formed range.
pub proof fn lemma_coherent_steps(
    first: Seq<Edit>,
    second: Seq<Edit>,
    i: int,
    j: int,
    pending: Option<Pending>,
)
    requires
        coherent(first, second, i, j, pending),
    ensures
        match pending {
            None => {
                if i < first.len() && (j >= second.len() || image_start(first, i)
                    <= second[j].start) {
                    coherent(first, second, i + 1, j, Some(opened_by_first(first, i)))
                } else if j < second.len() {
                    coherent(first, second, i, j + 1, Some(opened_by_second(first, i, second[j])))
                } else {
                    true
                }
            },
            Some(p) => {
                if j < second.len() && second[j].start < p.reach {
                    coherent(first, second, i, j + 1, Some(with_second(p, second[j])))
                } else if i < first.len() && image_start(first, i) < p.reach {
                    coherent(first, second, i + 1, j, Some(with_first(p, first, i)))
                } else {
                    &&& coherent(first, second, i, j, None)
                    &&& 0 <= closed(p, first, i).start <= closed(p, first, i).end
                }
            },
        },
{
    lemma_image_not_negative(first, i);
    if i < first.len() {
        assert(0 <= first[i].start <= first[i].end);
        assert(drift(first, i + 1) == drift(first, i) + first[i].delta());
        if i > 0 {
            assert(first[i - 1].end <= first[i].start);
        }
        if i + 1 < first.len() {
            assert(first[i + 1 - 1].end <= first[i + 1].start);
        }
    }
    if j < second.len() {
        assert(0 <= second[j].start <= second[j].end);
        if j + 1 < second.len() {
            assert(second[j + 1 - 1].end <= second[j + 1].start);
        }
    }
}

/// In the text that a canonical list produces, the replacements lie in the
/// order of the list.
pub proof fn lemma_images_ordered(first: Seq<Edit>, i: int, k: int)
    requires
        canonical(first),
        0 <= i <= k <= first.len(),
    ensures
        gap_start(first, i) + drift(first, i) <= gap_start(first, k) + drift(first, k),
        i < k ==> image_end(first, i) <= gap_start(first, k) + drift(first, k),
    decreases k - i,
{
    if i < k {
        let e = first[k - 1];
        assert(0 <= e.start <= e.end);
        if k - 1 > 0 {
            assert(first[k - 1 - 1].end <= first[k - 1].start);
        }
        assert(drift(first, k) == drift(first, k - 1) + e.delta());
        lemma_images_ordered(first, i, k - 1);
    }
}

} // verus!
