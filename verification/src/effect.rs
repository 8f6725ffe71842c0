//! Proof that the composed list does to a text what the two lists do one
//! after the other.

use vstd::prelude::*;
use crate::model::{Edit, drift, fits, applied_from, applied};
use crate::shape::{
    gap_start,
    gap_end,
    lemma_gaps_ordered,
    lemma_applied_len,
    lemma_applied_kept,
    lemma_applied_replaced,
};
use crate::compose::{
    Pending,
    coherent,
    image_start,
    image_end,
    opened_by_first,
    opened_by_second,
    with_second,
    with_first,
    closed,
    compose_from,
};

verus! {

/// What is left to do at `pos` does not change when the stretch up to `next`,
/// which no edit touches, is split off.
pub proof fn lemma_applied_from_split(text: Seq<u8>, edits: Seq<Edit>, pos: int, next: int)
    requires
        0 <= pos <= next,
        edits.len() > 0 ==> next <= edits[0].start <= text.len(),
        edits.len() == 0 ==> next <= text.len(),
    ensures
        applied_from(text, edits, pos) == text.subrange(pos, next) + applied_from(
            text,
            edits,
            next,
        ),
{
    if edits.len() == 0 {
        assert(text.subrange(pos, text.len() as int) =~= text.subrange(pos, next)
            + text.subrange(next, text.len() as int));
    } else {
        let stop = edits[0].start;
        let rest = edits[0].text + applied_from(text, edits.drop_first(), edits[0].end);
        assert(text.subrange(pos, stop) =~= text.subrange(pos, next) + text.subrange(next, stop));
        assert(applied_from(text, edits, pos) =~= text.subrange(pos, stop) + rest);
        assert(applied_from(text, edits, next) =~= text.subrange(next, stop) + rest);
        assert(applied_from(text, edits, pos) =~= text.subrange(pos, next) + applied_from(
            text,
            edits,
            next,
        ));
    }
}

/// A state of the composition agrees with the two lists and the text: it is
/// coherent, the lists fit, no edit that is left starts before `pos`, and a
/// growing edit's open tail is the piece of the intermediate text just before
/// its `reach`.
pub open spec fn consistent(
    text: Seq<u8>,
    first: Seq<Edit>,
    second: Seq<Edit>,
    i: int,
    j: int,
    pending: Option<Pending>,
    pos: int,
) -> bool {
    let mid = applied(text, first);
    &&& coherent(first, second, i, j, pending)
    &&& fits(first, text.len() as int)
    &&& fits(second, mid.len() as int)
    &&& match pending {
        None => {
            &&& gap_start(first, i) <= pos <= gap_end(first, text.len() as int, i)
            &&& j < second.len() ==> pos + drift(first, i) <= second[j].start
        },
        Some(p) => {
            &&& p.reach <= mid.len()
            &&& mid.subrange(p.reach - p.tail.len(), p.reach) == p.tail
            &&& p.start <= gap_end(first, text.len() as int, i)
        },
    }
}

/// The facts about a consistent state that every step of the proof uses.
pub proof fn lemma_consistent_facts(
    text: Seq<u8>,
    first: Seq<Edit>,
    second: Seq<Edit>,
    i: int,
    j: int,
    pending: Option<Pending>,
    pos: int,
)
    requires
        consistent(text, first, second, i, j, pending, pos),
    ensures
        applied(text, first).len() == text.len() + drift(first, first.len() as int),
        i == first.len() ==> gap_end(first, text.len() as int, i) == text.len(),
        0 <= gap_start(first, i) <= gap_end(first, text.len() as int, i) <= text.len(),
        j < second.len() ==> {
            &&& second.skip(j)[0] == second[j]
            &&& second.skip(j).drop_first() == second.skip(j + 1)
            &&& 0 <= second[j].start <= second[j].end <= applied(text, first).len()
            &&& j + 1 < second.len() ==> second[j].end <= second[j + 1].start
        },
        j >= second.len() ==> second.skip(j).len() == 0,
        i < first.len() ==> {
            &&& 0 <= first[i].start <= first[i].end <= text.len()
            &&& drift(first, i + 1) == drift(first, i) + first[i].delta()
            &&& 0 <= image_start(first, i) <= image_end(first, i) <= applied(text, first).len()
            &&& applied(text, first).subrange(image_start(first, i), image_end(first, i))
                == first[i].text
            &&& gap_start(first, i + 1) == first[i].end
            &&& first[i].end <= gap_end(first, text.len() as int, i + 1)
        },
{
    let len = text.len() as int;
    lemma_applied_len(text, first);
    lemma_gaps_ordered(first, len, i, first.len() as int);
    if j < second.len() {
        assert(second.skip(j).drop_first() =~= second.skip(j + 1));
        if j + 1 < second.len() {
            assert(second[j + 1 - 1].end <= second[j + 1].start);
        }
    }
    if i < first.len() {
        lemma_applied_replaced(text, first, i);
        lemma_gaps_ordered(first, len, i + 1, first.len() as int);
    }
}

/// With no edit growing and an edit of `first` next, the state that follows is
/// consistent, and the stretch up to that edit is the same in both texts.
pub proof fn lemma_open_first(
    text: Seq<u8>,
    first: Seq<Edit>,
    second: Seq<Edit>,
    i: int,
    j: int,
    pos: int,
)
    requires
        consistent(text, first, second, i, j, None, pos),
        i < first.len(),
        j >= second.len() || image_start(first, i) <= second[j].start,
    ensures
        consistent(text, first, second, i + 1, j, Some(opened_by_first(first, i)), pos),
        pos <= first[i].start,
        applied_from(applied(text, first), second.skip(j), pos + drift(first, i)) == text.subrange(
            pos,
            first[i].start,
        ) + applied_from(applied(text, first), second.skip(j), image_start(first, i)),
{
    let mid = applied(text, first);
    lemma_consistent_facts(text, first, second, i, j, None, pos);
    lemma_applied_kept(text, first, i, pos, first[i].start);
    lemma_applied_from_split(mid, second.skip(j), pos + drift(first, i), image_start(first, i));
}

/// With no edit growing and an edit of `second` next, the state that follows
/// is consistent, and the stretch up to that edit is the same in both texts.
pub proof fn lemma_open_second(
    text: Seq<u8>,
    first: Seq<Edit>,
    second: Seq<Edit>,
    i: int,
    j: int,
    pos: int,
)
    requires
        consistent(text, first, second, i, j, None, pos),
        j < second.len(),
        !(i < first.len() && image_start(first, i) <= second[j].start),
    ensures
        consistent(text, first, second, i, j + 1, Some(opened_by_second(first, i, second[j])), pos),
        pos <= second[j].start - drift(first, i),
        applied_from(applied(text, first), second.skip(j), pos + drift(first, i)) == text.subrange(
            pos,
            second[j].start - drift(first, i),
        ) + (second[j].text + applied_from(
            applied(text, first),
            second.skip(j + 1),
            second[j].end,
        )),
{
    let mid = applied(text, first);
    let d = drift(first, i);
    let e = second[j];
    lemma_consistent_facts(text, first, second, i, j, None, pos);
    assert(mid.subrange(e.end, e.end) =~= Seq::<u8>::empty());
    lemma_applied_kept(text, first, i, pos, e.start - d);
    assert(applied_from(mid, second.skip(j), pos + d) =~= mid.subrange(pos + d, e.start) + (e.text
        + applied_from(mid, second.skip(j + 1), e.end)));
}

/// With both lists used up, what is left of the intermediate text is what is
/// left of the first text.
pub proof fn lemma_done(text: Seq<u8>, first: Seq<Edit>, second: Seq<Edit>, i: int, j: int, pos: int)
    requires
        consistent(text, first, second, i, j, None, pos),
        i >= first.len(),
        j >= second.len(),
    ensures
        applied_from(applied(text, first), second.skip(j), pos + drift(first, i)) == text.subrange(
            pos,
            text.len() as int,
        ),
{
    lemma_consistent_facts(text, first, second, i, j, None, pos);
    lemma_applied_kept(text, first, i, pos, text.len() as int);
}

/// A growing edit that takes in the next edit of `second` leaves a consistent
/// state, and what is fixed of it afterwards is what was fixed, the open
/// stretch before that edit, and that edit's replacement.
pub proof fn lemma_take_second(
    text: Seq<u8>,
    first: Seq<Edit>,
    second: Seq<Edit>,
    i: int,
    j: int,
    p: Pending,
    pos: int,
)
    requires
        consistent(text, first, second, i, j, Some(p), pos),
        j < second.len(),
        second[j].start < p.reach,
    ensures
        consistent(text, first, second, i, j + 1, Some(with_second(p, second[j])), pos),
        with_second(p, second[j]).reach - with_second(p, second[j]).tail.len() == second[j].end,
        p.fixed + applied_from(applied(text, first), second.skip(j), p.reach - p.tail.len())
            == with_second(p, second[j]).fixed + applied_from(
            applied(text, first),
            second.skip(j + 1),
            second[j].end,
        ),
{
    let mid = applied(text, first);
    let e = second[j];
    let q = with_second(p, e);
    let open_from = p.reach - p.tail.len();
    lemma_consistent_facts(text, first, second, i, j, Some(p), pos);
    assert(q.reach - q.tail.len() == e.end);
    assert(mid.subrange(e.end, q.reach) =~= q.tail);
    assert(mid.subrange(open_from, e.start) =~= p.tail.subrange(0, e.start - open_from));
    let behind = applied_from(mid, second.skip(j + 1), e.end);
    assert(applied_from(mid, second.skip(j), open_from) =~= mid.subrange(open_from, e.start)
        + (e.text + behind));
    assert(p.fixed + applied_from(mid, second.skip(j), open_from) =~= q.fixed + applied_from(
        mid,
        second.skip(j + 1),
        e.end,
    ));
}

/// A growing edit that takes in the next edit of `first` leaves a consistent
/// state, and its open tail becomes fixed.
pub proof fn lemma_take_first(
    text: Seq<u8>,
    first: Seq<Edit>,
    second: Seq<Edit>,
    i: int,
    j: int,
    p: Pending,
    pos: int,
)
    requires
        consistent(text, first, second, i, j, Some(p), pos),
        !(j < second.len() && second[j].start < p.reach),
        i < first.len(),
        image_start(first, i) < p.reach,
    ensures
        consistent(text, first, second, i + 1, j, Some(with_first(p, first, i)), pos),
        with_first(p, first, i).reach - with_first(p, first, i).tail.len() == p.reach,
        p.fixed + applied_from(applied(text, first), second.skip(j), p.reach - p.tail.len())
            == with_first(p, first, i).fixed + applied_from(
            applied(text, first),
            second.skip(j),
            p.reach,
        ),
{
    let mid = applied(text, first);
    let q = with_first(p, first, i);
    let open_from = p.reach - p.tail.len();
    let a = image_start(first, i);
    let b = image_end(first, i);
    lemma_consistent_facts(text, first, second, i, j, Some(p), pos);
    assert(q.reach - q.tail.len() == p.reach);
    assert(mid.subrange(a, b) == first[i].text);
    if p.reach < b {
        assert(mid.subrange(p.reach, b) =~= mid.subrange(a, b).subrange(p.reach - a, b - a));
    }
    assert(mid.subrange(p.reach, q.reach) =~= q.tail);
    lemma_applied_from_split(mid, second.skip(j), open_from, p.reach);
    assert(p.fixed + applied_from(mid, second.skip(j), open_from) =~= q.fixed + applied_from(
        mid,
        second.skip(j),
        p.reach,
    ));
}

/// A growing edit that can take in nothing more is finished: its range is
/// well formed and lies in the first text, and the state behind it is
/// consistent.
pub proof fn lemma_close(
    text: Seq<u8>,
    first: Seq<Edit>,
    second: Seq<Edit>,
    i: int,
    j: int,
    p: Pending,
    pos: int,
)
    requires
        consistent(text, first, second, i, j, Some(p), pos),
        !(j < second.len() && second[j].start < p.reach),
        !(i < first.len() && image_start(first, i) < p.reach),
    ensures
        consistent(text, first, second, i, j, None, closed(p, first, i).end),
        0 <= closed(p, first, i).start <= closed(p, first, i).end <= text.len(),
        p.fixed + applied_from(applied(text, first), second.skip(j), p.reach - p.tail.len())
            == closed(p, first, i).text + applied_from(
            applied(text, first),
            second.skip(j),
            p.reach,
        ),
{
    let mid = applied(text, first);
    let open_from = p.reach - p.tail.len();
    lemma_consistent_facts(text, first, second, i, j, Some(p), pos);
    lemma_applied_from_split(mid, second.skip(j), open_from, p.reach);
    assert(p.fixed + applied_from(mid, second.skip(j), open_from) =~= closed(p, first, i).text
        + applied_from(mid, second.skip(j), p.reach));
}

/// A fitting list stays fitting with one more edit in front that ends before
/// the list starts.
pub proof fn lemma_fits_push_front(c: Edit, more: Seq<Edit>, len: int)
    requires
        fits(more, len),
        0 <= c.start <= c.end <= len,
        more.len() > 0 ==> c.end <= more[0].start,
    ensures
        fits(seq![c] + more, len),
{
    let out = seq![c] + more;
    assert forall|k: int| 0 <= k < out.len() implies 0 <= (#[trigger] out[k]).start <= out[k].end
        <= len by {
        if k > 0 {
            assert(out[k] == more[k - 1]);
        }
    }
    assert forall|k: int| 0 < k < out.len() implies out[k - 1].end <= (#[trigger] out[k]).start by {
        assert(out[k] == more[k - 1]);
        if k > 1 {
            assert(out[k - 1] == more[k - 1 - 1]);
            assert(more[k - 1 - 1].end <= more[k - 1].start);
        }
    }
}

/// From every consistent state on, the edits that the composition yields fit
/// the first text and make of it what the rest of the second list makes of
/// the intermediate text.
pub proof fn lemma_compose_from(
    text: Seq<u8>,
    first: Seq<Edit>,
    second: Seq<Edit>,
    i: int,
    j: int,
    pending: Option<Pending>,
    pos: int,
)
    requires
        consistent(text, first, second, i, j, pending, pos),
    ensures
        ({
            let mid = applied(text, first);
            let out = compose_from(first, second, i, j, pending);
            &&& fits(out, text.len() as int)
            &&& match pending {
                None => {
                    &&& out.len() > 0 ==> pos <= out[0].start
                    &&& applied_from(text, out, pos) == applied_from(
                        mid,
                        second.skip(j),
                        pos + drift(first, i),
                    )
                },
                Some(p) => {
                    &&& out.len() > 0
                    &&& out[0].start == p.start
                    &&& out[0].text + applied_from(text, out.drop_first(), out[0].end) == p.fixed
                        + applied_from(mid, second.skip(j), p.reach - p.tail.len())
                },
            }
        }),
    decreases
        2 * (first.len() - i) + 2 * (second.len() - j) + (if pending is Some {
            1int
        } else {
            0int
        }),
{
    let mid = applied(text, first);
    let out = compose_from(first, second, i, j, pending);
    match pending {
        None => {
            if i < first.len() && (j >= second.len() || image_start(first, i) <= second[j].start) {
                let p = opened_by_first(first, i);
                lemma_open_first(text, first, second, i, j, pos);
                lemma_compose_from(text, first, second, i + 1, j, Some(p), pos);
                assert(p.fixed + applied_from(mid, second.skip(j), image_start(first, i))
                    =~= applied_from(mid, second.skip(j), image_start(first, i)));
                let behind = applied_from(text, out.drop_first(), out[0].end);
                assert(applied_from(text, out, pos) =~= text.subrange(pos, out[0].start)
                    + (out[0].text + behind));
            } else if j < second.len() {
                let p = opened_by_second(first, i, second[j]);
                lemma_open_second(text, first, second, i, j, pos);
                lemma_compose_from(text, first, second, i, j + 1, Some(p), pos);
                let behind = applied_from(text, out.drop_first(), out[0].end);
                assert(applied_from(text, out, pos) =~= text.subrange(pos, out[0].start)
                    + (out[0].text + behind));
            } else {
                lemma_done(text, first, second, i, j, pos);
                assert(out.len() == 0);
            }
        },
        Some(p) => {
            if j < second.len() && second[j].start < p.reach {
                lemma_take_second(text, first, second, i, j, p, pos);
                let q = with_second(p, second[j]);
                lemma_compose_from(text, first, second, i, j + 1, Some(q), pos);
            } else if i < first.len() && image_start(first, i) < p.reach {
                lemma_take_first(text, first, second, i, j, p, pos);
                let q = with_first(p, first, i);
                lemma_compose_from(text, first, second, i + 1, j, Some(q), pos);
            } else {
                let c = closed(p, first, i);
                let more = compose_from(first, second, i, j, None);
                lemma_close(text, first, second, i, j, p, pos);
                lemma_compose_from(text, first, second, i, j, None, c.end);
                assert(out == seq![c] + more);
                assert(out[0] == c);
                assert(out.drop_first() =~= more);
                lemma_fits_push_front(c, more, text.len() as int);
            }
        },
    }
}

} // verus!
