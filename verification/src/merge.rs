//! Composing two lists of edits as callers hold them.

use vstd::prelude::*;
use vstd::utf8::{
    encode_utf8,
    encode_utf8_valid_utf8,
    is_char_boundary_start_end_of_seq,
    is_continuation_byte,
};
use std::ops::Range;
use crate::model::{Edit, drift, canonical, lemma_canonical_order};
use crate::shape::gap_start;
use crate::compose::{
    Pending,
    coherent,
    lemma_coherent_steps,
    opened_by_first,
    opened_by_second,
    with_second,
    with_first,
    closed,
    compose_from,
    compose,
};
use crate::edits::{EditError, Text, edit_of, model, defect, validate, lemma_model_utf8};
use crate::chars::{push_text, text_len, text_from, text_before};
use crate::cuts::{
    splits_character,
    cuts_in,
    cuts_character,
    tidy,
    lemma_only_candidate,
    lemma_tail_cuts,
    lemma_reach_cuts,
    lemma_tidy_open_first,
    lemma_tidy_open_second,
    lemma_tidy_take_second,
    lemma_tidy_take_first,
};
use crate::laws::composition_is_canonical;

verus! {

/// The last range of the list ends beyond the largest offset.
pub open spec fn beyond_offsets(edits: Seq<Edit>) -> bool {
    edits.len() > 0 && edits.last().end > usize::MAX
}

/// What composing two lists gives: the defect of the first list, else that of
/// the second; else `InvalidEdit` where an edit of the second list begins or
/// ends inside a character of a replacement of the first; else `OutOfBounds`
/// where the composed list ends beyond the largest offset; else the composed
/// list.
pub open spec fn merged(first: Seq<Edit>, second: Seq<Edit>) -> Result<Seq<Edit>, EditError> {
    if defect(first) is Some {
        Err(defect(first)->0)
    } else if defect(second) is Some {
        Err(defect(second)->0)
    } else if cuts_character(first, second) {
        Err(EditError::InvalidEdit)
    } else if beyond_offsets(compose(first, second)) {
        Err(EditError::OutOfBounds)
    } else {
        Ok(compose(first, second))
    }
}

/// The largest sum of replacement lengths and two more offsets fit in 128
/// bits.
proof fn lemma_room(count: usize, grown: u128)
    requires
        grown <= count * usize::MAX,
    ensures
        grown + 2 * usize::MAX <= u128::MAX,
{
    let top: int = 0xFFFF_FFFF_FFFF_FFFF;
    assert(usize::MAX <= top);
    assert(count * usize::MAX <= top * top) by (nonlinear_arith)
        requires
            0 <= count <= top,
            0 <= usize::MAX <= top,
    ;
    assert(top * top + 2 * top <= u128::MAX);
}

/// How far the composing loop has come: the edits used of each list, and the
/// bytes that the used edits of the first list have put in and taken out.
pub struct Cursor {
    pub i: usize,
    pub j: usize,
    pub grown: u128,
    pub shrunk: usize,
}

impl Cursor {
    /// The counts agree with the lists: `grown` less `shrunk` is the drift of
    /// the first list so far.
    pub open spec fn tracks(self, first: Seq<Edit>, second: Seq<Edit>) -> bool {
        &&& self.i <= first.len()
        &&& self.j <= second.len()
        &&& self.grown - self.shrunk == drift(first, self.i as int)
        &&& self.grown <= self.i * usize::MAX
        &&& self.shrunk <= gap_start(first, self.i as int)
    }

    /// The number of edits not yet used.
    pub open spec fn left(self, first: Seq<Edit>, second: Seq<Edit>) -> int {
        (first.len() - self.i) + (second.len() - self.j)
    }

    /// Where a position of the first text, behind the edits used so far, lies
    /// in the intermediate text.
    fn ahead(&self, pos: usize) -> (at: u128)
        requires
            self.shrunk <= pos,
            self.grown + 2 * usize::MAX <= u128::MAX,
        ensures
            at == pos + (self.grown - self.shrunk),
    {
        (pos - self.shrunk) as u128 + self.grown
    }

    /// Where a position of the intermediate text, behind the replacements
    /// used so far, lies in the first text.
    fn back(&self, at: u128) -> (pos: u128)
        requires
            self.grown - self.shrunk <= at <= usize::MAX + self.grown,
            self.grown + 2 * usize::MAX <= u128::MAX,
        ensures
            pos == at - (self.grown - self.shrunk),
    {
        at + self.shrunk as u128 - self.grown
    }
}

/// The growing edit as the composing loop holds it.
pub struct Growing<'a> {
    pub start: u128,
    pub fixed: String,
    pub tail: &'a str,
    pub reach: u128,
}

impl<'a> View for Growing<'a> {
    type V = Pending;

    open spec fn view(&self) -> Pending {
        Pending {
            start: self.start as int,
            fixed: encode_utf8(self.fixed@),
            tail: encode_utf8(self.tail@),
            reach: self.reach as int,
        }
    }
}

/// What every step knows of the next edit of each list.
proof fn lemma_next_edits<A: Text, B: Text>(
    edits1: &[(Range<usize>, A)],
    edits2: &[(Range<usize>, B)],
    cur: Cursor,
)
    requires
        cur.tracks(model(edits1@), model(edits2@)),
        canonical(model(edits1@)),
        canonical(model(edits2@)),
    ensures
        cur.grown + 2 * usize::MAX <= u128::MAX,
        0 <= gap_start(model(edits1@), cur.i as int),
        cur.i < edits1@.len() ==> {
            let e = model(edits1@)[cur.i as int];
            &&& e == edit_of(edits1@[cur.i as int])
            &&& gap_start(model(edits1@), cur.i as int) <= e.start <= e.end
            &&& drift(model(edits1@), cur.i + 1) == drift(model(edits1@), cur.i as int) + e.delta()
            &&& (cur.i + 1) * usize::MAX == cur.i * usize::MAX + usize::MAX
        },
        cur.j < edits2@.len() ==> {
            let e = model(edits2@)[cur.j as int];
            &&& e == edit_of(edits2@[cur.j as int])
            &&& 0 <= e.start <= e.end
        },
{
    let first = model(edits1@);
    let second = model(edits2@);
    lemma_room(cur.i, cur.grown);
    if cur.i > 0 {
        assert(0 <= first[cur.i - 1].start <= first[cur.i - 1].end);
    }
    if cur.i < edits1@.len() {
        let i = cur.i as int;
        assert(0 <= first[i].start <= first[i].end);
        if i > 0 {
            assert(first[i - 1].end <= first[i].start);
        }
        assert((i + 1) * usize::MAX == i * usize::MAX + usize::MAX) by (nonlinear_arith);
    }
    if cur.j < edits2@.len() {
        assert(0 <= second[cur.j as int].start <= second[cur.j as int].end);
    }
}

/// Starts a growing edit from the edit that comes next in the intermediate
/// text.
fn start_growing<'a, A: Text, B: Text>(
    edits1: &'a [(Range<usize>, A)],
    edits2: &'a [(Range<usize>, B)],
    cur: &mut Cursor,
) -> (g: Growing<'a>)
    requires
        old(cur).tracks(model(edits1@), model(edits2@)),
        coherent(model(edits1@), model(edits2@), old(cur).i as int, old(cur).j as int, None),
        old(cur).i < edits1@.len() || old(cur).j < edits2@.len(),
    ensures
        final(cur).tracks(model(edits1@), model(edits2@)),
        coherent(
            model(edits1@),
            model(edits2@),
            final(cur).i as int,
            final(cur).j as int,
            Some(g@),
        ),
        tidy(model(edits1@), model(edits2@), final(cur).i as int, final(cur).j as int, Some(g@)),
        compose_from(model(edits1@), model(edits2@), old(cur).i as int, old(cur).j as int, None)
            == compose_from(
            model(edits1@),
            model(edits2@),
            final(cur).i as int,
            final(cur).j as int,
            Some(g@),
        ),
        g.reach <= usize::MAX + final(cur).grown,
        final(cur).left(model(edits1@), model(edits2@)) < old(cur).left(
            model(edits1@),
            model(edits2@),
        ),
{
    let ghost first = model(edits1@);
    let ghost second = model(edits2@);
    proof {
        lemma_next_edits(edits1, edits2, *cur);
        lemma_coherent_steps(first, second, cur.i as int, cur.j as int, None);
        lemma_model_utf8(edits1@);
        lemma_model_utf8(edits2@);
    }
    let i = cur.i;
    let j = cur.j;
    if i < edits1.len() && (j >= edits2.len() || cur.ahead(edits1[i].0.start)
        <= edits2[j].0.start as u128) {
        let range_start: usize = edits1[i].0.start;
        let range_end: usize = edits1[i].0.end;
        let piece = edits1[i].1.text();
        let reach: u128 = cur.ahead(range_start) + text_len(piece) as u128;
        cur.grown = cur.grown + text_len(piece) as u128;
        cur.shrunk = cur.shrunk + (range_end - range_start);
        cur.i = i + 1;
        let g = Growing { start: range_start as u128, fixed: String::new(), tail: piece, reach };
        proof {
            assert(g.fixed@ =~= Seq::<char>::empty());
            assert(encode_utf8(g.fixed@) =~= Seq::<u8>::empty());
            assert(g@ == opened_by_first(first, i as int));
            lemma_tidy_open_first(first, second, i as int, j as int);
        }
        g
    } else {
        let piece = edits2[j].1.text();
        let start: u128 = cur.back(edits2[j].0.start as u128);
        let mut fixed: String = String::new();
        proof {
            assert(encode_utf8(fixed@) =~= Seq::<u8>::empty());
            encode_utf8_valid_utf8(piece@);
            is_char_boundary_start_end_of_seq(encode_utf8(piece@));
        }
        push_text(&mut fixed, piece);
        cur.j = j + 1;
        let g = Growing {
            start,
            fixed,
            tail: text_from(piece, text_len(piece)),
            reach: edits2[j].0.end as u128,
        };
        proof {
            assert(g@.fixed =~= encode_utf8(piece@));
            assert(g@.tail =~= Seq::<u8>::empty());
            assert(g@ == opened_by_second(first, i as int, second[j as int]));
            lemma_tidy_open_second(first, second, i as int, j as int);
        }
        g
    }
}

/// Lets the growing edit take in the next edit that starts before its reach,
/// that of the second list before that of the first, and says whether there
/// was one.
fn grow<'a, A: Text, B: Text>(
    edits1: &'a [(Range<usize>, A)],
    edits2: &'a [(Range<usize>, B)],
    cur: &mut Cursor,
    g: &mut Growing<'a>,
) -> (took: bool)
    requires
        old(cur).tracks(model(edits1@), model(edits2@)),
        coherent(
            model(edits1@),
            model(edits2@),
            old(cur).i as int,
            old(cur).j as int,
            Some(old(g)@),
        ),
        tidy(
            model(edits1@),
            model(edits2@),
            old(cur).i as int,
            old(cur).j as int,
            Some(old(g)@),
        ),
        !cuts_character(model(edits1@), model(edits2@)),
        old(g).reach <= usize::MAX + old(cur).grown,
    ensures
        final(cur).tracks(model(edits1@), model(edits2@)),
        coherent(
            model(edits1@),
            model(edits2@),
            final(cur).i as int,
            final(cur).j as int,
            Some(final(g)@),
        ),
        tidy(
            model(edits1@),
            model(edits2@),
            final(cur).i as int,
            final(cur).j as int,
            Some(final(g)@),
        ),
        final(g).reach <= usize::MAX + final(cur).grown,
        took ==> {
            &&& compose_from(
                model(edits1@),
                model(edits2@),
                old(cur).i as int,
                old(cur).j as int,
                Some(old(g)@),
            ) == compose_from(
                model(edits1@),
                model(edits2@),
                final(cur).i as int,
                final(cur).j as int,
                Some(final(g)@),
            )
            &&& final(cur).left(model(edits1@), model(edits2@)) < old(cur).left(
                model(edits1@),
                model(edits2@),
            )
        },
        !took ==> {
            &&& *final(cur) == *old(cur)
            &&& final(g)@ == old(g)@
            &&& compose_from(
                model(edits1@),
                model(edits2@),
                old(cur).i as int,
                old(cur).j as int,
                Some(old(g)@),
            ) == seq![closed(old(g)@, model(edits1@), old(cur).i as int)] + compose_from(
                model(edits1@),
                model(edits2@),
                old(cur).i as int,
                old(cur).j as int,
                None,
            )
            &&& coherent(
                model(edits1@),
                model(edits2@),
                old(cur).i as int,
                old(cur).j as int,
                None,
            )
            &&& 0 <= closed(old(g)@, model(edits1@), old(cur).i as int).start <= closed(
                old(g)@,
                model(edits1@),
                old(cur).i as int,
            ).end
        },
{
    let ghost first = model(edits1@);
    let ghost second = model(edits2@);
    let ghost p = g@;
    proof {
        lemma_next_edits(edits1, edits2, *cur);
        lemma_coherent_steps(first, second, cur.i as int, cur.j as int, Some(p));
        lemma_model_utf8(edits1@);
        lemma_model_utf8(edits2@);
    }
    let i = cur.i;
    let j = cur.j;
    if j < edits2.len() && (edits2[j].0.start as u128) < g.reach {
        let piece = edits2[j].1.text();
        let tail = g.tail;
        let open_from: u128 = g.reach - text_len(tail) as u128;
        let kept: usize = (edits2[j].0.start as u128 - open_from) as usize;
        let gone: usize = if (edits2[j].0.end as u128) < g.reach {
            (edits2[j].0.end as u128 - open_from) as usize
        } else {
            text_len(tail)
        };
        proof {
            assert(!cuts_in(first, second[j as int]));
            lemma_tail_cuts(first, second, i as int, j as int, p);
            lemma_tidy_take_second(first, second, i as int, j as int, p);
        }
        push_text(&mut g.fixed, text_before(tail, kept));
        push_text(&mut g.fixed, piece);
        g.tail = text_from(tail, gone);
        if g.reach < edits2[j].0.end as u128 {
            g.reach = edits2[j].0.end as u128;
        }
        cur.j = j + 1;
        assert(g@ == with_second(p, second[j as int]));
        true
    } else if i < edits1.len() && cur.ahead(edits1[i].0.start) < g.reach {
        let range_start: usize = edits1[i].0.start;
        let range_end: usize = edits1[i].0.end;
        let piece = edits1[i].1.text();
        let at: u128 = cur.ahead(range_start);
        let covered: usize = if g.reach < at + text_len(piece) as u128 {
            (g.reach - at) as usize
        } else {
            text_len(piece)
        };
        proof {
            lemma_reach_cuts(first, second, i as int, j as int, p);
            lemma_tidy_take_first(first, second, i as int, j as int, p);
        }
        push_text(&mut g.fixed, g.tail);
        g.tail = text_from(piece, covered);
        if g.reach < at + text_len(piece) as u128 {
            g.reach = at + text_len(piece) as u128;
        }
        cur.grown = cur.grown + text_len(piece) as u128;
        cur.shrunk = cur.shrunk + (range_end - range_start);
        cur.i = i + 1;
        assert(g@ == with_first(p, first, i as int));
        true
    } else {
        false
    }
}

/// Finishes the growing edit: its range and its replacement, or
/// `OutOfBounds` where the range ends beyond the largest offset.
fn finish<'a, A: Text, B: Text>(
    edits1: &'a [(Range<usize>, A)],
    edits2: &'a [(Range<usize>, B)],
    cur: &Cursor,
    g: Growing<'a>,
) -> (res: Result<(Range<usize>, String), EditError>)
    requires
        cur.tracks(model(edits1@), model(edits2@)),
        coherent(model(edits1@), model(edits2@), cur.i as int, cur.j as int, Some(g@)),
        g.reach <= usize::MAX + cur.grown,
        0 <= closed(g@, model(edits1@), cur.i as int).start <= closed(
            g@,
            model(edits1@),
            cur.i as int,
        ).end,
    ensures
        match res {
            Ok(pair) => edit_of(pair) == closed(g@, model(edits1@), cur.i as int),
            Err(e) => {
                &&& e == EditError::OutOfBounds
                &&& closed(g@, model(edits1@), cur.i as int).end > usize::MAX
            },
        },
{
    proof {
        lemma_next_edits(edits1, edits2, *cur);
    }
    let end: u128 = cur.back(g.reach);
    if end > usize::MAX as u128 {
        return Err(EditError::OutOfBounds);
    }
    let mut text = g.fixed;
    push_text(&mut text, g.tail);
    Ok((Range { start: g.start as usize, end: end as usize }, text))
}

/// Whether the byte continues a character of a UTF-8 text.
fn continues_character(byte: u8) -> (res: bool)
    ensures
        res == is_continuation_byte(byte),
{
    0x80 <= byte && byte <= 0xbf
}

/// Tells whether the position `at` of the intermediate text lies inside a
/// character of a replacement. The cursor moves on to the first replacement
/// that ends behind `at`.
fn splits_at<A: Text, B: Text>(
    edits1: &[(Range<usize>, A)],
    edits2: &[(Range<usize>, B)],
    cur: &mut Cursor,
    at: usize,
) -> (res: bool)
    requires
        canonical(model(edits1@)),
        canonical(model(edits2@)),
        old(cur).tracks(model(edits1@), model(edits2@)),
        gap_start(model(edits1@), old(cur).i as int) + drift(model(edits1@), old(cur).i as int)
            <= at,
    ensures
        final(cur).tracks(model(edits1@), model(edits2@)),
        final(cur).j == old(cur).j,
        gap_start(model(edits1@), final(cur).i as int) + drift(
            model(edits1@),
            final(cur).i as int,
        ) <= at,
        res == splits_character(model(edits1@), at as int),
{
    let ghost first = model(edits1@);
    while cur.i < edits1.len()
        invariant
            first == model(edits1@),
            canonical(first),
            canonical(model(edits2@)),
            cur.tracks(first, model(edits2@)),
            cur.j == old(cur).j,
            gap_start(first, cur.i as int) + drift(first, cur.i as int) <= at,
        decreases edits1@.len() - cur.i,
    {
        proof {
            lemma_next_edits(edits1, edits2, *cur);
        }
        let i = cur.i;
        let range_start: usize = edits1[i].0.start;
        let range_end: usize = edits1[i].0.end;
        let bytes = edits1[i].1.text().as_bytes();
        let begin: u128 = cur.ahead(range_start);
        if begin + bytes.len() as u128 > at as u128 {
            proof {
                if i > 0 {
                    assert(drift(first, i as int) == drift(first, i - 1) + first[i - 1].delta());
                }
                lemma_only_candidate(first, i as int, at as int);
            }
            if begin < at as u128 {
                return continues_character(bytes[(at as u128 - begin) as usize]);
            }
            return false;
        }
        cur.grown = cur.grown + bytes.len() as u128;
        cur.shrunk = cur.shrunk + (range_end - range_start);
        cur.i = i + 1;
    }
    proof {
        let n = cur.i as int;
        if n > 0 {
            assert(drift(first, n) == drift(first, n - 1) + first[n - 1].delta());
        }
        lemma_only_candidate(first, n, at as int);
    }
    false
}

/// Tells whether an edit of the second list begins or ends inside a character
/// of a replacement of the first list.
fn cuts_a_character<A: Text, B: Text>(
    edits1: &[(Range<usize>, A)],
    edits2: &[(Range<usize>, B)],
) -> (res: bool)
    requires
        canonical(model(edits1@)),
        canonical(model(edits2@)),
    ensures
        res == cuts_character(model(edits1@), model(edits2@)),
{
    let ghost first = model(edits1@);
    let ghost second = model(edits2@);
    let mut cur = Cursor { i: 0, j: 0, grown: 0, shrunk: 0 };
    let mut j: usize = 0;
    while j < edits2.len()
        invariant
            first == model(edits1@),
            second == model(edits2@),
            canonical(first),
            canonical(second),
            cur.tracks(first, second),
            cur.j == 0,
            0 <= j <= edits2@.len(),
            j < edits2@.len() ==> gap_start(first, cur.i as int) + drift(first, cur.i as int)
                <= second[j as int].start,
            forall|k: int| 0 <= k < j ==> !cuts_in(first, #[trigger] second[k]),
        decreases edits2@.len() - j,
    {
        proof {
            assert(second[j as int] == edit_of(edits2@[j as int]));
            assert(0 <= second[j as int].start <= second[j as int].end);
            if j + 1 < edits2@.len() {
                assert(second[j + 1 - 1].end <= second[j + 1].start);
            }
        }
        if splits_at(edits1, edits2, &mut cur, edits2[j].0.start) {
            return true;
        }
        if splits_at(edits1, edits2, &mut cur, edits2[j].0.end) {
            return true;
        }
        j += 1;
    }
    false
}

/// Composes two canonical lists of edits as [`merge`] does, where the two
/// lists hold their replacements as different types: the list that an earlier
/// call gave, say, and string slices.
pub fn merge_lists<A: Text, B: Text>(
    edits1: &[(Range<usize>, A)],
    edits2: &[(Range<usize>, B)],
) -> (res: Result<Vec<(Range<usize>, String)>, EditError>)
    ensures
        match res {
            Ok(list) => {
                &&& merged(model(edits1@), model(edits2@)) == Ok::<Seq<Edit>, EditError>(
                    model(list@),
                )
                &&& model(list@) == compose(model(edits1@), model(edits2@))
                &&& canonical(model(list@))
            },
            Err(e) => merged(model(edits1@), model(edits2@)) == Err::<Seq<Edit>, EditError>(e),
        },
{
    let ghost first = model(edits1@);
    let ghost second = model(edits2@);
    let ghost all = compose(first, second);
    match validate(edits1) {
        Err(e) => {
            return Err(e);
        },
        Ok(_) => {},
    }
    match validate(edits2) {
        Err(e) => {
            return Err(e);
        },
        Ok(_) => {},
    }
    if cuts_a_character(edits1, edits2) {
        return Err(EditError::InvalidEdit);
    }
    proof {
        composition_is_canonical(first, second);
    }
    let mut out: Vec<(Range<usize>, String)> = Vec::new();
    let mut cur = Cursor { i: 0, j: 0, grown: 0, shrunk: 0 };
    assert(model(out@) + compose_from(first, second, 0, 0, None) =~= all);
    while cur.i < edits1.len() || cur.j < edits2.len()
        invariant
            first == model(edits1@),
            second == model(edits2@),
            all == compose(first, second),
            defect(first) is None,
            defect(second) is None,
            !cuts_character(first, second),
            canonical(all),
            cur.tracks(first, second),
            coherent(first, second, cur.i as int, cur.j as int, None),
            model(out@) + compose_from(first, second, cur.i as int, cur.j as int, None) == all,
        decreases cur.left(first, second),
    {
        let ghost before = cur.left(first, second);
        let mut g = start_growing(edits1, edits2, &mut cur);
        loop
            invariant
                first == model(edits1@),
                second == model(edits2@),
                cur.tracks(first, second),
                cur.left(first, second) < before,
                g.reach <= usize::MAX + cur.grown,
                !cuts_character(first, second),
                coherent(first, second, cur.i as int, cur.j as int, Some(g@)),
                tidy(first, second, cur.i as int, cur.j as int, Some(g@)),
                model(out@) + compose_from(first, second, cur.i as int, cur.j as int, Some(g@))
                    == all,
            ensures
                compose_from(first, second, cur.i as int, cur.j as int, Some(g@)) == seq![
                    closed(g@, first, cur.i as int),
                ] + compose_from(first, second, cur.i as int, cur.j as int, None),
                coherent(first, second, cur.i as int, cur.j as int, None),
                0 <= closed(g@, first, cur.i as int).start <= closed(g@, first, cur.i as int).end,
            decreases cur.left(first, second),
        {
            if !grow(edits1, edits2, &mut cur, &mut g) {
                break ;
            }
        }
        let ghost done = closed(g@, first, cur.i as int);
        let ghost more = compose_from(first, second, cur.i as int, cur.j as int, None);
        let ghost so_far = out@;
        proof {
            assert(all =~= model(so_far) + seq![done] + more);
            assert(all[so_far.len() as int] == done);
        }
        match finish(edits1, edits2, &cur, g) {
            Ok(pair) => {
                out.push(pair);
            },
            Err(e) => {
                proof {
                    if so_far.len() < all.len() - 1 {
                        lemma_canonical_order(all, so_far.len() as int, all.len() - 1);
                        assert(all.last().start <= all.last().end);
                    }
                }
                return Err(e);
            },
        }
        proof {
            assert(model(out@) =~= model(so_far) + seq![done]);
        }
    }
    proof {
        assert(compose_from(first, second, cur.i as int, cur.j as int, None) =~= Seq::<
            Edit,
        >::empty());
        assert(model(out@) =~= all);
        if out@.len() > 0 {
            assert(all.last() == edit_of(out@[out@.len() - 1]));
        }
    }
    Ok(out)
}

/// Composes two canonical lists of edits into one. `edits1` is made against a
/// text, `edits2` against the text that `edits1` produces; the result is made
/// against the first text and produces what the two produce one after the
/// other. Edits that do not overlap are handed out as they are, those of
/// `edits2` moved back into the first text; edits that overlap become one
/// edit, however many they are. Where an edit of each list begins at the same
/// position, that of `edits1` comes first.
///
/// Fails with the defect of the first list that is not canonical, with
/// `InvalidEdit` where an edit of `edits2` begins or ends inside a character
/// of a replacement of `edits1`, and with `OutOfBounds` where a composed
/// range would end beyond the largest offset.
pub fn merge<T: Text>(edits1: &[(Range<usize>, T)], edits2: &[(Range<usize>, T)]) -> (res: Result<
    Vec<(Range<usize>, String)>,
    EditError,
>)
    ensures
        match res {
            Ok(list) => {
                &&& merged(model(edits1@), model(edits2@)) == Ok::<Seq<Edit>, EditError>(
                    model(list@),
                )
                &&& model(list@) == compose(model(edits1@), model(edits2@))
                &&& canonical(model(list@))
            },
            Err(e) => merged(model(edits1@), model(edits2@)) == Err::<Seq<Edit>, EditError>(e),
        },
{
    merge_lists(edits1, edits2)
}

} // verus!
