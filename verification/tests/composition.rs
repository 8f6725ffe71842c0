use edit_merge::{apply, merge, merge_lists, validate, EditError};
use std::ops::Range;

fn owned(edits: &[(Range<usize>, &str)]) -> Vec<(Range<usize>, String)> {
    edits.iter().map(|(r, s)| (r.clone(), s.to_string())).collect()
}

#[test]
fn disjoint_first_then_second_keeps_both() {
    let edits1 = vec![(0..5, "hi")];
    let edits2 = vec![(3..8, "earth")];
    let got = merge(&edits1, &edits2).unwrap();
    assert_eq!(got, owned(&[(0..5, "hi"), (6..11, "earth")]));
}

#[test]
fn disjoint_second_then_first_keeps_both() {
    let edits1 = vec![(6..11, "earth")];
    let edits2 = vec![(0..5, "hi")];
    let got = merge(&edits1, &edits2).unwrap();
    assert_eq!(got, owned(&[(0..5, "hi"), (6..11, "earth")]));
}

#[test]
fn second_range_is_moved_back_by_the_drift() {
    // The first edit shortens the text by three bytes, so position 10 of the
    // intermediate text is position 13 of the first text.
    let edits1 = vec![(0..5, "hi")];
    let edits2 = vec![(10..12, "X")];
    let got = merge(&edits1, &edits2).unwrap();
    assert_eq!(got, owned(&[(0..5, "hi"), (13..15, "X")]));
}

#[test]
fn second_inside_first_is_spliced() {
    let edits1 = vec![(0..15, "hi big world")];
    let edits2 = vec![(3..6, "small")];
    let got = merge(&edits1, &edits2).unwrap();
    assert_eq!(got, owned(&[(0..15, "hi small world")]));
}

#[test]
fn second_over_the_end_of_first_extends_the_range() {
    let edits1 = vec![(0..12, "hi there")];
    let edits2 = vec![(3..14, "earth")];
    let got = merge(&edits1, &edits2).unwrap();
    assert_eq!(got, owned(&[(0..18, "hi earth")]));
}

#[test]
fn second_over_the_start_of_first_keeps_the_rest() {
    let edits1 = vec![(9..18, "big earth")];
    let edits2 = vec![(0..12, "hi")];
    let got = merge(&edits1, &edits2).unwrap();
    assert_eq!(got, owned(&[(0..18, "hi earth")]));
}

#[test]
fn second_swallows_first() {
    let edits1 = vec![(6..9, "small")];
    let edits2 = vec![(0..17, "hi world")];
    let got = merge(&edits1, &edits2).unwrap();
    assert_eq!(got, owned(&[(0..15, "hi world")]));
}

#[test]
fn one_second_edit_spans_several_first_edits() {
    let text = "0123456789abcdef";
    let edits1 = vec![(2..4, "XX"), (6..8, "YYYY"), (10..12, "Z")];
    // intermediate: 01XX45YYYY89Zcdef
    let edits2 = vec![(3..13, "-")];
    let intermediate = apply(text, &edits1).unwrap();
    assert_eq!(intermediate, "01XX45YYYY89Zcdef");
    let expected = apply(&intermediate, &edits2).unwrap();
    assert_eq!(expected, "01X-cdef");
    let got = merge(&edits1, &edits2).unwrap();
    assert_eq!(got, owned(&[(2..12, "X-")]));
    assert_eq!(apply(text, &got).unwrap(), expected);
}

#[test]
fn one_first_edit_is_cut_by_several_second_edits() {
    let text = "abcdefgh";
    let edits1 = vec![(2..6, "0123456789")];
    // intermediate: ab0123456789gh
    let edits2 = vec![(1..3, "<"), (4..6, ""), (8..8, "+"), (11..13, ">")];
    let intermediate = apply(text, &edits1).unwrap();
    let expected = apply(&intermediate, &edits2).unwrap();
    assert_eq!(expected, "a<145+678>h");
    let got = merge(&edits1, &edits2).unwrap();
    assert_eq!(got, owned(&[(1..7, "<145+678>")]));
    assert_eq!(apply(text, &got).unwrap(), expected);
}

#[test]
fn chain_of_overlaps_becomes_one_edit() {
    let text = "abcdefghijkl";
    let edits1 = vec![(1..3, "BC"), (5..7, "FG"), (9..11, "JK")];
    let edits2 = vec![(2..6, "1"), (6..10, "2")];
    let intermediate = apply(text, &edits1).unwrap();
    let expected = apply(&intermediate, &edits2).unwrap();
    assert_eq!(expected, "aB12Kl");
    let got = merge(&edits1, &edits2).unwrap();
    assert_eq!(got, owned(&[(1..11, "B12K")]));
    assert_eq!(apply(text, &got).unwrap(), expected);
}

#[test]
fn equal_starts_put_the_first_list_first() {
    // Both begin at position 2 of the intermediate text: the insertion of the
    // second list goes into the replacement of the first.
    let text = "abcd";
    let edits1 = vec![(2..3, "XY")];
    let edits2 = vec![(2..2, "-")];
    let got = merge(&edits1, &edits2).unwrap();
    assert_eq!(got, owned(&[(2..3, "-XY")]));
    assert_eq!(apply(text, &got).unwrap(), "ab-XYd");
}

#[test]
fn insertion_behind_a_deletion_stays_apart() {
    let text = "abcdef";
    let edits1 = vec![(2..4, "")];
    let edits2 = vec![(2..2, "+")];
    let got = merge(&edits1, &edits2).unwrap();
    assert_eq!(got, owned(&[(2..4, ""), (4..4, "+")]));
    assert_eq!(apply(text, &got).unwrap(), "ab+ef");
}

#[test]
fn touching_edits_stay_apart() {
    let text = "abcdef";
    let edits1 = vec![(0..2, "AB")];
    let edits2 = vec![(2..4, "CD")];
    let got = merge(&edits1, &edits2).unwrap();
    assert_eq!(got, owned(&[(0..2, "AB"), (2..4, "CD")]));
    assert_eq!(apply(text, &got).unwrap(), "ABCDef");
}

#[test]
fn second_ends_where_the_replacement_of_first_ends() {
    let text = "0123456789";
    let edits1 = vec![(2..5, "abcd")];
    // intermediate: 01abcd56789, the replacement at 2..6
    let edits2 = vec![(4..6, "X")];
    let got = merge(&edits1, &edits2).unwrap();
    assert_eq!(got, owned(&[(2..5, "abX")]));
    assert_eq!(apply(text, &got).unwrap(), "01abX56789");
}

#[test]
fn second_covers_the_replacement_of_first_exactly() {
    let text = "0123456789";
    let edits1 = vec![(2..5, "abcd")];
    let edits2 = vec![(2..6, "X")];
    let got = merge(&edits1, &edits2).unwrap();
    assert_eq!(got, owned(&[(2..5, "X")]));
    assert_eq!(apply(text, &got).unwrap(), "01X56789");
}

#[test]
fn second_ends_where_the_replacement_of_first_starts() {
    let text = "0123456789";
    let edits1 = vec![(2..5, "abcd")];
    let edits2 = vec![(0..2, "X")];
    let got = merge(&edits1, &edits2).unwrap();
    assert_eq!(got, owned(&[(0..2, "X"), (2..5, "abcd")]));
    assert_eq!(apply(text, &got).unwrap(), "Xabcd56789");
}

#[test]
fn second_starts_before_and_ends_with_the_replacement_of_first() {
    let text = "0123456789";
    let edits1 = vec![(2..5, "abcd")];
    let edits2 = vec![(1..6, "X")];
    let got = merge(&edits1, &edits2).unwrap();
    assert_eq!(got, owned(&[(1..5, "X")]));
    assert_eq!(apply(text, &got).unwrap(), "0X56789");
}

#[test]
fn deletion_of_first_inside_the_range_of_second_widens_it() {
    let text = "0123456789";
    let edits1 = vec![(3..6, "")];
    // intermediate: 0126789
    let edits2 = vec![(1..5, "X")];
    let got = merge(&edits1, &edits2).unwrap();
    assert_eq!(got, owned(&[(1..8, "X")]));
    assert_eq!(apply(text, &got).unwrap(), "0X89");
}

#[test]
fn insertions_at_one_position_keep_their_order() {
    let text = "ab";
    let edits1 = vec![(1..1, "1"), (1..1, "2")];
    // intermediate: a12b
    let edits2 = vec![(1..1, "x"), (2..2, "y"), (3..3, "z")];
    let got = merge(&edits1, &edits2).unwrap();
    assert_eq!(got, owned(&[(1..1, "x1"), (1..1, "y2"), (1..1, "z")]));
    assert_eq!(apply(text, &got).unwrap(), "ax1y2zb");
}

#[test]
fn empty_list_is_identity_on_the_right() {
    let edits = vec![(0..2, "x"), (2..2, "yy"), (5..9, "")];
    let none: Vec<(Range<usize>, &str)> = vec![];
    assert_eq!(merge(&edits, &none).unwrap(), owned(&edits));
}

#[test]
fn empty_list_is_identity_on_the_left() {
    let edits = vec![(0..2, "x"), (2..2, "yy"), (5..9, "")];
    let none: Vec<(Range<usize>, &str)> = vec![];
    assert_eq!(merge(&none, &edits).unwrap(), owned(&edits));
}

#[test]
fn two_empty_lists_give_an_empty_list() {
    let none: Vec<(Range<usize>, &str)> = vec![];
    assert_eq!(merge(&none, &none).unwrap(), vec![]);
}

#[test]
fn composition_is_associative_by_effect() {
    let text = "the quick brown fox jumps";
    let e1 = vec![(4..9, "slow"), (16..19, "dog")];
    let t1 = apply(text, &e1).unwrap();
    assert_eq!(t1, "the slow brown dog jumps");
    let e2 = vec![(0..3, "a"), (9..14, "red"), (19..24, "sits")];
    let t2 = apply(&t1, &e2).unwrap();
    assert_eq!(t2, "a slow red dog sits");
    let e3 = vec![(2..10, "big"), (14..14, "!")];
    let t3 = apply(&t2, &e3).unwrap();
    assert_eq!(t3, "a big dog! sits");

    let left = merge(&merge(&e1, &e2).unwrap(), &owned(&e3)).unwrap();
    let right = merge_lists(&e1, &merge(&e2, &e3).unwrap()).unwrap();
    assert_eq!(apply(text, &left).unwrap(), t3);
    assert_eq!(apply(text, &right).unwrap(), t3);
}

#[test]
fn merge_lists_takes_two_kinds_of_text() {
    let edits1 = owned(&[(0..5, "hi")]);
    let edits2 = vec![(3..8, "earth")];
    let got = merge_lists(&edits1, &edits2).unwrap();
    assert_eq!(got, owned(&[(0..5, "hi"), (6..11, "earth")]));
}

#[test]
fn multibyte_text_is_cut_between_characters() {
    let text = "grüße";
    let edits1 = vec![(2..4, "ue"), (4..6, "ss")];
    let t1 = apply(text, &edits1).unwrap();
    assert_eq!(t1, "gruesse");
    let edits2 = vec![(3..5, "ß")];
    let got = merge(&edits1, &edits2).unwrap();
    assert_eq!(got, owned(&[(2..6, "ußs")]));
    assert_eq!(apply(text, &got).unwrap(), "grußse");
}

#[test]
fn cut_inside_a_character_is_an_invalid_edit() {
    let edits1 = vec![(0..0, "é")];
    let edits2 = vec![(1..2, "")];
    assert_eq!(merge(&edits1, &edits2), Err(EditError::InvalidEdit));
}

#[test]
fn empty_cut_inside_a_character_is_an_invalid_edit() {
    // Nothing would be lost, but the replacement would be cut inside "é".
    let edits1 = vec![(0..0, "é")];
    let edits2 = vec![(1..1, "")];
    assert_eq!(merge(&edits1, &edits2), Err(EditError::InvalidEdit));
    let edits1 = vec![(3..4, "aé"), (7..9, "日本")];
    // intermediate positions: "aé" at 3..6, "日本" at 9..15
    assert_eq!(merge(&edits1, &[(0..10, "")]), Err(EditError::InvalidEdit));
    assert_eq!(merge(&edits1, &[(5..8, "")]), Err(EditError::InvalidEdit));
    assert_eq!(merge(&edits1, &[(0..1, ""), (12..14, "")]), Err(EditError::InvalidEdit));
}

#[test]
fn cut_between_characters_is_taken() {
    let edits1 = vec![(3..4, "aé"), (7..9, "日本")];
    // intermediate positions: "aé" at 3..6, "日本" at 9..15
    let got = merge(&edits1, &[(4..12, "-")]).unwrap();
    assert_eq!(got, owned(&[(3..9, "a-本")]));
    let got = merge(&edits1, &[(0..3, ""), (6..9, "x"), (15..16, "")]).unwrap();
    assert_eq!(
        got,
        owned(&[(0..3, ""), (3..4, "aé"), (4..7, "x"), (7..9, "日本"), (9..10, "")])
    );
}

#[test]
fn a_cut_inside_a_character_comes_before_a_range_beyond_the_largest_offset() {
    let edits1 = vec![(0..10, "é")];
    let edits2 = vec![(1..1, ""), (usize::MAX - 1..usize::MAX, "x")];
    assert_eq!(merge(&edits1, &edits2), Err(EditError::InvalidEdit));
}

#[test]
fn range_behind_its_end_is_an_invalid_range() {
    let bad = vec![(0..1, "a"), (5..3, "b")];
    let good = vec![(0..1, "a")];
    assert_eq!(merge(&bad, &good), Err(EditError::InvalidRange));
    assert_eq!(merge(&good, &bad), Err(EditError::InvalidRange));
    assert_eq!(validate(&bad), Err(EditError::InvalidRange));
}

#[test]
fn overlapping_ranges_are_misordered_input() {
    let bad = vec![(0..4, "a"), (3..5, "b")];
    let good = vec![(0..1, "a")];
    assert_eq!(merge(&bad, &good), Err(EditError::MisorderedInput));
    assert_eq!(merge(&good, &bad), Err(EditError::MisorderedInput));
    assert_eq!(validate(&bad), Err(EditError::MisorderedInput));
}

#[test]
fn unsorted_ranges_are_misordered_input() {
    let bad = vec![(6..11, "earth"), (0..5, "hi")];
    assert_eq!(validate(&bad), Err(EditError::MisorderedInput));
}

#[test]
fn the_first_fault_decides_the_error() {
    let bad = vec![(0..4, "a"), (3..5, "b"), (9..8, "c")];
    assert_eq!(validate(&bad), Err(EditError::MisorderedInput));
    let worse = vec![(4..0, "a"), (3..5, "b")];
    assert_eq!(validate(&worse), Err(EditError::InvalidRange));
}

#[test]
fn the_first_list_is_checked_first() {
    let misordered = vec![(0..4, "a"), (3..5, "b")];
    let invalid = vec![(4..0, "a")];
    assert_eq!(merge(&misordered, &invalid), Err(EditError::MisorderedInput));
    assert_eq!(merge(&invalid, &misordered), Err(EditError::InvalidRange));
}

#[test]
fn canonical_lists_validate() {
    let none: Vec<(Range<usize>, &str)> = vec![];
    assert_eq!(validate(&none), Ok(()));
    assert_eq!(validate(&[(0..0, "a"), (0..0, "b"), (0..3, ""), (3..3, "c")]), Ok(()));
}

#[test]
fn range_beyond_the_largest_offset_is_out_of_bounds() {
    let edits1 = vec![(0..10, "")];
    let edits2 = vec![(usize::MAX - 1..usize::MAX, "x")];
    assert_eq!(merge(&edits1, &edits2), Err(EditError::OutOfBounds));
}

#[test]
fn range_at_the_largest_offset_is_kept() {
    let edits1 = vec![(0..0, "0123456789")];
    let edits2 = vec![(usize::MAX - 1..usize::MAX, "x")];
    let got = merge(&edits1, &edits2).unwrap();
    assert_eq!(got, owned(&[(0..0, "0123456789"), (usize::MAX - 11..usize::MAX - 10, "x")]));
}

#[test]
fn apply_replaces_each_range() {
    let text = "hello world";
    assert_eq!(apply(text, &[(0..5, "hi"), (6..11, "earth")]).unwrap(), "hi earth");
    assert_eq!(apply(text, &[(0..0, ">"), (5..6, ""), (11..11, "<")]).unwrap(), ">helloworld<");
    let none: Vec<(Range<usize>, &str)> = vec![];
    assert_eq!(apply(text, &none).unwrap(), text);
    assert_eq!(apply("", &[(0..0, "x")]).unwrap(), "x");
}

#[test]
fn apply_turns_down_a_range_beyond_the_text() {
    assert_eq!(apply("hello", &[(3..6, "x")]), Err(EditError::OutOfBounds));
    assert_eq!(apply("hello", &[(0..1, "x"), (6..6, "y")]), Err(EditError::OutOfBounds));
    assert_eq!(apply("hello", &[(3..5, "x")]).unwrap(), "helx");
}

#[test]
fn apply_turns_down_a_list_that_is_not_canonical() {
    assert_eq!(apply("hello", &[(3..2, "x")]), Err(EditError::InvalidRange));
    assert_eq!(apply("hello", &[(2..4, "x"), (3..5, "y")]), Err(EditError::MisorderedInput));
}

#[test]
fn apply_turns_down_a_cut_inside_a_character() {
    assert_eq!(apply("é", &[(1..2, "")]), Err(EditError::InvalidEdit));
    assert_eq!(apply("é", &[(0..1, "")]), Err(EditError::InvalidEdit));
    assert_eq!(apply("é", &[(1..1, "")]), Err(EditError::InvalidEdit));
    assert_eq!(apply("aé", &[(0..1, ""), (2..3, "")]), Err(EditError::InvalidEdit));
    assert_eq!(apply("é", &[(0..2, "e")]).unwrap(), "e");
    assert_eq!(apply("日本", &[(3..3, "の")]).unwrap(), "日の本");
}

#[test]
fn apply_looks_for_a_range_beyond_the_text_first() {
    assert_eq!(apply("é", &[(1..1, ""), (2..3, "")]), Err(EditError::OutOfBounds));
}

struct Lcg(u64);

impl Lcg {
    fn next(&mut self, bound: usize) -> usize {
        self.0 = self.0.wrapping_mul(6364136223846793005).wrapping_add(1442695040888963407);
        ((self.0 >> 33) as usize) % bound
    }
}

fn random_edits(rng: &mut Lcg, len: usize) -> Vec<(Range<usize>, String)> {
    let mut edits = Vec::new();
    let mut pos = 0;
    loop {
        pos += rng.next(4);
        if pos > len {
            break;
        }
        let end = (pos + rng.next(4)).min(len);
        let mut text = String::new();
        for _ in 0..rng.next(4) {
            text.push((b'A' + rng.next(26) as u8) as char);
        }
        edits.push((pos..end, text));
        pos = end;
        if rng.next(5) == 0 {
            break;
        }
    }
    edits
}

#[test]
fn composition_keeps_the_effect_on_many_inputs() {
    let mut rng = Lcg(7);
    for _ in 0..3000 {
        let len = rng.next(24);
        let text: String = (0..len).map(|k| (b'a' + (k % 26) as u8) as char).collect();
        let edits1 = random_edits(&mut rng, text.len());
        let mid = apply(&text, &edits1).unwrap();
        let edits2 = random_edits(&mut rng, mid.len());
        let expected = apply(&mid, &edits2).unwrap();
        let composed = merge(&edits1, &edits2).unwrap();
        assert_eq!(validate(&composed), Ok(()));
        assert_eq!(apply(&text, &composed).unwrap(), expected);
    }
}

fn random_text(rng: &mut Lcg, chars: usize) -> String {
    let alphabet = ['a', 'b', 'é', 'ß', '日', '本', '😀'];
    (0..chars).map(|_| alphabet[rng.next(alphabet.len())]).collect()
}

fn edits_between_characters(rng: &mut Lcg, text: &str) -> Vec<(Range<usize>, String)> {
    let mut bounds: Vec<usize> = text.char_indices().map(|(at, _)| at).collect();
    bounds.push(text.len());
    let mut edits = Vec::new();
    let mut k = 0;
    loop {
        k += rng.next(3);
        if k >= bounds.len() {
            break;
        }
        let to = (k + rng.next(3)).min(bounds.len() - 1);
        let count = rng.next(3);
        let new = random_text(rng, count);
        edits.push((bounds[k]..bounds[to], new));
        k = to;
        if rng.next(6) == 0 {
            break;
        }
    }
    edits
}

fn edits_at_any_byte(rng: &mut Lcg, len: usize) -> Vec<(Range<usize>, String)> {
    let mut edits = Vec::new();
    let mut pos = 0;
    loop {
        pos += rng.next(5);
        if pos > len {
            break;
        }
        let end = (pos + rng.next(5)).min(len);
        let count = rng.next(3);
        let new = random_text(rng, count);
        edits.push((pos..end, new));
        pos = end;
        if rng.next(4) == 0 {
            break;
        }
    }
    edits
}

#[test]
fn composition_of_text_agrees_with_one_edit_list_after_the_other() {
    let mut rng = Lcg(2024);
    let mut taken = 0;
    let mut turned_down = 0;
    for _ in 0..6000 {
        let count = rng.next(8);
        let text = random_text(&mut rng, count);
        let edits1 = edits_between_characters(&mut rng, &text);
        let mid = apply(&text, &edits1).unwrap();
        let edits2 = if rng.next(2) == 0 {
            edits_between_characters(&mut rng, &mid)
        } else {
            edits_at_any_byte(&mut rng, mid.len())
        };
        match apply(&mid, &edits2) {
            Ok(expected) => {
                let composed = merge(&edits1, &edits2).unwrap();
                assert_eq!(apply(&text, &composed).unwrap(), expected);
                taken += 1;
            }
            Err(e) => {
                assert_eq!(e, EditError::InvalidEdit);
                match merge(&edits1, &edits2) {
                    Ok(composed) => {
                        assert_eq!(apply(&text, &composed), Err(EditError::InvalidEdit))
                    }
                    Err(e) => assert_eq!(e, EditError::InvalidEdit),
                }
                turned_down += 1;
            }
        }
    }
    assert!(taken > 1000);
    assert!(turned_down > 500);
}
