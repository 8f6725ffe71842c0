use edit_merge::{apply, normalize, EditError};
use std::ops::Range;

fn owned(edits: &[(Range<usize>, &str)]) -> Vec<(Range<usize>, String)> {
    edits.iter().map(|(r, s)| (r.clone(), s.to_string())).collect()
}

fn replay(text: &str, edits: &[(Range<usize>, &str)]) -> String {
    let mut text = text.to_string();
    for edit in edits {
        text = apply(&text, &[edit.clone()]).unwrap();
    }
    text
}

#[test]
fn out_of_order_edits_are_sorted() {
    let text = "hello world";
    let raw = vec![(6..11, "earth"), (0..5, "hi")];
    let got = normalize(&raw).unwrap();
    assert_eq!(got, owned(&[(0..5, "hi"), (6..11, "earth")]));
    assert_eq!(apply(text, &got).unwrap(), "hi earth");
    assert_eq!(replay(text, &raw), "hi earth");
}

#[test]
fn later_edit_is_read_against_the_text_it_was_made_on() {
    let text = "hello world";
    let raw = vec![(0..5, "hi"), (3..8, "earth")];
    let got = normalize(&raw).unwrap();
    assert_eq!(got, owned(&[(0..5, "hi"), (6..11, "earth")]));
    assert_eq!(apply(text, &got).unwrap(), replay(text, &raw));
}

#[test]
fn overlapping_edits_become_one() {
    let text = "hello to the world";
    let raw = vec![(0..12, "hi there"), (3..14, "earth")];
    let got = normalize(&raw).unwrap();
    assert_eq!(got, owned(&[(0..18, "hi earth")]));
    assert_eq!(apply(text, &got).unwrap(), "hi earth");
    assert_eq!(replay(text, &raw), "hi earth");
}

#[test]
fn edit_inside_an_earlier_replacement_is_spliced() {
    let text = "hello big earth";
    let raw = vec![(0..15, "hi big world"), (3..6, "small")];
    let got = normalize(&raw).unwrap();
    assert_eq!(got, owned(&[(0..15, "hi small world")]));
    assert_eq!(apply(text, &got).unwrap(), replay(text, &raw));
}

#[test]
fn empty_list_is_normal() {
    let raw: Vec<(Range<usize>, &str)> = vec![];
    assert_eq!(normalize(&raw).unwrap(), vec![]);
}

#[test]
fn single_edit_is_normal() {
    let raw = vec![(3..7, "x")];
    assert_eq!(normalize(&raw).unwrap(), owned(&raw));
}

#[test]
fn normalizing_twice_changes_nothing_where_lengths_are_kept() {
    let raw = vec![(6..8, "XY"), (0..3, "abc"), (1..2, "-"), (10..11, "tail")];
    let once = normalize(&raw).unwrap();
    assert_eq!(once, owned(&[(0..3, "a-c"), (6..8, "XY"), (10..11, "tail")]));
    let twice = normalize(&once).unwrap();
    assert_eq!(twice, once);
}

#[test]
fn normal_form_comes_back_from_its_sequence() {
    // The canonical list [(0..1, "ab"), (2..3, "c")], written as edits to make
    // one after the other: the second edit moved by the drift of the first.
    let in_sequence = vec![(0..1, "ab"), (3..4, "c")];
    let got = normalize(&in_sequence).unwrap();
    assert_eq!(got, owned(&[(0..1, "ab"), (2..3, "c")]));
}

#[test]
fn normal_form_read_in_sequence_is_another_list() {
    let canonical = vec![(0..1, "ab"), (2..3, "c")];
    let got = normalize(&canonical).unwrap();
    assert_eq!(got, owned(&[(0..1, "ab"), (1..2, "c")]));
}

#[test]
fn range_behind_its_end_is_turned_down_before_any_work() {
    let raw = vec![(0..usize::MAX, ""), (usize::MAX - 1..usize::MAX, "x"), (5..3, "b")];
    assert_eq!(normalize(&raw), Err(EditError::InvalidRange));
}

#[test]
fn normalize_turns_down_a_range_beyond_the_largest_offset() {
    let raw = vec![(0..10, ""), (usize::MAX - 1..usize::MAX, "x")];
    assert_eq!(normalize(&raw), Err(EditError::OutOfBounds));
}

#[test]
fn normalize_turns_down_a_cut_inside_a_character() {
    let raw = vec![(0..0, "é"), (1..2, "")];
    assert_eq!(normalize(&raw), Err(EditError::InvalidEdit));
}

struct Lcg(u64);

impl Lcg {
    fn next(&mut self, bound: usize) -> usize {
        self.0 = self.0.wrapping_mul(6364136223846793005).wrapping_add(1442695040888963407);
        ((self.0 >> 33) as usize) % bound
    }
}

#[test]
fn normalization_keeps_the_effect_on_many_inputs() {
    let mut rng = Lcg(11);
    for _ in 0..2000 {
        let len = rng.next(16);
        let first: String = (0..len).map(|k| (b'a' + (k % 26) as u8) as char).collect();
        let mut text = first.clone();
        let mut raw: Vec<(Range<usize>, String)> = Vec::new();
        for _ in 0..rng.next(6) {
            let start = rng.next(text.len() + 1);
            let end = start + rng.next(text.len() - start + 1);
            let mut new = String::new();
            for _ in 0..rng.next(4) {
                new.push((b'A' + rng.next(26) as u8) as char);
            }
            let edit = (start..end, new);
            text = apply(&text, &[edit.clone()]).unwrap();
            raw.push(edit);
        }
        let got = normalize(&raw).unwrap();
        assert_eq!(apply(&first, &got).unwrap(), text);
    }
}
