use dedup_lines::run::{process_chunk, Run};
use dedup_lines::sort::{dedup_consecutive, sort_lines};

fn lines(items: &[&str]) -> Vec<String> {
    items.iter().map(|s| s.to_string()).collect()
}

#[test]
fn sort_keeps_every_line_and_its_repeats() {
    let sorted = sort_lines(lines(&["pear", "apple", "fig", "apple", "banana", "fig", "apple"]));
    assert_eq!(sorted, lines(&["apple", "apple", "apple", "banana", "fig", "fig", "pear"]));
}

#[test]
fn sort_of_nothing_and_of_one_line() {
    assert_eq!(sort_lines(Vec::new()), Vec::<String>::new());
    assert_eq!(sort_lines(lines(&["only"])), lines(&["only"]));
}

#[test]
fn sort_of_a_descending_input() {
    let sorted = sort_lines(lines(&["e", "d", "c", "b", "a"]));
    assert_eq!(sorted, lines(&["a", "b", "c", "d", "e"]));
}

#[test]
fn sort_agrees_with_the_standard_sort() {
    let mut state: u64 = 0x2545f4914f6cdd1d;
    let mut input: Vec<String> = Vec::new();
    for _ in 0..500 {
        state ^= state << 13;
        state ^= state >> 7;
        state ^= state << 17;
        input.push(format!("line-{}", state % 97));
    }
    let mut expected = input.clone();
    expected.sort();
    assert_eq!(sort_lines(input), expected);
}

#[test]
fn dedup_consecutive_keeps_the_first_of_each_stretch() {
    let out = dedup_consecutive(lines(&["a", "a", "b", "b", "b", "c"]));
    assert_eq!(out, lines(&["a", "b", "c"]));
}

#[test]
fn dedup_consecutive_leaves_separated_repeats() {
    let out = dedup_consecutive(lines(&["a", "a", "b", "a", "", "", "a"]));
    assert_eq!(out, lines(&["a", "b", "a", "", "a"]));
}

#[test]
fn dedup_consecutive_of_nothing() {
    assert_eq!(dedup_consecutive(Vec::new()), Vec::<String>::new());
}

#[test]
fn chunk_becomes_a_sorted_run_without_duplicates() {
    let run = process_chunk(lines(&["banana", "apple", "apple", "cherry", "banana"]));
    assert_eq!(run.lines(), &lines(&["apple", "banana", "cherry"]));
    assert_eq!(run.len(), 3);
}

#[test]
fn chunk_keeps_the_empty_line() {
    let run = process_chunk(lines(&["b", "", "a", ""]));
    assert_eq!(run.into_lines(), lines(&["", "a", "b"]));
}

#[test]
fn empty_chunk_becomes_an_empty_run() {
    let run = process_chunk(Vec::new());
    assert_eq!(run.len(), 0);
    assert!(run.get(0).is_none());
}

#[test]
fn run_from_sorted_takes_increasing_lines() {
    let run = Run::from_sorted(lines(&["a", "b", "c"])).expect("increasing");
    assert_eq!(run.len(), 3);
    assert_eq!(run.get(0).map(|s| s.as_str()), Some("a"));
    assert_eq!(run.get(2).map(|s| s.as_str()), Some("c"));
    assert!(run.get(3).is_none());
    assert_eq!(run.into_lines(), lines(&["a", "b", "c"]));
}

#[test]
fn run_from_sorted_refuses_repeats_and_disorder() {
    assert!(Run::from_sorted(lines(&["a", "a"])).is_none());
    assert!(Run::from_sorted(lines(&["b", "a"])).is_none());
    assert!(Run::from_sorted(lines(&["a", "c", "b"])).is_none());
    assert!(Run::from_sorted(Vec::new()).is_some());
    assert!(Run::from_sorted(lines(&["z"])).is_some());
}
