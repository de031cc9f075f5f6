use dedup_lines::pipeline::{dedup_lines, split_into_runs, Chunker};
use std::collections::BTreeSet;

fn lines(items: &[&str]) -> Vec<String> {
    items.iter().map(|s| s.to_string()).collect()
}

fn runs_as_lines(input: Vec<String>, capacity: usize) -> Vec<Vec<String>> {
    split_into_runs(input, capacity).into_iter().map(|run| run.into_lines()).collect()
}

#[test]
fn example_with_capacity_two() {
    let input = lines(&["banana", "apple", "apple", "cherry", "banana"]);
    assert_eq!(
        runs_as_lines(input.clone(), 2),
        vec![lines(&["apple", "banana"]), lines(&["apple", "cherry"]), lines(&["banana"])]
    );
    assert_eq!(dedup_lines(input, 2), lines(&["apple", "banana", "cherry"]));
}

#[test]
fn empty_input_gives_empty_output() {
    assert_eq!(dedup_lines(Vec::new(), 4), Vec::<String>::new());
    assert_eq!(dedup_lines(Vec::new(), 0), Vec::<String>::new());
    assert!(split_into_runs(Vec::new(), 4).is_empty());
}

#[test]
fn thousand_identical_lines_give_one() {
    let input: Vec<String> = (0..1000).map(|_| "x".to_string()).collect();
    assert_eq!(dedup_lines(input.clone(), 1), lines(&["x"]));
    assert_eq!(dedup_lines(input.clone(), 7), lines(&["x"]));
    assert_eq!(dedup_lines(input.clone(), 1000), lines(&["x"]));
    assert_eq!(dedup_lines(input, 5000), lines(&["x"]));
}

#[test]
fn deduplicating_twice_changes_nothing() {
    let input = lines(&["delta", "alpha", "charlie", "alpha", "bravo", "delta", "echo"]);
    let once = dedup_lines(input, 3);
    assert_eq!(once, lines(&["alpha", "bravo", "charlie", "delta", "echo"]));
    let twice = dedup_lines(once.clone(), 3);
    assert_eq!(twice, once);
    let again = dedup_lines(once.clone(), 2);
    assert_eq!(again, once);
}

#[test]
fn output_holds_the_distinct_lines_of_the_input() {
    let input = lines(&["q", "w", "e", "r", "t", "y", "q", "w", "e", "", "r", "", "t"]);
    let distinct: BTreeSet<String> = input.iter().cloned().collect();
    let out = dedup_lines(input, 4);
    assert_eq!(out.len(), distinct.len());
    let out_set: BTreeSet<String> = out.iter().cloned().collect();
    assert_eq!(out_set, distinct);
}

#[test]
fn output_lines_strictly_increase() {
    let input = lines(&["m", "b", "z", "b", "a", "m", "k", "a", "z", "c"]);
    let out = dedup_lines(input, 3);
    assert_eq!(out, lines(&["a", "b", "c", "k", "m", "z"]));
    for pair in out.windows(2) {
        assert!(pair[0] < pair[1]);
    }
}

#[test]
fn duplicate_split_over_two_chunks_appears_once() {
    let input = lines(&["left", "shared", "shared", "right"]);
    let runs = runs_as_lines(input.clone(), 2);
    assert_eq!(runs, vec![lines(&["left", "shared"]), lines(&["right", "shared"])]);
    let out = dedup_lines(input, 2);
    assert_eq!(out, lines(&["left", "right", "shared"]));
    assert_eq!(out.iter().filter(|line| line.as_str() == "shared").count(), 1);
}

#[test]
fn capacity_does_not_change_the_output() {
    let input = lines(&[
        "kiwi", "apple", "fig", "kiwi", "date", "apple", "cherry", "fig", "banana", "date", "elder",
    ]);
    let n = input.len();
    let expected = lines(&["apple", "banana", "cherry", "date", "elder", "fig", "kiwi"]);
    for capacity in [0, 1, 2, 3, 5, n - 1, n, n + 1, usize::MAX] {
        assert_eq!(dedup_lines(input.clone(), capacity), expected, "capacity {}", capacity);
    }
}

#[test]
fn capacity_decides_the_number_of_runs() {
    let input = lines(&["e", "d", "c", "b", "a"]);
    assert_eq!(runs_as_lines(input.clone(), 1).len(), 5);
    assert_eq!(runs_as_lines(input.clone(), 2).len(), 3);
    assert_eq!(runs_as_lines(input.clone(), 4).len(), 2);
    assert_eq!(runs_as_lines(input.clone(), 5), vec![lines(&["a", "b", "c", "d", "e"])]);
    assert_eq!(runs_as_lines(input.clone(), 6), vec![lines(&["a", "b", "c", "d", "e"])]);
    assert_eq!(
        runs_as_lines(input, 0),
        vec![lines(&["e"]), lines(&["d"]), lines(&["c"]), lines(&["b"]), lines(&["a"])]
    );
}

#[test]
fn chunker_hands_out_a_run_when_the_chunk_is_full() {
    let mut chunker = Chunker::new(3);
    assert_eq!(chunker.buffered_len(), 0);
    assert!(chunker.push("b".to_string()).is_none());
    assert!(chunker.push("a".to_string()).is_none());
    assert_eq!(chunker.buffered_len(), 2);
    let run = chunker.push("b".to_string()).expect("third line fills the chunk");
    assert_eq!(run.into_lines(), lines(&["a", "b"]));
    assert_eq!(chunker.buffered_len(), 0);
    assert!(chunker.push("z".to_string()).is_none());
    let last = chunker.finish().expect("one line is left");
    assert_eq!(last.into_lines(), lines(&["z"]));
}

#[test]
fn chunker_with_nothing_left_hands_out_no_last_run() {
    let mut chunker = Chunker::new(2);
    assert!(chunker.push("a".to_string()).is_none());
    assert!(chunker.push("b".to_string()).is_some());
    assert!(chunker.finish().is_none());
    assert!(Chunker::new(9).finish().is_none());
}

#[test]
fn chunker_with_capacity_zero_works_line_by_line() {
    let mut chunker = Chunker::new(0);
    let run = chunker.push("only".to_string()).expect("a chunk of one line");
    assert_eq!(run.into_lines(), lines(&["only"]));
    assert!(chunker.finish().is_none());
}

#[test]
fn pipeline_agrees_with_a_sorted_set() {
    let mut state: u64 = 88172645463325252;
    let mut input: Vec<String> = Vec::new();
    for _ in 0..2000 {
        state ^= state << 13;
        state ^= state >> 7;
        state ^= state << 17;
        input.push(format!("{}-\u{e9}-{}", state % 211, state % 3));
    }
    let expected: Vec<String> = input.iter().cloned().collect::<BTreeSet<String>>().into_iter().collect();
    for capacity in [1, 16, 333, 2000, 2001] {
        assert_eq!(dedup_lines(input.clone(), capacity), expected);
    }
}
