use dedup_lines::heap::MinHeap;
use dedup_lines::merge::{merge_runs, Merger};
use dedup_lines::run::{process_chunk, Run};

fn lines(items: &[&str]) -> Vec<String> {
    items.iter().map(|s| s.to_string()).collect()
}

fn run(items: &[&str]) -> Run {
    Run::from_sorted(lines(items)).expect("increasing")
}

#[test]
fn heap_hands_out_lines_in_ascending_order() {
    let mut heap = MinHeap::new();
    assert!(heap.is_empty());
    for (i, line) in ["m", "c", "x", "a", "k", "b", "z", "a"].iter().enumerate() {
        heap.push(line.to_string(), i);
    }
    assert_eq!(heap.len(), 8);
    let mut seen = Vec::new();
    while let Some(entry) = heap.pop() {
        seen.push(entry.line);
    }
    assert_eq!(seen, lines(&["a", "a", "b", "c", "k", "m", "x", "z"]));
    assert!(heap.is_empty());
    assert!(heap.pop().is_none());
}

#[test]
fn heap_keeps_the_run_of_each_line() {
    let mut heap = MinHeap::new();
    heap.push("b".to_string(), 7);
    heap.push("a".to_string(), 3);
    heap.push("c".to_string(), 5);
    let first = heap.pop().expect("three entries");
    assert_eq!((first.line.as_str(), first.run), ("a", 3));
    let second = heap.pop().expect("two entries");
    assert_eq!((second.line.as_str(), second.run), ("b", 7));
    let third = heap.pop().expect("one entry");
    assert_eq!((third.line.as_str(), third.run), ("c", 5));
}

#[test]
fn heap_hands_out_equal_lines_of_different_runs() {
    let mut heap = MinHeap::new();
    heap.push("same".to_string(), 0);
    heap.push("same".to_string(), 1);
    heap.push("same".to_string(), 2);
    let mut runs = Vec::new();
    while let Some(entry) = heap.pop() {
        assert_eq!(entry.line, "same");
        runs.push(entry.run);
    }
    runs.sort();
    assert_eq!(runs, vec![0, 1, 2]);
}

#[test]
fn heap_of_many_lines_agrees_with_sorting() {
    let mut state: u64 = 0x9e3779b97f4a7c15;
    let mut heap = MinHeap::new();
    let mut expected = Vec::new();
    for i in 0..300 {
        state = state.wrapping_mul(6364136223846793005).wrapping_add(1442695040888963407);
        let line = format!("{:05}", (state >> 33) % 1000);
        expected.push(line.clone());
        heap.push(line, i);
    }
    expected.sort();
    let mut seen = Vec::new();
    while let Some(entry) = heap.pop() {
        seen.push(entry.line);
    }
    assert_eq!(seen, expected);
}

#[test]
fn merger_without_heads_is_done() {
    let mut merger = Merger::new();
    assert_eq!(merger.pending(), 0);
    assert!(merger.advance().is_none());
    assert!(merger.last_written().is_none());
}

#[test]
fn merger_writes_a_line_once() {
    let mut merger = Merger::new();
    merger.push_head("b".to_string(), 0);
    merger.push_head("a".to_string(), 1);
    merger.push_head("a".to_string(), 2);
    assert_eq!(merger.pending(), 3);

    let first = merger.advance().expect("three heads");
    assert!(first.emit);
    assert!(first.run == 1 || first.run == 2);
    assert_eq!(merger.last_written().map(|s| s.as_str()), Some("a"));

    let second = merger.advance().expect("two heads");
    assert!(!second.emit);
    assert!(second.run == 1 || second.run == 2);
    assert_ne!(first.run, second.run);
    assert_eq!(merger.last_written().map(|s| s.as_str()), Some("a"));

    let third = merger.advance().expect("one head");
    assert!(third.emit);
    assert_eq!(third.run, 0);
    assert_eq!(merger.last_written().map(|s| s.as_str()), Some("b"));

    assert!(merger.advance().is_none());
    assert_eq!(merger.last_written().map(|s| s.as_str()), Some("b"));
}

#[test]
fn merger_writes_an_empty_first_line() {
    let mut merger = Merger::new();
    merger.push_head(String::new(), 0);
    let step = merger.advance().expect("one head");
    assert!(step.emit);
    assert_eq!(step.run, 0);
    assert_eq!(merger.last_written().map(|s| s.as_str()), Some(""));
    merger.push_head(String::new(), 1);
    let again = merger.advance().expect("one head");
    assert!(!again.emit);
}

#[test]
fn merge_of_no_runs_is_empty() {
    let runs: Vec<Run> = Vec::new();
    assert_eq!(merge_runs(&runs), Vec::<String>::new());
}

#[test]
fn merge_of_empty_runs_is_empty() {
    let runs = vec![run(&[]), run(&[]), run(&[])];
    assert_eq!(merge_runs(&runs), Vec::<String>::new());
}

#[test]
fn merge_of_one_run_is_that_run() {
    let runs = vec![run(&["a", "b", "d"])];
    assert_eq!(merge_runs(&runs), lines(&["a", "b", "d"]));
}

#[test]
fn merge_of_the_three_example_runs() {
    let runs = vec![run(&["apple", "banana"]), run(&["apple", "cherry"]), run(&["banana"])];
    assert_eq!(merge_runs(&runs), lines(&["apple", "banana", "cherry"]));
}

#[test]
fn merge_writes_once_what_two_runs_end_with() {
    let runs = vec![run(&["a", "z"]), run(&["m", "z"])];
    assert_eq!(merge_runs(&runs), lines(&["a", "m", "z"]));
}

#[test]
fn merge_of_identical_runs() {
    let runs = vec![run(&["a", "b", "c"]), run(&["a", "b", "c"]), run(&["a", "b", "c"])];
    assert_eq!(merge_runs(&runs), lines(&["a", "b", "c"]));
}

#[test]
fn merge_interleaves_runs_of_different_length() {
    let runs = vec![
        run(&["b", "e", "h", "k"]),
        run(&[]),
        run(&["a"]),
        run(&["c", "d", "e", "f", "g", "l"]),
    ];
    assert_eq!(
        merge_runs(&runs),
        lines(&["a", "b", "c", "d", "e", "f", "g", "h", "k", "l"])
    );
}

#[test]
fn merge_of_processed_chunks_leaves_the_runs_as_they_were() {
    let runs = vec![
        process_chunk(lines(&["pear", "fig", "pear"])),
        process_chunk(lines(&["fig", "apple"])),
    ];
    assert_eq!(merge_runs(&runs), lines(&["apple", "fig", "pear"]));
    assert_eq!(runs[0].lines(), &lines(&["fig", "pear"]));
    assert_eq!(runs[1].lines(), &lines(&["apple", "fig"]));
}
