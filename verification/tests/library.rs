use proximity_sort::components::tokenize;
use proximity_sort::rank::Entry;
use proximity_sort::rank::Ranking;
use proximity_sort::rank::reorder_all;
use proximity_sort::scoring::score;
use proximity_sort::secondary::reorder_secondary;
use proximity_sort::secondary::secondary_rank;

fn b(s: &str) -> Vec<u8> {
    s.as_bytes().to_vec()
}

#[test]
fn tokenize_splits_on_separators() {
    assert_eq!(tokenize(&b("a/b/c")), vec![b("a"), b("b"), b("c")]);
    assert_eq!(tokenize(&b("one")), vec![b("one")]);
}

#[test]
fn tokenize_drops_empty_and_curdir_segments() {
    assert_eq!(tokenize(&b("a//b/./c/")), vec![b("a"), b("b"), b("c")]);
    assert_eq!(tokenize(&b("./a")), vec![b("a")]);
    assert_eq!(tokenize(&b("././x")), vec![b("x")]);
    assert_eq!(tokenize(&b(".")), Vec::<Vec<u8>>::new());
    assert_eq!(tokenize(&b(".hidden")), vec![b(".hidden")]);
}

#[test]
fn tokenize_empty_input_yields_empty_sequence() {
    assert_eq!(tokenize(&b("")), Vec::<Vec<u8>>::new());
}

#[test]
fn tokenize_keeps_root() {
    assert_eq!(tokenize(&b("/a/b")), vec![b("/"), b("a"), b("b")]);
}

#[test]
fn score_of_identical_path_is_component_count() {
    let reference = tokenize(&b("bar/main.txt"));
    assert_eq!(score(&reference, &reference), 2);
    let deep = tokenize(&b("a/b/c/d"));
    assert_eq!(score(&deep, &deep), 4);
}

#[test]
fn score_penalizes_divergence_and_depth() {
    let reference = tokenize(&b("a/x"));
    // shared "a" (+1), mismatch "b" (-1), extra "c" (-1)
    assert_eq!(score(&tokenize(&b("a/b/c")), &reference), -1);
    // unrelated path of length 3 scores -3
    assert_eq!(score(&tokenize(&b("q/r/s")), &reference), -3);
    // depth past the reference is distance: "a/x" matched, "y/z" extra
    assert_eq!(score(&tokenize(&b("a/x/y/z")), &reference), 0);
}

#[test]
fn score_of_empty_candidate_is_zero() {
    let empty = tokenize(&b(""));
    assert_eq!(score(&empty, &tokenize(&b("a/b"))), 0);
    assert_eq!(score(&empty, &empty), 0);
}

#[test]
fn score_against_empty_reference_is_negated_length() {
    let empty = tokenize(&b(""));
    assert_eq!(score(&tokenize(&b("a/b/c")), &empty), -3);
}

#[test]
fn score_is_deterministic() {
    let cand = tokenize(&b("src/lib/io.c"));
    let reference = tokenize(&b("src/main.c"));
    assert_eq!(score(&cand, &reference), score(&cand, &reference));
}

#[test]
fn leading_curdir_scores_alike_but_is_emitted_verbatim() {
    let reference = tokenize(&b("a/b"));
    assert_eq!(
        score(&tokenize(&b("./a/b")), &reference),
        score(&tokenize(&b("a/b")), &reference)
    );
    let out = reorder_all(vec![b("x.txt"), b("./a/b")], &b("a/b"));
    assert_eq!(out, vec![b("./a/b"), b("x.txt")]);
}

#[test]
fn empty_candidate_list_yields_empty_output() {
    assert_eq!(
        reorder_all(Vec::new(), &b("some/ref")),
        Vec::<Vec<u8>>::new()
    );
}

#[test]
fn extract_from_empty_ranking_signals_end() {
    let mut rk = Ranking::new();
    assert!(rk.extract_max().is_none());
    assert_eq!(rk.len(), 0);
}

#[test]
fn ranking_orders_by_score_then_input_position() {
    let mut rk = Ranking::new();
    rk.insert(Entry { score: -1, index: 0, path: b("low") });
    rk.insert(Entry { score: 3, index: 1, path: b("high") });
    rk.insert(Entry { score: 3, index: 2, path: b("high-later") });
    let first = rk.extract_max().unwrap();
    assert_eq!(first.path, b("high"));
    assert_eq!(first.score, 3);
    assert_eq!(rk.extract_max().unwrap().path, b("high-later"));
    assert_eq!(rk.extract_max().unwrap().path, b("low"));
    assert!(rk.extract_max().is_none());
}

#[test]
fn output_is_permutation_of_input() {
    let input = vec![b("x/y"), b("q"), b("x/y"), b("a/b/c"), b("")];
    let mut out = reorder_all(input.clone(), &b("x/y"));
    let mut expected = input;
    out.sort();
    expected.sort();
    assert_eq!(out, expected);
}

#[test]
fn same_score_group_emitted_alphabetically() {
    let out = reorder_secondary(vec![b("b/2.txt"), b("a/1.txt")], &b("null.txt"));
    assert_eq!(out, vec![b("a/1.txt"), b("b/2.txt")]);
}

#[test]
fn secondary_orders_groups_by_score_then_bytes() {
    let out = reorder_secondary(
        vec![b("z/ref"), b("b/2.txt"), b("a/1.txt"), b("ref")],
        &b("ref"),
    );
    // "ref" scores 1; the rest score below it; ties sort by bytes.
    assert_eq!(
        out,
        vec![b("ref"), b("a/1.txt"), b("b/2.txt"), b("z/ref")]
    );
}

#[test]
fn secondary_preserves_duplicate_paths() {
    let entries = vec![
        Entry { score: 0, index: 0, path: b("dup") },
        Entry { score: 0, index: 1, path: b("dup") },
        Entry { score: 0, index: 2, path: b("aaa") },
    ];
    let out = secondary_rank(entries);
    assert_eq!(out, vec![b("aaa"), b("dup"), b("dup")]);
}
