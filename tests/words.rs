use terminal::{get_coincidence, Error, Groups, Kind, Solver, Tree, Words};

fn corpus(words: &[&str]) -> Words {
    let list: Vec<String> = words.iter().map(|w| w.to_string()).collect();
    Words::from_iter(&list).unwrap()
}

fn word_at(tree: &Tree, node: usize) -> Option<String> {
    match tree.kind(node) {
        Kind::Word(w) => Some(w.clone()),
        _ => None,
    }
}

fn count_at(tree: &Tree, node: usize) -> Option<usize> {
    match tree.kind(node) {
        Kind::Feedback(c) => Some(*c),
        _ => None,
    }
}

/// Labels and costs of the whole subtree, depth first.
fn shape(tree: &Tree, node: usize, out: &mut Vec<(String, usize, usize)>) {
    let label = match tree.kind(node) {
        Kind::Root => "root".to_string(),
        Kind::Word(w) => format!("word {}", w),
        Kind::Feedback(c) => format!("count {}", c),
    };
    out.push((label, tree.cost(node), tree.children(node).len()));
    for &c in tree.children(node) {
        shape(tree, c, out);
    }
}

#[test]
fn test_compute_intersections() {
    let words = [
        "truly", "spare", "feral", "sixty", "whole", "james", "wakes",
    ];
    let words = corpus(&words);
    let tree = words.build_tree();
    let answer = tree.answer();
    assert_eq!(answer.len(), 7);
    assert_eq!(answer[0].0, "truly");
}

#[test]
fn example_match_counts_and_first_row() {
    assert_eq!(get_coincidence("abcd", "abce"), 3);
    assert_eq!(get_coincidence("abcd", "wxyz"), 0);
    assert_eq!(get_coincidence("abce", "wxyz"), 0);
    let words = corpus(&["abcd", "abce", "wxyz"]);
    let row = words.intersections().row(0);
    assert_eq!(row, vec![-1, 3, 0]);
    let mut groups = row.groups();
    groups.remove(&-1);
    assert_eq!(groups.groups(), &vec![(3, vec![1]), (0, vec![2])]);
}

#[test]
fn example_guessing_first_word_costs_one() {
    let words = corpus(&["abcd", "abce", "wxyz"]);
    let tree = words.build_tree();
    let root = tree.root_index();
    let first = tree.children(root)[0];
    assert_eq!(word_at(&tree, first), Some("abcd".to_string()));
    assert_eq!(tree.cost(first), 1);
    let counts: Vec<Option<usize>> = tree.children(first).iter().map(|&c| count_at(&tree, c)).collect();
    assert_eq!(counts, vec![Some(3), Some(0)]);
    for &c in tree.children(first) {
        assert_eq!(tree.children(c).len(), 1);
        assert_eq!(tree.cost(c), 0);
    }
}

#[test]
fn example_fresh_candidates() {
    let solver = Solver::new(vec!["abcd".to_string(), "abce".to_string(), "wxyz".to_string()], vec![]).unwrap();
    let answer = solver.answer();
    assert!(answer.contains(&("abcd".to_string(), 1)));
    assert!(answer.contains(&("abce".to_string(), 1)));
    // "wxyz" matches both other words nowhere: they stay together, and
    // telling them apart takes one more guess
    assert!(answer.contains(&("wxyz".to_string(), 2)));
    assert_eq!(answer.len(), 3);
}

#[test]
fn unequal_lengths_are_rejected() {
    let r = Words::from_iter(&vec!["ab".to_string(), "abc".to_string()]);
    assert!(matches!(r, Err(Error::UnequalLength)));
}

#[test]
fn empty_corpus_is_rejected() {
    let r = Words::from_iter(&vec![]);
    assert!(matches!(r, Err(Error::EmptyCorpus)));
    let r = Words::from_iter(&vec!["".to_string(), "".to_string()]);
    assert!(matches!(r, Err(Error::EmptyCorpus)));
}

#[test]
fn empty_words_are_dropped() {
    let words = Words::from_iter(&vec!["".to_string(), "ab".to_string(), "cd".to_string()]).unwrap();
    assert_eq!(words.words(), &vec!["ab".to_string(), "cd".to_string()]);
    assert_eq!(words.word(1), Some("cd"));
    assert_eq!(words.word(2), None);
}

#[test]
fn absent_word_leaves_cursor_unmoved() {
    let words = corpus(&["abcd", "abce", "wxyz"]);
    let mut tree = words.build_tree();
    let before = tree.cursor_index();
    let r = tree.next(&("zzzz".to_string(), 0));
    assert_eq!(r, Err(Error::NoMatchingChild));
    assert_eq!(tree.cursor_index(), before);
    assert_eq!(tree.answer().len(), 3);
}

#[test]
fn infeasible_count_leaves_cursor_unmoved() {
    let mut solver = Solver::new(vec!["abcd".to_string(), "abce".to_string(), "wxyz".to_string()], vec![]).unwrap();
    let r = solver.next_answer(&("abcd".to_string(), 2));
    assert_eq!(r, Err(Error::NoMatchingChild));
    assert_eq!(solver.answer().len(), 3);
}

#[test]
fn solver_replays_guesses() {
    let words = vec!["abcd".to_string(), "abce".to_string(), "wxyz".to_string()];
    let solver = Solver::new(words.clone(), vec![("abcd".to_string(), 3)]).unwrap();
    assert_eq!(solver.answer(), vec![("abce".to_string(), 0)]);
    let r = Solver::new(words, vec![("abcd".to_string(), 1)]);
    assert!(matches!(r, Err(Error::NoMatchingChild)));
}

#[test]
fn one_step_then_the_other() {
    let words = corpus(&["abcd", "abce", "wxyz"]);
    let mut tree = words.build_tree();
    assert_eq!(tree.next(&("wxyz".to_string(), 0)), Ok(()));
    // on a guessed word there are no candidates
    assert_eq!(tree.answer(), vec![]);
    assert_eq!(tree.next(&("ignored".to_string(), 0)), Ok(()));
    assert_eq!(tree.answer(), vec![("abcd".to_string(), 1), ("abce".to_string(), 1)]);
}

#[test]
fn root_has_one_word_child_per_corpus_word() {
    let list = ["truly", "spare", "feral", "sixty", "whole"];
    let words = corpus(&list);
    let tree = words.build_tree();
    let kids = tree.children(tree.root_index());
    assert_eq!(kids.len(), list.len());
    for (k, &c) in kids.iter().enumerate() {
        assert_eq!(word_at(&tree, c), Some(list[k].to_string()));
    }
}

#[test]
fn single_word_corpus_is_a_leaf() {
    let words = corpus(&["abc"]);
    let tree = words.build_tree();
    let kids = tree.children(tree.root_index());
    assert_eq!(kids.len(), 1);
    assert_eq!(tree.cost(kids[0]), 0);
    assert!(tree.children(kids[0]).is_empty());
    assert_eq!(tree.answer(), vec![("abc".to_string(), 0)]);
}

fn check_word_costs(tree: &Tree, node: usize) {
    let kids = tree.children(node).clone();
    if word_at(tree, node).is_some() {
        let expected = kids.iter().map(|&c| tree.cost(c) + 1).max().unwrap_or(0);
        assert_eq!(tree.cost(node), expected);
    }
    for c in kids {
        check_word_costs(tree, c);
    }
}

#[test]
fn word_cost_is_one_more_than_worst_feedback() {
    let words = corpus(&["cart", "care", "dare", "dart", "mare", "mild"]);
    let tree = words.build_tree();
    check_word_costs(&tree, tree.root_index());
}

#[test]
fn rebuilding_gives_the_same_tree() {
    let words = corpus(&["cart", "care", "dare", "dart", "mild"]);
    let (mut a, mut b) = (Vec::new(), Vec::new());
    let t1 = words.build_tree();
    let t2 = words.build_tree();
    shape(&t1, t1.root_index(), &mut a);
    shape(&t2, t2.root_index(), &mut b);
    assert_eq!(a, b);
    let other = corpus(&["cart", "care", "dare", "dart", "mild"]);
    let mut c = Vec::new();
    let t3 = other.build_tree();
    shape(&t3, t3.root_index(), &mut c);
    assert_eq!(a, c);
}

#[test]
fn turn_keeps_only_consistent_words() {
    let list = ["cart", "care", "dare", "dart", "mare", "mild"];
    let words = corpus(&list);
    let mut tree = words.build_tree();
    let before: Vec<String> = tree.answer().into_iter().map(|(w, _)| w).collect();
    let after = tree.next_answer(&("care".to_string(), 3)).unwrap();
    let expected: Vec<String> = list
        .iter()
        .filter(|w| **w != "care" && get_coincidence("care", w) == 3)
        .map(|w| w.to_string())
        .collect();
    let got: Vec<String> = after.iter().map(|(w, _)| w.clone()).collect();
    assert_eq!(got, expected);
    for w in &got {
        assert!(before.contains(w));
    }
    assert_eq!(got, vec!["cart".to_string(), "dare".to_string(), "mare".to_string()]);
}
