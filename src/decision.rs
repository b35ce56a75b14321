use vstd::prelude::*;

use crate::tree::{
    advance, candidate_list, candidates, lemma_max_cost, lemma_step, max_cost, step, step_index,
    DecisionTree, Label,
};
use crate::utils::{
    coincidence, lemma_coincidence, lemma_partition, lemma_positions_of, partition, positions_of,
    without_key,
};

verus! {

/// The words of a list that are not empty, in order.
pub open spec fn kept_words(words: Seq<String>) -> Seq<Seq<char>> {
    words.map_values(|s: String| s@).filter(|w: Seq<char>| w.len() > 0)
}

/// All words have the length of the first.
pub open spec fn equal_lengths(words: Seq<Seq<char>>) -> bool {
    forall|i: int| 0 <= i < words.len() ==> #[trigger] words[i].len() == words[0].len()
}

/// A usable corpus: at least one word, all of one length greater than zero.
pub open spec fn valid_corpus(words: Seq<Seq<char>>) -> bool {
    &&& words.len() > 0
    &&& words[0].len() > 0
    &&& equal_lengths(words)
}

/// The coincidence matrix entry for words `i` and `j`: their match count, or
/// -1 on the diagonal.
pub open spec fn match_entry(words: Seq<Seq<char>>, i: int, j: int) -> int {
    if i == j {
        -1
    } else {
        coincidence(words[i], words[j]) as int
    }
}

/// The match-count row of the word at position `p` of the sub-corpus `sub`
/// (positions into `words`) against each word of `sub`.
pub open spec fn row_of(words: Seq<Seq<char>>, sub: Seq<usize>, p: int) -> Seq<i32> {
    row_for(words, sub, sub[p] as int)
}

/// The coincidence matrix entries of corpus word `w` against each word of
/// `sub`.
pub open spec fn row_for(words: Seq<Seq<char>>, sub: Seq<usize>, w: int) -> Seq<i32> {
    Seq::new(sub.len(), |q: int| match_entry(words, w, sub[q] as int) as i32)
}

/// Holds of the corpus words, other than `w`, that have match count `m`
/// with `w`: the words still possible after guessing `w` and receiving `m`.
pub open spec fn still_possible(words: Seq<Seq<char>>, w: usize, m: nat) -> spec_fn(usize) -> bool {
    |x: usize| x != w && coincidence(words[w as int], words[x as int]) == m
}

/// The groups that guessing the word at position `p` of `sub` splits the
/// rest of `sub` into: each match count with the positions in `sub` that
/// produce it, in order of first appearance. The guessed word itself is left
/// out.
pub open spec fn feedback_groups(words: Seq<Seq<char>>, sub: Seq<usize>, p: int) -> Seq<(i32, Seq<usize>)> {
    without_key(partition(row_of(words, sub, p)), -1i32)
}

/// The words of `sub` at the given positions.
pub open spec fn members_of(sub: Seq<usize>, positions: Seq<usize>) -> Seq<usize> {
    positions.map_values(|q: usize| sub[q as int])
}

/// One tree per word of the sub-corpus `sub`: what follows guessing it.
pub open spec fn word_forest(words: Seq<Seq<char>>, sub: Seq<usize>) -> Seq<DecisionTree>
    decreases sub.len(), 2int,
{
    Seq::new(sub.len(), |p: int| word_tree(words, sub, p))
}

/// The tree for guessing the word at position `p` of `sub`: one feedback
/// child per match count the other words produce, costing one guess more
/// than the worst of them.
pub open spec fn word_tree(words: Seq<Seq<char>>, sub: Seq<usize>, p: int) -> DecisionTree
    decreases sub.len(), 1int,
{
    let groups = feedback_groups(words, sub, p);
    let children = Seq::new(groups.len(), |j: int| feedback_tree(words, sub, groups[j]));
    DecisionTree { label: Label::Word(words[sub[p] as int]), cost: max_cost(children, 1), children }
}

/// The tree for receiving the match count of group `g` of `sub`: the words
/// of the group to guess next, costing as much as the worst of them. A group
/// never holds the guessed word, so it is always smaller than `sub`.
pub open spec fn feedback_tree(words: Seq<Seq<char>>, sub: Seq<usize>, g: (i32, Seq<usize>)) -> DecisionTree
    decreases sub.len(), 0int,
{
    let members = members_of(sub, g.1);
    let below = if members.len() < sub.len() {
        word_forest(words, members)
    } else {
        Seq::empty()
    };
    DecisionTree { label: Label::Feedback(g.0 as nat), cost: max_cost(below, 0), children: below }
}

/// The positions `0..n`.
pub open spec fn all_positions(n: nat) -> Seq<usize> {
    Seq::new(n, |i: int| i as usize)
}

/// The complete decision tree of a corpus: under the root, one tree per
/// word of the corpus.
pub open spec fn decision_tree(words: Seq<Seq<char>>) -> DecisionTree {
    let children = word_forest(words, all_positions(words.len()));
    DecisionTree { label: Label::Root, cost: max_cost(children, 0), children }
}

/// Positions into a corpus of `n` words.
pub open spec fn valid_sub(sub: Seq<usize>, n: nat) -> bool {
    forall|q: int| 0 <= q < sub.len() ==> #[trigger] sub[q] < n
}

/// The groups of `feedback_groups`: each key is a match count (not the
/// sentinel), each group lists, in ascending order, exactly the positions of
/// the other words of `sub` with that count, and is never empty nor as long
/// as `sub`.
pub proof fn lemma_feedback_groups(words: Seq<Seq<char>>, sub: Seq<usize>, p: int)
    requires
        valid_corpus(words),
        words[0].len() <= i32::MAX,
        valid_sub(sub, words.len()),
        sub.len() <= usize::MAX,
        0 <= p < sub.len(),
    ensures
        forall|j: int|
            0 <= j < feedback_groups(words, sub, p).len() ==> {
                let g = #[trigger] feedback_groups(words, sub, p)[j];
                &&& 0 <= g.0
                &&& g.1 == positions_of(row_of(words, sub, p), g.0)
                &&& 0 < g.1.len() < sub.len()
                &&& forall|t: int| 0 <= t < g.1.len() ==> #[trigger] g.1[t] < sub.len()
            },
{
    let row = row_of(words, sub, p);
    let parts = partition(row);
    lemma_partition(row);
    assert forall|q: int| 0 <= q < row.len() implies -1 <= #[trigger] row[q] <= i32::MAX by {
        if sub[p] != sub[q] {
            lemma_coincidence(words[sub[p] as int], words[sub[q] as int]);
        }
    }
    assert forall|j: int| 0 <= j < feedback_groups(words, sub, p).len() implies {
        let g = #[trigger] feedback_groups(words, sub, p)[j];
        &&& 0 <= g.0
        &&& g.1 == positions_of(row, g.0)
        &&& 0 < g.1.len() < sub.len()
        &&& forall|t: int| 0 <= t < g.1.len() ==> #[trigger] g.1[t] < sub.len()
    } by {
        let gs = feedback_groups(words, sub, p);
        let g = gs[j];
        parts.lemma_filter_pred(crate::utils::keyed_otherwise(-1i32), j);
        assert(gs.contains(g));
        parts.lemma_filter_contains_rev(crate::utils::keyed_otherwise(-1i32), g);
        let jj = choose|jj: int| 0 <= jj < parts.len() && parts[jj] == g;
        assert(parts[jj].1 == positions_of(row, parts[jj].0));
        lemma_positions_of(row, g.0);
        assert(row[p] == -1i32);
        let q0 = g.1[0] as int;
        assert(row[q0] == g.0);
    }
}

/// The root has one word child per corpus word, in corpus order.
pub proof fn lemma_root_children(words: Seq<Seq<char>>)
    requires
        words.len() <= usize::MAX,
    ensures
        decision_tree(words).label == Label::Root,
        decision_tree(words).children.len() == words.len(),
        forall|p: int|
            0 <= p < words.len() ==> (#[trigger] decision_tree(words).children[p]).label == Label::Word(
                words[p],
            ),
{
    let all = all_positions(words.len());
    assert forall|p: int| 0 <= p < words.len() implies (#[trigger] decision_tree(words).children[p]).label
        == Label::Word(words[p]) by {
        assert(decision_tree(words).children[p] == word_tree(words, all, p));
        assert(all[p] as int == p);
    }
}

/// Guessing the only word of a one-word sub-corpus ends the game: the word
/// node costs nothing and has no children.
pub proof fn lemma_single_word(words: Seq<Seq<char>>, x: usize)
    requires
        x < words.len(),
    ensures
        word_tree(words, seq![x], 0).label == Label::Word(words[x as int]),
        word_tree(words, seq![x], 0).cost == 0,
        word_tree(words, seq![x], 0).children.len() == 0,
{
    let sub = seq![x];
    let row = row_of(words, sub, 0);
    assert(row =~= seq![-1i32]);
    assert(row.drop_last() =~= Seq::<i32>::empty());
    let parts = partition(row);
    assert(partition(row.drop_last()) == Seq::<(i32, Seq<usize>)>::empty());
    assert(crate::utils::key_index(Seq::<(i32, Seq<usize>)>::empty(), -1i32) == 0);
    assert(parts.len() == 1);
    assert(parts[0].0 == -1i32);
    assert(feedback_groups(words, sub, 0).len() == 0) by {
        reveal(Seq::filter);
        assert(parts.drop_last() =~= Seq::<(i32, Seq<usize>)>::empty());
        assert(parts.drop_last().filter(crate::utils::keyed_otherwise(-1i32)).len() == 0);
    }
}

/// A word node costs one guess more than its worst feedback child, and
/// nothing when it has no children.
pub proof fn lemma_word_cost(words: Seq<Seq<char>>, sub: Seq<usize>, p: int)
    ensures
        word_tree(words, sub, p).children.len() == 0 ==> word_tree(words, sub, p).cost == 0,
        forall|k: int|
            0 <= k < word_tree(words, sub, p).children.len() ==> word_tree(words, sub, p).cost >= (
            #[trigger] word_tree(words, sub, p).children[k]).cost + 1,
        word_tree(words, sub, p).children.len() > 0 ==> exists|k: int|
            0 <= k < word_tree(words, sub, p).children.len() && word_tree(words, sub, p).cost == (
            #[trigger] word_tree(words, sub, p).children[k]).cost + 1,
{
    lemma_max_cost(word_tree(words, sub, p).children, 1);
}

/// The candidates below a run of word nodes: their words and costs, in order.
pub proof fn lemma_word_candidates(ts: Seq<DecisionTree>)
    requires
        forall|k: int| 0 <= k < ts.len() ==> (#[trigger] ts[k]).label is Word,
    ensures
        candidate_list(ts).len() == ts.len(),
        forall|k: int|
            0 <= k < ts.len() ==> #[trigger] candidate_list(ts)[k] == (
            ts[k].label->Word_0,
            ts[k].cost,
        ),
    decreases ts.len(),
{
    if ts.len() > 0 {
        let t0 = ts.drop_last();
        lemma_word_candidates(t0);
        assert forall|k: int| 0 <= k < ts.len() implies #[trigger] candidate_list(ts)[k] == (
            ts[k].label->Word_0,
            ts[k].cost,
        ) by {
            if k < ts.len() - 1 {
                assert(t0[k] == ts[k]);
            }
        }
    }
}

/// The members of the group keyed `key` in the row of corpus word `w` are
/// the words of `sub` still possible after guessing `w` and receiving `key`.
proof fn lemma_members_filter(words: Seq<Seq<char>>, sub: Seq<usize>, w: usize, key: i32)
    requires
        valid_corpus(words),
        words[0].len() <= i32::MAX,
        valid_sub(sub, words.len()),
        sub.len() <= usize::MAX,
        w < words.len(),
        0 <= key,
    ensures
        members_of(sub, positions_of(row_for(words, sub, w as int), key)) == sub.filter(
            still_possible(words, w, key as nat),
        ),
    decreases sub.len(),
{
    let pred = still_possible(words, w, key as nat);
    let row = row_for(words, sub, w as int);
    if sub.len() == 0 {
        reveal(Seq::filter);
        assert(members_of(sub, positions_of(row, key)) =~= sub.filter(pred));
    } else {
        let s0 = sub.drop_last();
        let x = sub.last();
        lemma_members_filter(words, s0, w, key);
        assert(row_for(words, s0, w as int) =~= row.drop_last());
        let prev = positions_of(row.drop_last(), key);
        lemma_positions_of(row.drop_last(), key);
        assert(members_of(sub, prev) =~= members_of(s0, prev)) by {
            assert forall|t: int| 0 <= t < prev.len() implies #[trigger] sub[prev[t] as int] == s0[prev[t] as int] by {
                assert(prev[t] < s0.len());
            }
        }
        assert(sub.filter(pred) == if pred(x) {
            s0.filter(pred).push(x)
        } else {
            s0.filter(pred)
        }) by {
            reveal(Seq::filter);
        }
        lemma_coincidence(words[w as int], words[x as int]);
        assert(row.last() == key <==> pred(x));
        assert(members_of(sub, positions_of(row, key)) =~= sub.filter(pred));
    }
}

/// One turn from a node offering the words of `sub`: the guessed word then
/// the received match count lead to a match-count node whose words to guess
/// next are exactly the words of `sub`, other than the guessed one, that
/// have that match count with it, in order.
pub proof fn lemma_turn(words: Seq<Seq<char>>, node: DecisionTree, sub: Seq<usize>, word: Seq<char>, m: nat)
    requires
        valid_corpus(words),
        words[0].len() <= i32::MAX,
        valid_sub(sub, words.len()),
        sub.len() <= usize::MAX,
        !(node.label is Word),
        node.children == word_forest(words, sub),
    ensures
        advance(node, word, m) matches Some(t) ==> {
            &&& t.label == Label::Feedback(m)
            &&& exists|i: int|
                {
                    &&& 0 <= i < sub.len()
                    &&& #[trigger] words[sub[i] as int] == word
                    &&& t.children == word_forest(words, sub.filter(still_possible(words, sub[i], m)))
                    &&& candidates(t).len() == sub.filter(still_possible(words, sub[i], m)).len()
                    &&& forall|k: int|
                        0 <= k < candidates(t).len() ==> (#[trigger] candidates(t)[k]).0
                            == words[sub.filter(still_possible(words, sub[i], m))[k] as int]
                }
        },
{
    lemma_step(node, word, m);
    if let Some(u) = step(node, word, m) {
        let i = step_index(node, word, m, node.children.len() as int);
        assert(u == word_tree(words, sub, i));
        lemma_step(u, word, m);
        if let Some(t) = step(u, word, m) {
            let j = step_index(u, word, m, u.children.len() as int);
            let gs = feedback_groups(words, sub, i);
            lemma_feedback_groups(words, sub, i);
            let g = gs[j];
            assert(t == feedback_tree(words, sub, g));
            assert(g.0 as nat == m);
            lemma_members_filter(words, sub, sub[i], g.0);
            let rest = sub.filter(still_possible(words, sub[i], m));
            assert(t.children == word_forest(words, rest));
            lemma_word_candidates(t.children);
            assert(words[sub[i] as int] == word);
        }
    }
}

} // verus!
