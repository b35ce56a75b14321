use vstd::prelude::*;

use crate::error::Error;
use crate::matrix::Matrix;
use crate::decision::{
    all_positions, decision_tree, equal_lengths, feedback_groups, feedback_tree, kept_words,
    lemma_feedback_groups, match_entry, members_of, row_of, valid_corpus, valid_sub, word_forest,
    word_tree,
};
use crate::tree::{
    arena_wf, extends, label_of, lemma_subtree, lemma_subtrees_extend, max_cost, subtree, subtrees,
    Label, Node, Tree,
};
use crate::utils::{chars_of, coincidence, get_coincidence, groups_view, lemma_coincidence, GroupsStruct};

verus! {

/// A list of equal-length words with the match count of every pair.
pub struct Words {
    words: Vec<String>,
    // matrix with number of intersections between words
    intersections: Matrix<i32>,
}

impl View for Words {
    type V = Seq<Seq<char>>;

    closed spec fn view(&self) -> Seq<Seq<char>> {
        self.words@.map_values(|s: String| s@)
    }
}

impl Words {
    #[verifier::type_invariant]
    spec fn well_formed(&self) -> bool {
        let n = self.words@.len();
        &&& valid_corpus(self@)
        &&& self@[0].len() <= i32::MAX
        &&& self.intersections.rows() == n
        &&& self.intersections.cols() == n
        &&& n * n <= usize::MAX
        &&& forall|i: int, j: int|
            0 <= i < n && 0 <= j < n ==> #[trigger] self.intersections.at(i, j) == match_entry(
                self@,
                i,
                j,
            )
    }

    /// Create a corpus from a list of words, dropping the empty ones.
    /// Fails with `EmptyCorpus` when no word is left and with `UnequalLength`
    /// when the words left differ in length.
    pub fn from_iter(words: &Vec<String>) -> (r: Result<Words, Error>)
        requires
            words@.len() * words@.len() <= usize::MAX,
            forall|i: int| 0 <= i < words@.len() ==> (#[trigger] words@[i])@.len() <= i32::MAX,
        ensures
            r is Err && r->Err_0 == Error::EmptyCorpus <==> kept_words(words@).len() == 0,
            r is Err && r->Err_0 == Error::UnequalLength <==> kept_words(words@).len() > 0
                && !equal_lengths(kept_words(words@)),
            r matches Ok(c) ==> c@ == kept_words(words@),
            r is Err ==> r->Err_0 == Error::EmptyCorpus || r->Err_0 == Error::UnequalLength,
    {
        let ghost views = words@.map_values(|s: String| s@);
        let ghost keep = |w: Seq<char>| w.len() > 0;
        let mut kept: Vec<String> = Vec::new();
        let mut lens: Vec<usize> = Vec::new();
        let n = words.len();
        for i in 0..n
            invariant
                n == words@.len(),
                views == words@.map_values(|s: String| s@),
                keep == (|w: Seq<char>| w.len() > 0),
                kept@.map_values(|s: String| s@) == views.take(i as int).filter(keep),
                lens@.len() == kept@.len(),
                forall|k: int| 0 <= k < kept@.len() ==> lens@[k] == (#[trigger] kept@[k])@.len(),
                forall|k: int| 0 <= k < kept@.len() ==> (#[trigger] kept@[k])@.len() <= i32::MAX,
                forall|k: int| 0 <= k < kept@.len() ==> (#[trigger] kept@[k])@.len() > 0,
                forall|k: int| 0 <= k < n ==> (#[trigger] words@[k])@.len() <= i32::MAX,
                kept@.len() <= i,
        {
            let chars = chars_of(words[i].as_str());
            let ghost before = kept@.map_values(|s: String| s@);
            proof {
                assert(views.take(i as int + 1).filter(keep) == if keep(views[i as int]) {
                    views.take(i as int).filter(keep).push(views[i as int])
                } else {
                    views.take(i as int).filter(keep)
                }) by {
                    reveal(Seq::filter);
                    assert(views.take(i as int + 1).drop_last() =~= views.take(i as int));
                }
            }
            if chars.len() > 0 {
                kept.push(words[i].clone());
                lens.push(chars.len());
                assert(kept@.map_values(|s: String| s@) =~= before.push(views[i as int]));
            }
        }
        assert(views.take(n as int) =~= views);
        let ghost ws = kept@.map_values(|s: String| s@);
        assert(ws == kept_words(words@));
        if let Err(e) = Self::check_words(&lens) {
            proof {
                if e == Error::UnequalLength {
                    let t = choose|t: int| 0 <= t < lens@.len() && #[trigger] lens@[t] != lens@[0];
                    assert(ws[t].len() != ws[0].len());
                }
            }
            return Err(e);
        }
        assert(forall|t: int| 0 <= t < lens@.len() ==> #[trigger] lens@[t] == lens@[0]);
        assert(equal_lengths(ws));
        proof {
            let kn = kept@.len();
            assert(kn * kn <= n * n) by (nonlinear_arith)
                requires
                    kn <= n,
            ;
            assert(ws[0].len() <= i32::MAX);
        }
        let intersections = Self::compute_intersections(&kept);
        Ok(Words { words: kept, intersections })
    }

    /// Build the complete decision tree of the corpus, with the cursor on its
    /// root.
    pub fn build_tree(&self) -> (t: Tree)
        ensures
            t.root_tree() == decision_tree(self@),
            t.cursor_tree() == t.root_tree(),
    {
        proof {
            use_type_invariant(self);
        }
        let n = self.words.len();
        let mut all: Vec<usize> = Vec::new();
        for i in 0..n
            invariant
                all@ == all_positions(i as nat),
        {
            all.push(i);
            assert(all@ =~= all_positions(i as nat + 1));
        }
        let mut nodes: Vec<Node> = Vec::new();
        let children = self.build_children(&all, &mut nodes);
        let mut root = Node::new_root();
        root.set_children(&children, &nodes);
        let index = nodes.len();
        let ghost before = nodes@;
        nodes.push(root);
        proof {
            lemma_subtrees_extend(before, nodes@, children@);
            lemma_subtree(nodes@, index as int);
        }
        Tree::new(nodes, index)
    }

    /// Append to the arena the trees of `word_forest(self@, sub@)` and return
    /// their positions.
    fn build_children(&self, sub: &Vec<usize>, nodes: &mut Vec<Node>) -> (r: Vec<usize>)
        requires
            arena_wf(old(nodes)@),
            valid_sub(sub@, self@.len()),
        ensures
            arena_wf(final(nodes)@),
            extends(final(nodes)@, old(nodes)@),
            forall|k: int| 0 <= k < r@.len() ==> #[trigger] r@[k] < final(nodes)@.len(),
            subtrees(final(nodes)@, r@) == word_forest(self@, sub@),
        decreases sub@.len(), 2int,
    {
        let n_sub = sub.len();
        let mut r: Vec<usize> = Vec::new();
        for p in 0..n_sub
            invariant
                n_sub == sub@.len(),
                valid_sub(sub@, self@.len()),
                arena_wf(nodes@),
                extends(nodes@, old(nodes)@),
                r@.len() == p,
                forall|k: int| 0 <= k < r@.len() ==> #[trigger] r@[k] < nodes@.len(),
                subtrees(nodes@, r@) == word_forest(self@, sub@).take(p as int),
        {
            let ghost before = nodes@;
            let index = self.build_word(sub, p, nodes);
            proof {
                lemma_subtrees_extend(before, nodes@, r@);
            }
            let ghost old_r = r@;
            r.push(index);
            assert(word_forest(self@, sub@)[p as int] == word_tree(self@, sub@, p as int));
            assert(r@[p as int] == index);
            assert forall|k: int| 0 <= k < p implies #[trigger] subtrees(nodes@, r@)[k] == subtrees(nodes@, old_r)[k] by {
                assert(r@[k] == old_r[k]);
            }
            assert(subtrees(nodes@, r@) =~= word_forest(self@, sub@).take(p as int + 1));
        }
        assert(word_forest(self@, sub@).take(n_sub as int) =~= word_forest(self@, sub@));
        r
    }

    /// Append to the arena the tree of `word_tree(self@, sub@, p)` and
    /// return its position.
    fn build_word(&self, sub: &Vec<usize>, p: usize, nodes: &mut Vec<Node>) -> (r: usize)
        requires
            arena_wf(old(nodes)@),
            valid_sub(sub@, self@.len()),
            p < sub@.len(),
        ensures
            arena_wf(final(nodes)@),
            extends(final(nodes)@, old(nodes)@),
            r < final(nodes)@.len(),
            subtree(final(nodes)@, r as int) == word_tree(self@, sub@, p as int),
        decreases sub@.len(), 1int,
    {
        broadcast use vstd::laws_eq::group_laws_eq;

        proof {
            use_type_invariant(self);
        }
        let n_sub = sub.len();
        let w = sub[p];
        // match counts of the guessed word against the sub-corpus
        let mut row: Vec<i32> = Vec::new();
        for q in 0..n_sub
            invariant
                n_sub == sub@.len(),
                valid_sub(sub@, self@.len()),
                w == sub@[p as int],
                p < n_sub,
                self.intersections.rows() == self@.len(),
                self.intersections.cols() == self@.len(),
                forall|i: int, j: int|
                    0 <= i < self@.len() && 0 <= j < self@.len() ==> #[trigger] self.intersections.at(i, j)
                        == match_entry(self@, i, j),
                row@ == row_of(self@, sub@, p as int).take(q as int),
        {
            row.push(self.intersections.get(w, sub[q]));
            assert(row@ =~= row_of(self@, sub@, p as int).take(q as int + 1));
        }
        assert(row@ =~= row_of(self@, sub@, p as int));
        // group the other words by match count; the guessed word is the
        // only one with the sentinel
        let mut groups = GroupsStruct::new(row.as_slice());
        groups.remove(&-1i32);
        let gs = groups.groups();
        let ghost fgs = feedback_groups(self@, sub@, p as int);
        assert(groups_view(gs@) == fgs);
        proof {
            lemma_feedback_groups(self@, sub@, p as int);
        }
        let ghost wt = word_tree(self@, sub@, p as int);
        let mut word_node = Node::new_word(self.words[w].clone());
        let ng = gs.len();
        for j in 0..ng
            invariant
                ng == fgs.len(),
                groups_view(gs@) == fgs,
                fgs == feedback_groups(self@, sub@, p as int),
                wt == word_tree(self@, sub@, p as int),
                valid_sub(sub@, self@.len()),
                p < sub@.len(),
                forall|jj: int|
                    0 <= jj < fgs.len() ==> {
                        let g = #[trigger] fgs[jj];
                        &&& 0 <= g.0
                        &&& 0 < g.1.len() < sub@.len()
                        &&& forall|t: int| 0 <= t < g.1.len() ==> #[trigger] g.1[t] < sub@.len()
                    },
                arena_wf(nodes@),
                extends(nodes@, old(nodes)@),
                label_of(word_node.kind) == Label::Word(self@[w as int]),
                word_node.kind is Word,
                word_node.cost <= nodes@.len(),
                forall|k: int|
                    0 <= k < word_node.children@.len() ==> #[trigger] word_node.children@[k] < nodes@.len(),
                subtrees(nodes@, word_node.children@) == wt.children.take(j as int),
                word_node.cost == max_cost(wt.children.take(j as int), 1),
        {
            let ghost before = nodes@;
            let index = self.build_feedback(sub, gs[j].0, &gs[j].1, nodes);
            proof {
                lemma_subtrees_extend(before, nodes@, word_node.children@);
                assert(wt.children[j as int] == feedback_tree(self@, sub@, fgs[j as int]));
                assert(wt.children.take(j as int + 1).drop_last() =~= wt.children.take(j as int));
            }
            let _len = nodes.len();
            word_node.append_child(index, nodes[index].cost);
            assert(subtrees(nodes@, word_node.children@) =~= wt.children.take(j as int + 1));
        }
        assert(wt.children.take(ng as int) =~= wt.children);
        let index = nodes.len();
        let ghost before = nodes@;
        nodes.push(word_node);
        proof {
            lemma_subtrees_extend(before, nodes@, word_node.children@);
            lemma_subtree(nodes@, index as int);
        }
        index
    }

    /// Append to the arena the tree of `feedback_tree(self@, sub@, (key,
    /// positions@))` and return its position.
    fn build_feedback(&self, sub: &Vec<usize>, key: i32, positions: &Vec<usize>, nodes: &mut Vec<Node>) -> (r: usize)
        requires
            arena_wf(old(nodes)@),
            valid_sub(sub@, self@.len()),
            0 <= key,
            positions@.len() < sub@.len(),
            forall|t: int| 0 <= t < positions@.len() ==> #[trigger] positions@[t] < sub@.len(),
        ensures
            arena_wf(final(nodes)@),
            extends(final(nodes)@, old(nodes)@),
            r < final(nodes)@.len(),
            subtree(final(nodes)@, r as int) == feedback_tree(self@, sub@, (key, positions@)),
        decreases sub@.len(), 0int,
    {
        let mut members: Vec<usize> = Vec::new();
        let np = positions.len();
        for t in 0..np
            invariant
                np == positions@.len(),
                forall|u: int| 0 <= u < positions@.len() ==> #[trigger] positions@[u] < sub@.len(),
                members@ == members_of(sub@, positions@).take(t as int),
        {
            members.push(sub[positions[t]]);
            assert(members@ =~= members_of(sub@, positions@).take(t as int + 1));
        }
        assert(members@ =~= members_of(sub@, positions@));
        let below = self.build_children(&members, nodes);
        let mut node = Node::new_intersection(key as usize);
        node.set_children(&below, nodes);
        let index = nodes.len();
        let ghost before = nodes@;
        nodes.push(node);
        proof {
            lemma_subtrees_extend(before, nodes@, below@);
            lemma_subtree(nodes@, index as int);
        }
        index
    }

    /// The words, in order.
    pub fn words(&self) -> (r: &Vec<String>)
        ensures
            r@.map_values(|s: String| s@) == self@,
    {
        &self.words
    }

    /// Word `i`, if there is one.
    pub fn word(&self, i: usize) -> (r: Option<&str>)
        ensures
            i < self@.len() ==> (r matches Some(w) && w@ == self@[i as int]),
            i >= self@.len() ==> r is None,
    {
        if i < self.words.len() {
            Some(self.words[i].as_str())
        } else {
            None
        }
    }

    /// The coincidence matrix: entry `(i, j)` is the match count of words
    /// `i` and `j`, and -1 on the diagonal.
    pub fn intersections(&self) -> (r: &Matrix<i32>)
        ensures
            r.rows() == self@.len(),
            r.cols() == self@.len(),
            forall|i: int, j: int|
                0 <= i < self@.len() && 0 <= j < self@.len() ==> #[trigger] r.at(i, j) == match_entry(
                    self@,
                    i,
                    j,
                ),
    {
        proof {
            use_type_invariant(self);
        }
        &self.intersections
    }

    /// Performs checks on words, given by their lengths: fails with
    /// `EmptyCorpus` when there is none and `UnequalLength` when they differ.
    fn check_words(lens: &Vec<usize>) -> (r: Result<(), Error>)
        ensures
            r == Err::<(), Error>(Error::EmptyCorpus) <==> lens@.len() == 0,
            r == Err::<(), Error>(Error::UnequalLength) <==> lens@.len() > 0 && exists|t: int|
                0 <= t < lens@.len() && #[trigger] lens@[t] != lens@[0],
            r is Err ==> r->Err_0 == Error::EmptyCorpus || r->Err_0 == Error::UnequalLength,
    {
        if lens.len() == 0 {
            return Err(Error::EmptyCorpus);
        }
        if !Self::is_equal_length(lens) {
            return Err(Error::UnequalLength);
        }
        Ok(())
    }

    /// Check if all lengths equal the first.
    fn is_equal_length(lens: &Vec<usize>) -> (r: bool)
        requires
            lens@.len() > 0,
        ensures
            r <==> forall|t: int| 0 <= t < lens@.len() ==> #[trigger] lens@[t] == lens@[0],
    {
        let length = lens[0];
        let mut k: usize = 0;
        while k < lens.len()
            invariant
                length == lens@[0],
                k <= lens@.len(),
                forall|t: int| 0 <= t < k ==> #[trigger] lens@[t] == lens@[0],
            decreases lens@.len() - k,
        {
            if lens[k] != length {
                return false;
            }
            k = k + 1;
        }
        true
    }

    /// The coincidence matrix of `words`: match counts off the diagonal,
    /// -1 on it.
    fn compute_intersections(words: &Vec<String>) -> (m: Matrix<i32>)
        requires
            words@.len() * words@.len() <= usize::MAX,
            forall|i: int| 0 <= i < words@.len() ==> (#[trigger] words@[i])@.len() <= i32::MAX,
        ensures
            m.rows() == words@.len(),
            m.cols() == words@.len(),
            forall|i: int, j: int|
                0 <= i < words@.len() && 0 <= j < words@.len() ==> #[trigger] m.at(i, j)
                    == match_entry(words@.map_values(|s: String| s@), i, j),
    {
        let n = words.len();
        let mut m = Matrix::new_with(n, n, -1i32);
        let f = |ij: (usize, usize)| -> (r: i32)
            requires
                ij.0 < words@.len(),
                ij.1 < words@.len(),
                forall|i: int| 0 <= i < words@.len() ==> (#[trigger] words@[i])@.len() <= i32::MAX,
            ensures
                r == coincidence(words@[ij.0 as int]@, words@[ij.1 as int]@),
            {
                let c = get_coincidence(words[ij.0].as_str(), words[ij.1].as_str());
                proof {
                    lemma_coincidence(words@[ij.0 as int]@, words@[ij.1 as int]@);
                }
                c as i32
            };
        m.fill_diag(f);
        proof {
            let ws = words@.map_values(|s: String| s@);
            assert forall|i: int, j: int| 0 <= i < n && 0 <= j < n implies #[trigger] m.at(i, j)
                == match_entry(ws, i, j) by {
                if j < i {
                    assert(f.ensures(((i as usize, j as usize),), m.at(i, j)));
                } else if i < j {
                    assert(f.ensures(((j as usize, i as usize),), m.at(j, i)));
                    lemma_coincidence(ws[i], ws[j]);
                }
            }
        }
        m
    }
}

/// Building twice from the same corpus gives the same tree.
pub proof fn lemma_rebuild_identical(a: &Words, b: &Words, t1: &Tree, t2: &Tree)
    requires
        a@ == b@,
        t1.root_tree() == decision_tree(a@),
        t2.root_tree() == decision_tree(b@),
    ensures
        t1.root_tree() == t2.root_tree(),
{
}

} // verus!
