use vstd::prelude::*;

use crate::error::Error;
use crate::tree::{advance, answer_view, candidates, Answer, DecisionTree, Guess, Tree};
use crate::decision::{decision_tree, equal_lengths, kept_words};
use crate::words::Words;

verus! {

/// Guesses as words and match counts.
pub open spec fn guesses_view(gs: Seq<(String, usize)>) -> Seq<(Seq<char>, nat)> {
    gs.map_values(|g: (String, usize)| (g.0@, g.1 as nat))
}

/// Where a sequence of guesses leads from `t`, each one advancing by the
/// guessed word and then its match count; `None` once a guess has nowhere to
/// go.
pub open spec fn walk(t: DecisionTree, gs: Seq<(Seq<char>, nat)>) -> Option<DecisionTree>
    decreases gs.len(),
{
    if gs.len() == 0 {
        Some(t)
    } else {
        match advance(t, gs[0].0, gs[0].1) {
            Some(u) => walk(u, gs.drop_first()),
            None => None,
        }
    }
}

/// A decision tree over a corpus with a cursor that follows the turns of a
/// game.
pub struct Solver {
    tree: Tree,
}

impl Solver {
    /// The whole decision tree.
    pub closed spec fn root_tree(&self) -> DecisionTree {
        self.tree.root_tree()
    }

    /// The part of the tree the game has reached.
    pub closed spec fn cursor_tree(&self) -> DecisionTree {
        self.tree.cursor_tree()
    }

    /// Build the decision tree of `words` (empty words dropped) and play the
    /// `guesses` on it, in order. Fails with `EmptyCorpus` or
    /// `UnequalLength` as a corpus of `words` would, and with
    /// `NoMatchingChild` when a guess has nowhere to go.
    pub fn new(words: Vec<String>, guesses: Vec<Guess>) -> (r: Result<Self, Error>)
        requires
            words@.len() * words@.len() <= usize::MAX,
            forall|i: int| 0 <= i < words@.len() ==> (#[trigger] words@[i])@.len() <= i32::MAX,
        ensures
            r is Err && r->Err_0 == Error::EmptyCorpus <==> kept_words(words@).len() == 0,
            r is Err && r->Err_0 == Error::UnequalLength <==> kept_words(words@).len() > 0
                && !equal_lengths(kept_words(words@)),
            kept_words(words@).len() > 0 && equal_lengths(kept_words(words@)) ==> {
                &&& r is Err <==> walk(decision_tree(kept_words(words@)), guesses_view(guesses@)) is None
                &&& r is Err ==> r->Err_0 == Error::NoMatchingChild
            },
            r matches Ok(s) ==> {
                &&& s.root_tree() == decision_tree(kept_words(words@))
                &&& walk(s.root_tree(), guesses_view(guesses@)) == Some(s.cursor_tree())
            },
    {
        let words_solver = match Words::from_iter(&words) {
            Ok(c) => c,
            Err(e) => return Err(e),
        };
        let mut tree = words_solver.build_tree();
        let ghost root = tree.root_tree();
        let ghost gv = guesses_view(guesses@);
        let n = guesses.len();
        assert(gv.skip(0) =~= gv);
        for i in 0..n
            invariant
                n == guesses@.len(),
                kept_words(words@).len() > 0,
                equal_lengths(kept_words(words@)),
                root == decision_tree(kept_words(words@)),
                gv == guesses_view(guesses@),
                tree.root_tree() == root,
                walk(root, gv) == walk(tree.cursor_tree(), gv.skip(i as int)),
        {
            let ghost before = tree.cursor_tree();
            proof {
                assert(gv.skip(i as int)[0] == gv[i as int]);
                assert(gv.skip(i as int).drop_first() =~= gv.skip(i as int + 1));
            }
            if let Err(e) = tree.next_answer(&guesses[i]) {
                return Err(e);
            }
        }
        assert(gv.skip(n as int) =~= Seq::<(Seq<char>, nat)>::empty());
        Ok(Self { tree })
    }

    /// The words to guess now, each with its worst-case cost.
    pub fn answer(&self) -> (r: Answer)
        ensures
            answer_view(r@) == candidates(self.cursor_tree()),
    {
        self.tree.answer()
    }

    /// Play one turn: the word guessed and the match count received. Returns
    /// the words to guess next; fails with `NoMatchingChild`, nothing moved,
    /// when the turn has nowhere to go.
    pub fn next_answer(&mut self, guess: &Guess) -> (r: Result<Answer, Error>)
        ensures
            final(self).root_tree() == old(self).root_tree(),
            match advance(old(self).cursor_tree(), guess.0@, guess.1 as nat) {
                Some(t) => r is Ok && final(self).cursor_tree() == t && answer_view(r->Ok_0@)
                    == candidates(t),
                None => r == Err::<Answer, Error>(Error::NoMatchingChild) && final(self).cursor_tree()
                    == old(self).cursor_tree(),
            },
    {
        self.tree.next_answer(guess)
    }
}

} // verus!
