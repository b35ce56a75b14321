use vstd::prelude::*;

use crate::error::Error;


verus! {

/// Answer from solver: each candidate word with its cost.
pub type Answer = Vec<(String, usize)>;

/// A guessed word with the match count received for it.
pub type Guess = (String, usize);

/// What a decision-tree node stands for.
pub enum Label {
    /// The top of the tree: nothing guessed yet.
    Root,
    /// "You just guessed this word."
    Word(Seq<char>),
    /// "You just received this match count."
    Feedback(nat),
}

/// A decision tree as a mathematical value: a label, the worst-case number of
/// guesses still needed, and the subtrees in order.
pub struct DecisionTree {
    pub label: Label,
    pub cost: nat,
    pub children: Seq<DecisionTree>,
}

/// The largest `child.cost + d` over `ts`, or 0 when `ts` is empty.
pub open spec fn max_cost(ts: Seq<DecisionTree>, d: nat) -> nat
    decreases ts.len(),
{
    if ts.len() == 0 {
        0
    } else {
        let m = max_cost(ts.drop_last(), d);
        let c = ts.last().cost + d;
        if c > m {
            c
        } else {
            m
        }
    }
}

/// `max_cost` is the largest `cost + d` over the trees, or 0 for none.
pub proof fn lemma_max_cost(ts: Seq<DecisionTree>, d: nat)
    ensures
        ts.len() == 0 ==> max_cost(ts, d) == 0,
        forall|k: int| 0 <= k < ts.len() ==> max_cost(ts, d) >= (#[trigger] ts[k]).cost + d,
        ts.len() > 0 ==> exists|k: int| 0 <= k < ts.len() && max_cost(ts, d) == (#[trigger] ts[k]).cost + d,
    decreases ts.len(),
{
    if ts.len() > 0 {
        let t0 = ts.drop_last();
        lemma_max_cost(t0, d);
        assert forall|k: int| 0 <= k < ts.len() implies max_cost(ts, d) >= (#[trigger] ts[k]).cost + d by {
            if k < ts.len() - 1 {
                assert(ts[k] == t0[k]);
            }
        }
        if max_cost(ts, d) != ts.last().cost + d {
            let k = choose|k: int| 0 <= k < t0.len() && max_cost(t0, d) == (#[trigger] t0[k]).cost + d;
            assert(ts[k] == t0[k]);
        }
    }
}

/// Where a step goes: a child that the step matches, and no earlier one.
pub proof fn lemma_step(t: DecisionTree, word: Seq<char>, count: nat)
    ensures
        step(t, word, count) matches Some(c) ==> {
            let k = step_index(t, word, count, t.children.len() as int);
            &&& 0 <= k < t.children.len()
            &&& c == t.children[k]
            &&& step_matches(t, c, word, count)
        },
        step(t, word, count) is None ==> forall|k: int|
            0 <= k < t.children.len() ==> !step_matches(t, #[trigger] t.children[k], word, count),
{
    lemma_step_index_spec(t, word, count, t.children.len() as int);
}

proof fn lemma_step_index_spec(t: DecisionTree, word: Seq<char>, count: nat, k: int)
    requires
        0 <= k <= t.children.len(),
    ensures
        0 <= step_index(t, word, count, k) <= k,
        forall|jj: int|
            0 <= jj < step_index(t, word, count, k) ==> !step_matches(t, #[trigger] t.children[jj], word, count),
        step_index(t, word, count, k) < k ==> step_matches(
            t,
            t.children[step_index(t, word, count, k)],
            word,
            count,
        ),
    decreases k,
{
    if k > 0 {
        lemma_step_index_spec(t, word, count, k - 1);
    }
}

/// The candidate words offered at a node, with their costs: one entry per
/// word child, in order.
pub open spec fn candidate_list(cs: Seq<DecisionTree>) -> Seq<(Seq<char>, nat)>
    decreases cs.len(),
{
    if cs.len() == 0 {
        Seq::empty()
    } else {
        let prev = candidate_list(cs.drop_last());
        match cs.last().label {
            Label::Word(w) => prev.push((w, cs.last().cost)),
            _ => prev,
        }
    }
}

/// The candidates of `t`: none at a word node, the word children elsewhere.
pub open spec fn candidates(t: DecisionTree) -> Seq<(Seq<char>, nat)> {
    match t.label {
        Label::Word(_) => Seq::empty(),
        _ => candidate_list(t.children),
    }
}

/// An answer as words and costs.
pub open spec fn answer_view(a: Seq<(String, usize)>) -> Seq<(Seq<char>, nat)> {
    a.map_values(|e: (String, usize)| (e.0@, e.1 as nat))
}

/// Whether child `c` is the one a step from `t` leads to: at a word node the
/// feedback child for `count`, elsewhere the word child for `word`.
pub open spec fn step_matches(t: DecisionTree, c: DecisionTree, word: Seq<char>, count: nat) -> bool {
    match t.label {
        Label::Word(_) => c.label == Label::Feedback(count),
        _ => c.label == Label::Word(word),
    }
}

/// Position of the first child of `t` that a step for `(word, count)` leads
/// to, or the number of children when there is none.
pub open spec fn step_index(t: DecisionTree, word: Seq<char>, count: nat, k: int) -> int
    decreases k,
{
    if k <= 0 {
        0
    } else {
        let j = step_index(t, word, count, k - 1);
        if j < k - 1 {
            j
        } else if step_matches(t, t.children[k - 1], word, count) {
            k - 1
        } else {
            k
        }
    }
}

/// The node one step below `t` for `(word, count)`, if there is one.
pub open spec fn step(t: DecisionTree, word: Seq<char>, count: nat) -> Option<DecisionTree> {
    let k = step_index(t, word, count, t.children.len() as int);
    if k < t.children.len() {
        Some(t.children[k])
    } else {
        None
    }
}

/// The node two steps below `t`: the guessed word, then the count received.
pub open spec fn advance(t: DecisionTree, word: Seq<char>, count: nat) -> Option<DecisionTree> {
    match step(t, word, count) {
        Some(u) => step(u, word, count),
        None => None,
    }
}

/// `step_index` is the first position, below `k`, of a child that a step
/// leads to.
proof fn lemma_step_index(t: DecisionTree, word: Seq<char>, count: nat, k: int, j: int)
    requires
        0 <= j <= k <= t.children.len(),
        forall|jj: int| 0 <= jj < j ==> !step_matches(t, #[trigger] t.children[jj], word, count),
        j < k ==> step_matches(t, t.children[j], word, count),
    ensures
        step_index(t, word, count, k) == j,
    decreases k,
{
    if k > 0 {
        if j < k {
            if j < k - 1 {
                lemma_step_index(t, word, count, k - 1, j);
            } else {
                lemma_step_index(t, word, count, k - 1, k - 1);
            }
        } else {
            lemma_step_index(t, word, count, k - 1, k - 1);
        }
    }
}

/// What a node of the arena is.
#[derive(Debug)]
pub enum Kind {
    Root,
    Word(String),
    Feedback(usize),
}

/// A node of the arena: its kind, its cost and the positions of its
/// children in the arena.
#[derive(Debug)]
pub struct Node {
    pub kind: Kind,
    pub cost: usize,
    pub children: Vec<usize>,
}

/// The label a node kind stands for.
pub open spec fn label_of(k: Kind) -> Label {
    match k {
        Kind::Root => Label::Root,
        Kind::Word(w) => Label::Word(w@),
        Kind::Feedback(c) => Label::Feedback(c as nat),
    }
}

/// Children come before their parent, and a cost never exceeds the node's
/// position (so that adding one to it cannot overflow).
pub open spec fn arena_wf(nodes: Seq<Node>) -> bool {
    &&& forall|i: int, k: int|
        0 <= i < nodes.len() && 0 <= k < nodes[i].children@.len() ==> #[trigger] nodes[i].children@[k]
            < i
    &&& forall|i: int| 0 <= i < nodes.len() ==> #[trigger] nodes[i].cost <= i
}

/// `a` is a prefix of `b`.
pub open spec fn extends(b: Seq<Node>, a: Seq<Node>) -> bool {
    &&& a.len() <= b.len()
    &&& forall|i: int| 0 <= i < a.len() ==> #[trigger] b[i] == a[i]
}

/// A leaf standing in where an arena is not well formed.
pub open spec fn empty_tree() -> DecisionTree {
    DecisionTree { label: Label::Root, cost: 0, children: Seq::empty() }
}

/// The tree rooted at position `i` of the arena.
pub open spec fn subtree(nodes: Seq<Node>, i: int) -> DecisionTree
    decreases i,
{
    let cs = nodes[i].children@;
    DecisionTree {
        label: label_of(nodes[i].kind),
        cost: nodes[i].cost as nat,
        children: Seq::new(
            cs.len(),
            |k: int|
                if 0 <= cs[k] < i {
                    subtree(nodes, cs[k] as int)
                } else {
                    empty_tree()
                },
        ),
    }
}

/// The trees at the given arena positions, in order.
pub open spec fn subtrees(nodes: Seq<Node>, cs: Seq<usize>) -> Seq<DecisionTree> {
    cs.map_values(|c: usize| subtree(nodes, c as int))
}

/// The tree at a position of a well-formed arena: its node's label and cost,
/// and the trees at its children's positions.
pub proof fn lemma_subtree(nodes: Seq<Node>, i: int)
    requires
        arena_wf(nodes),
        0 <= i < nodes.len(),
    ensures
        subtree(nodes, i).label == label_of(nodes[i].kind),
        subtree(nodes, i).cost == nodes[i].cost,
        subtree(nodes, i).children == subtrees(nodes, nodes[i].children@),
{
    let cs = nodes[i].children@;
    assert forall|k: int| 0 <= k < cs.len() implies 0 <= #[trigger] cs[k] < i by {
        assert(nodes[i].children@[k] < i);
    }
    assert(subtree(nodes, i).children =~= subtrees(nodes, cs));
}

/// Appending to a well-formed arena leaves the trees already in it as they
/// were.
pub proof fn lemma_subtree_extend(a: Seq<Node>, b: Seq<Node>, i: int)
    requires
        arena_wf(a),
        extends(b, a),
        0 <= i < a.len(),
    ensures
        subtree(b, i) == subtree(a, i),
    decreases i,
{
    let cs = a[i].children@;
    assert(b[i] == a[i]);
    assert forall|k: int| 0 <= k < cs.len() implies #[trigger] subtree(b, i).children[k] == subtree(a, i).children[k] by {
        assert(a[i].children@[k] < i);
        lemma_subtree_extend(a, b, cs[k] as int);
    }
    assert(subtree(b, i).children =~= subtree(a, i).children);
}

/// Trees already in a well-formed arena stay as they were when it grows.
pub proof fn lemma_subtrees_extend(a: Seq<Node>, b: Seq<Node>, cs: Seq<usize>)
    requires
        arena_wf(a),
        extends(b, a),
        forall|k: int| 0 <= k < cs.len() ==> #[trigger] cs[k] < a.len(),
    ensures
        subtrees(b, cs) == subtrees(a, cs),
{
    assert forall|k: int| 0 <= k < cs.len() implies #[trigger] subtrees(b, cs)[k] == subtrees(a, cs)[k] by {
        lemma_subtree_extend(a, b, cs[k] as int);
    }
    assert(subtrees(b, cs) =~= subtrees(a, cs));
}

impl Node {
    pub fn new_word(word: String) -> (r: Node)
        ensures
            r.kind == Kind::Word(word),
            r.cost == 0,
            r.children@.len() == 0,
    {
        Node { kind: Kind::Word(word), children: Vec::new(), cost: 0 }
    }

    pub fn new_intersection(choice: usize) -> (r: Node)
        ensures
            r.kind == Kind::Feedback(choice),
            r.cost == 0,
            r.children@.len() == 0,
    {
        Node { kind: Kind::Feedback(choice), children: Vec::new(), cost: 0 }
    }

    pub fn new_root() -> (r: Node)
        ensures
            r.kind == Kind::Root,
            r.cost == 0,
            r.children@.len() == 0,
    {
        Node { kind: Kind::Root, children: Vec::new(), cost: 0 }
    }

    /// Append the child at arena position `index`, whose cost is
    /// `child_cost`: a word node costs one guess more than its worst child,
    /// other nodes cost as much as their worst child.
    pub fn append_child(&mut self, index: usize, child_cost: usize)
        requires
            child_cost < usize::MAX,
        ensures
            final(self).kind == old(self).kind,
            final(self).children@ == old(self).children@.push(index),
            final(self).cost == if old(self).kind is Word {
                if child_cost + 1 > old(self).cost {
                    child_cost + 1
                } else {
                    old(self).cost as int
                }
            } else {
                if child_cost > old(self).cost {
                    child_cost as int
                } else {
                    old(self).cost as int
                }
            },
    {
        if let Kind::Word(_) = self.kind {
            self.cost = if child_cost < self.cost {
                self.cost
            } else {
                child_cost + 1
            }
        } else {
            self.cost = if child_cost > self.cost {
                child_cost
            } else {
                self.cost
            };
        }
        self.children.push(index);
    }

    /// Append the children at the given arena positions, in order, updating
    /// the cost for each.
    pub(crate) fn set_children(&mut self, children: &Vec<usize>, nodes: &Vec<Node>)
        requires
            arena_wf(nodes@),
            old(self).children@.len() == 0,
            old(self).cost == 0,
            forall|k: int| 0 <= k < children@.len() ==> #[trigger] children@[k] < nodes@.len(),
        ensures
            final(self).kind == old(self).kind,
            final(self).children@ == children@,
            final(self).cost <= nodes@.len(),
            final(self).cost == max_cost(
                subtrees(nodes@, children@),
                if old(self).kind is Word {
                    1nat
                } else {
                    0nat
                },
            ),
    {
        let ghost d: nat = if self.kind is Word {
            1nat
        } else {
            0nat
        };
        let n = children.len();
        let total = nodes.len();
        for k in 0..n
            invariant
                n == children@.len(),
                total == nodes@.len(),
                arena_wf(nodes@),
                forall|t: int| 0 <= t < children@.len() ==> #[trigger] children@[t] < nodes@.len(),
                self.kind == old(self).kind,
                d == if self.kind is Word {
                    1nat
                } else {
                    0nat
                },
                self.children@ == children@.take(k as int),
                self.cost <= nodes@.len(),
                self.cost == max_cost(subtrees(nodes@, children@.take(k as int)), d),
        {
            let c = children[k];
            proof {
                lemma_subtree(nodes@, c as int);
                assert(subtrees(nodes@, children@.take(k as int + 1)).drop_last() =~= subtrees(
                    nodes@,
                    children@.take(k as int),
                ));
                assert(nodes@[c as int].cost <= c);
            }
            self.append_child(c, nodes[c].cost);
            assert(self.children@ =~= children@.take(k as int + 1));
        }
        assert(children@.take(n as int) =~= children@);
    }
}

/// A decision tree held as an arena of nodes, with a cursor on one of them.
#[derive(Debug)]
pub struct Tree {
    nodes: Vec<Node>,
    root: usize,
    current: usize,
}

impl Tree {
    #[verifier::type_invariant]
    spec fn well_formed(&self) -> bool {
        &&& arena_wf(self.nodes@)
        &&& self.root < self.nodes@.len()
        &&& self.current < self.nodes@.len()
    }

    /// The whole tree.
    pub closed spec fn root_tree(&self) -> DecisionTree {
        subtree(self.nodes@, self.root as int)
    }

    /// The part of the tree below the cursor.
    pub closed spec fn cursor_tree(&self) -> DecisionTree {
        subtree(self.nodes@, self.current as int)
    }

    /// Whether `i` is the position of a node.
    pub closed spec fn has_node(&self, i: int) -> bool {
        0 <= i < self.nodes@.len()
    }

    /// The part of the tree below the node at position `i`.
    pub closed spec fn node_tree(&self, i: int) -> DecisionTree {
        subtree(self.nodes@, i)
    }

    /// Position of the root node.
    pub fn root_index(&self) -> (r: usize)
        ensures
            self.has_node(r as int),
            self.node_tree(r as int) == self.root_tree(),
    {
        proof {
            use_type_invariant(self);
        }
        self.root
    }

    /// Position of the node under the cursor.
    pub fn cursor_index(&self) -> (r: usize)
        ensures
            self.has_node(r as int),
            self.node_tree(r as int) == self.cursor_tree(),
    {
        proof {
            use_type_invariant(self);
        }
        self.current
    }

    /// Positions of the children of node `i`, in order.
    pub fn children(&self, i: usize) -> (r: &Vec<usize>)
        requires
            self.has_node(i as int),
        ensures
            r@.len() == self.node_tree(i as int).children.len(),
            forall|k: int|
                0 <= k < r@.len() ==> self.has_node(#[trigger] r@[k] as int) && self.node_tree(
                    r@[k] as int,
                ) == self.node_tree(i as int).children[k],
    {
        proof {
            use_type_invariant(self);
            lemma_subtree(self.nodes@, i as int);
            assert forall|k: int| 0 <= k < self.nodes@[i as int].children@.len() implies #[trigger] self.nodes@[i as int].children@[k] < i by {}
        }
        &self.nodes[i].children
    }

    /// What node `i` stands for: the root, a guessed word or a match count.
    pub fn kind(&self, i: usize) -> (r: &Kind)
        requires
            self.has_node(i as int),
        ensures
            label_of(*r) == self.node_tree(i as int).label,
    {
        proof {
            use_type_invariant(self);
            lemma_subtree(self.nodes@, i as int);
        }
        &self.nodes[i].kind
    }

    /// The worst-case number of guesses still needed below node `i`.
    pub fn cost(&self, i: usize) -> (r: usize)
        requires
            self.has_node(i as int),
        ensures
            r == self.node_tree(i as int).cost,
    {
        proof {
            use_type_invariant(self);
            lemma_subtree(self.nodes@, i as int);
        }
        self.nodes[i].cost
    }

    /// Return Answer: the words to guess next with their costs; empty when
    /// the cursor is on a guessed word.
    pub fn answer(&self) -> (r: Answer)
        ensures
            answer_view(r@) == candidates(self.cursor_tree()),
    {
        proof {
            use_type_invariant(self);
            lemma_subtree(self.nodes@, self.current as int);
        }
        let mut answer: Answer = Vec::new();
        let node = &self.nodes[self.current];
        match &node.kind {
            Kind::Word(_) => {},
            _ => {
                let ghost cts = self.cursor_tree().children;
                let n = node.children.len();
                for k in 0..n
                    invariant
                        n == node.children@.len(),
                        node == self.nodes@[self.current as int],
                        arena_wf(self.nodes@),
                        self.current < self.nodes@.len(),
                        cts == subtrees(self.nodes@, node.children@),
                        answer_view(answer@) == candidate_list(cts.take(k as int)),
                {
                    let c = node.children[k];
                    assert(self.nodes@[self.current as int].children@[k as int] < self.current);
                    let child = &self.nodes[c];
                    proof {
                        lemma_subtree(self.nodes@, c as int);
                        assert(cts.take(k as int + 1).drop_last() =~= cts.take(k as int));
                    }
                    if let Kind::Word(w) = &child.kind {
                        answer.push((w.clone(), child.cost));
                    }
                    assert(answer_view(answer@) =~= candidate_list(cts.take(k as int + 1)));
                }
                assert(cts.take(n as int) =~= cts);
            },
        }
        answer
    }

    /// Position of the child that one step from node `from` leads to: from
    /// the root or a match count, the child for the guessed word; from a
    /// guessed word, the child for the match count.
    fn find_step(&self, from: usize, guess: &Guess) -> (r: Option<usize>)
        requires
            self.has_node(from as int),
        ensures
            match step(self.node_tree(from as int), guess.0@, guess.1 as nat) {
                Some(t) => r is Some && self.has_node(r->0 as int) && self.node_tree(r->0 as int) == t,
                None => r is None,
            },
    {
        proof {
            use_type_invariant(self);
            lemma_subtree(self.nodes@, from as int);
        }
        let ghost t = self.node_tree(from as int);
        let word = &guess.0;
        let count = guess.1;
        let on_word = match &self.nodes[from].kind {
            Kind::Word(_) => true,
            _ => false,
        };
        let n = self.nodes[from].children.len();
        let mut k: usize = 0;
        while k < n
            invariant
                n == self.nodes@[from as int].children@.len(),
                word == &guess.0,
                count == guess.1,
                from < self.nodes@.len(),
                arena_wf(self.nodes@),
                t == subtree(self.nodes@, from as int),
                t.children == subtrees(self.nodes@, self.nodes@[from as int].children@),
                on_word == (t.label is Word),
                k <= n,
                forall|jj: int| 0 <= jj < k ==> !step_matches(t, #[trigger] t.children[jj], word@, count as nat),
            decreases n - k,
        {
            let c = self.nodes[from].children[k];
            assert(self.nodes@[from as int].children@[k as int] < from);
            proof {
                lemma_subtree(self.nodes@, c as int);
            }
            let found = match &self.nodes[c].kind {
                Kind::Word(w) => !on_word && w.eq(word),
                Kind::Feedback(m) => on_word && *m == count,
                Kind::Root => false,
            };
            if found {
                proof {
                    lemma_step_index(t, word@, count as nat, n as int, k as int);
                    assert(t.children.len() == n);
                    assert(t.children[k as int] == subtree(self.nodes@, c as int));
                }
                return Some(c);
            }
            k = k + 1;
        }
        proof {
            lemma_step_index(t, word@, count as nat, n as int, n as int);
        }
        None
    }

    /// Move the cursor one step: from the root or a match count to the child
    /// for the guessed word, from a guessed word to the child for the match
    /// count. Fails with `NoMatchingChild`, the cursor unmoved, when there is
    /// no such child.
    pub fn next(&mut self, guess: &Guess) -> (r: Result<(), Error>)
        ensures
            final(self).root_tree() == old(self).root_tree(),
            match step(old(self).cursor_tree(), guess.0@, guess.1 as nat) {
                Some(t) => r is Ok && final(self).cursor_tree() == t,
                None => r == Err::<(), Error>(Error::NoMatchingChild) && final(self).cursor_tree()
                    == old(self).cursor_tree(),
            },
    {
        proof {
            use_type_invariant(&*self);
        }
        match self.find_step(self.current, guess) {
            Some(c) => {
                self.current = c;
                Ok(())
            },
            None => Err(Error::NoMatchingChild),
        }
    }

    /// Propagate state two steps, the guessed word then the match count, and
    /// return the Answer there. Fails with `NoMatchingChild`, the cursor
    /// unmoved, when either step has no child to go to.
    pub fn next_answer(&mut self, guess: &Guess) -> (r: Result<Answer, Error>)
        ensures
            final(self).root_tree() == old(self).root_tree(),
            match advance(old(self).cursor_tree(), guess.0@, guess.1 as nat) {
                Some(t) => r is Ok && final(self).cursor_tree() == t && answer_view(r->Ok_0@)
                    == candidates(t),
                None => r == Err::<Answer, Error>(Error::NoMatchingChild) && final(self).cursor_tree()
                    == old(self).cursor_tree(),
            },
    {
        proof {
            use_type_invariant(&*self);
        }
        let word_node = match self.find_step(self.current, guess) {
            Some(c) => c,
            None => return Err(Error::NoMatchingChild),
        };
        let count_node = match self.find_step(word_node, guess) {
            Some(c) => c,
            None => return Err(Error::NoMatchingChild),
        };
        self.current = count_node;
        Ok(self.answer())
    }

    /// A tree over an arena of nodes built by hand, rooted at `root`, with
    /// the cursor on the root. `None` unless every child comes before its
    /// parent, no cost exceeds its node's position, and `root` is a position
    /// of the arena.
    pub fn from_nodes(nodes: Vec<Node>, root: usize) -> (r: Option<Tree>)
        ensures
            r is Some <==> arena_wf(nodes@) && root < nodes@.len(),
            r matches Some(t) ==> t.root_tree() == subtree(nodes@, root as int) && t.cursor_tree()
                == t.root_tree(),
    {
        let n = nodes.len();
        let mut i: usize = 0;
        while i < n
            invariant
                n == nodes@.len(),
                i <= n,
                arena_wf(nodes@.take(i as int)),
            decreases n - i,
        {
            if nodes[i].cost > i {
                return None;
            }
            let nc = nodes[i].children.len();
            let mut k: usize = 0;
            while k < nc
                invariant
                    nc == nodes@[i as int].children@.len(),
                    i < n,
                    n == nodes@.len(),
                    k <= nc,
                    forall|kk: int| 0 <= kk < k ==> #[trigger] nodes@[i as int].children@[kk] < i,
                decreases nc - k,
            {
                if nodes[i].children[k] >= i {
                    return None;
                }
                k = k + 1;
            }
            assert(arena_wf(nodes@.take(i as int + 1)));
            i = i + 1;
        }
        assert(nodes@.take(n as int) =~= nodes@);
        if root >= n {
            return None;
        }
        Some(Tree::new(nodes, root))
    }

    /// A tree over the arena `nodes`, rooted at `root`, with the cursor on
    /// the root.
    pub(crate) fn new(nodes: Vec<Node>, root: usize) -> (r: Tree)
        requires
            arena_wf(nodes@),
            root < nodes@.len(),
        ensures
            r.root_tree() == subtree(nodes@, root as int),
            r.cursor_tree() == r.root_tree(),
    {
        Tree { nodes, root, current: root }
    }
}

} // verus!
