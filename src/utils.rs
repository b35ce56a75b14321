use vstd::laws_eq::obeys_concrete_eq;
use vstd::prelude::*;

verus! {

/// Position of the group keyed `k` in `g`, or `g.len()` when there is none.
pub open spec fn key_index<T>(g: Seq<(T, Seq<usize>)>, k: T) -> int
    decreases g.len(),
{
    if g.len() == 0 {
        0
    } else {
        let j = key_index(g.drop_last(), k);
        if j < g.len() - 1 {
            j
        } else if g.last().0 == k {
            g.len() - 1
        } else {
            g.len() as int
        }
    }
}

/// The values of `s` grouped by equality: one entry per distinct value, in
/// order of first appearance, with the ascending positions that hold it.
pub open spec fn partition<T>(s: Seq<T>) -> Seq<(T, Seq<usize>)>
    decreases s.len(),
{
    if s.len() == 0 {
        Seq::empty()
    } else {
        let prev = partition(s.drop_last());
        let k = s.last();
        let i = (s.len() - 1) as usize;
        let j = key_index(prev, k);
        if j < prev.len() {
            prev.update(j, (k, prev[j].1.push(i)))
        } else {
            prev.push((k, seq![i]))
        }
    }
}

/// Setting a key aside leaves no group with that key; the groups left are
/// exactly the groups of `g` with another key.
pub proof fn lemma_key_set_aside<T>(g: Seq<(T, Seq<usize>)>, k: T)
    ensures
        forall|j: int| 0 <= j < without_key(g, k).len() ==> (#[trigger] without_key(g, k)[j]).0 != k,
        forall|j: int| 0 <= j < without_key(g, k).len() ==> g.contains(#[trigger] without_key(g, k)[j]),
        forall|j: int| 0 <= j < g.len() && (#[trigger] g[j]).0 != k ==> without_key(g, k).contains(g[j]),
{
    assert forall|j: int| 0 <= j < without_key(g, k).len() implies (#[trigger] without_key(g, k)[j]).0 != k by {
        g.lemma_filter_pred(keyed_otherwise(k), j);
    }
    assert forall|j: int| 0 <= j < without_key(g, k).len() implies g.contains(#[trigger] without_key(g, k)[j]) by {
        assert(without_key(g, k).contains(without_key(g, k)[j]));
        g.lemma_filter_contains_rev(keyed_otherwise(k), without_key(g, k)[j]);
    }
    assert forall|j: int| 0 <= j < g.len() && (#[trigger] g[j]).0 != k implies without_key(g, k).contains(g[j]) by {
        g.lemma_filter_contains(keyed_otherwise(k), j);
    }
}

/// The ascending positions of `s` that hold `k`.
pub open spec fn positions_of<T>(s: Seq<T>, k: T) -> Seq<usize>
    decreases s.len(),
{
    if s.len() == 0 {
        Seq::empty()
    } else {
        let prev = positions_of(s.drop_last(), k);
        if s.last() == k {
            prev.push((s.len() - 1) as usize)
        } else {
            prev
        }
    }
}

/// `g` with the group keyed `k` taken out, the others in their order.
pub open spec fn without_key<T>(g: Seq<(T, Seq<usize>)>, k: T) -> Seq<(T, Seq<usize>)> {
    g.filter(keyed_otherwise(k))
}

/// Holds of a group whose key is not `k`.
pub open spec fn keyed_otherwise<T>(k: T) -> spec_fn((T, Seq<usize>)) -> bool {
    |e: (T, Seq<usize>)| e.0 != k
}

/// A partition of values by equality: each distinct value with the list of
/// positions that produced it.
#[derive(Debug)]
pub struct GroupsStruct<T> {
    groups: Vec<(T, Vec<usize>)>,
}

/// Groups as keys with sequences of positions.
pub open spec fn groups_view<T>(g: Seq<(T, Vec<usize>)>) -> Seq<(T, Seq<usize>)> {
    g.map_values(|e: (T, Vec<usize>)| (e.0, e.1@))
}

impl<T> GroupsStruct<T> {
    /// The groups, keys with their positions.
    pub closed spec fn spec_groups(&self) -> Seq<(T, Seq<usize>)> {
        groups_view(self.groups@)
    }
}

impl<T: Copy + PartialEq> GroupsStruct<T> {
    /// Group the positions of `items` by value, in order of first appearance.
    pub fn new(items: &[T]) -> (r: Self)
        requires
            obeys_concrete_eq::<T>(),
        ensures
            r.spec_groups() == partition(items@),
    {
        let mut groups: Vec<(T, Vec<usize>)> = Vec::new();
        let n = items.len();
        for i in 0..n
            invariant
                n == items@.len(),
                obeys_concrete_eq::<T>(),
                groups_view(groups@) == partition(items@.take(i as int)),
        {
            let ghost prev = groups_view(groups@);
            assert(items@.take(i as int + 1).drop_last() == items@.take(i as int));
            let k = items[i];
            // the group already keyed `k`, if any
            let mut j: usize = 0;
            while j < groups.len() && !(groups[j].0 == k)
                invariant
                    j <= groups@.len(),
                    obeys_concrete_eq::<T>(),
                    prev == groups_view(groups@),
                    forall|jj: int| 0 <= jj < j ==> prev[jj].0 != k,
                decreases groups@.len() - j,
            {
                proof {
                    reveal(obeys_concrete_eq);
                }
                j = j + 1;
            }
            proof {
                reveal(obeys_concrete_eq);
                lemma_key_index(prev, k, j as int);
            }
            if j < groups.len() {
                groups[j].1.push(i);
                assert(groups_view(groups@) =~= prev.update(j as int, (k, prev[j as int].1.push(i))));
            } else {
                groups.push((k, vec![i]));
                assert(groups@.last().1@ =~= seq![i]);
                assert(groups_view(groups@) =~= prev.push((k, seq![i])));
            }
        }
        assert(items@.take(n as int) =~= items@);
        GroupsStruct { groups }
    }
}

impl<T: Copy + PartialEq> GroupsStruct<T> {
    /// The groups, keys with their positions.
    pub fn groups(&self) -> (r: &Vec<(T, Vec<usize>)>)
        ensures
            groups_view(r@) == self.spec_groups(),
    {
        &self.groups
    }

    /// The groups, open to change in place.
    pub fn groups_mut(&mut self) -> (r: &mut Vec<(T, Vec<usize>)>)
        ensures
            groups_view(r@) == old(self).spec_groups(),
            final(self).spec_groups() == groups_view(final(r)@),
    {
        &mut self.groups
    }

    /// Take out the group keyed `key`, keeping the others in their order, and
    /// return its positions.
    pub fn remove(&mut self, key: &T) -> (r: Option<Vec<usize>>)
        requires
            obeys_concrete_eq::<T>(),
        ensures
            final(self).spec_groups() == without_key(old(self).spec_groups(), *key),
            key_index(old(self).spec_groups(), *key) < old(self).spec_groups().len() <==> r is Some,
            r matches Some(v) ==> v@ == old(self).spec_groups()[key_index(old(self).spec_groups(), *key)].1,
    {
        let ghost g = self.spec_groups();
                let mut old_groups: Vec<(T, Vec<usize>)> = Vec::new();
        std::mem::swap(&mut old_groups, &mut self.groups);
        let mut removed: Option<Vec<usize>> = None;
        proof {
            reveal(obeys_concrete_eq);
            lemma_key_index_spec(g, *key);
        }
        for e in it: old_groups.into_iter()
            invariant
                obeys_concrete_eq::<T>(),
                groups_view(it.seq()) == g,
                groups_view(self.groups@)
                    == g.take(it.index() as int).filter(keyed_otherwise(*key)),
                key_index(g, *key) < it.index() <==> removed is Some,
                removed matches Some(v) ==> v@ == g[key_index(g, *key)].1,
                forall|jj: int| 0 <= jj < key_index(g, *key) ==> g[jj].0 != *key,
                key_index(g, *key) < g.len() ==> g[key_index(g, *key)].0 == *key,
                0 <= key_index(g, *key) <= g.len(),
        {
            let ghost i = it.index() as int;
            proof {
                reveal(obeys_concrete_eq);
                assert(g[i] == (e.0, e.1@));
                assert(g.take(i + 1).filter(keyed_otherwise(*key)) == if keyed_otherwise(*key)(g[i]) {
                    g.take(i).filter(keyed_otherwise(*key)).push(g[i])
                } else {
                    g.take(i).filter(keyed_otherwise(*key))
                }) by {
                    reveal(Seq::filter);
                    assert(g.take(i + 1).drop_last() =~= g.take(i));
                }
            }
            let same = e.0 == *key;
            assert(same <==> g[i].0 == *key) by {
                reveal(obeys_concrete_eq);
            }
            let ghost before = groups_view(self.groups@);
            if same {
                if removed.is_none() {
                    removed = Some(e.1);
                }
                assert(!keyed_otherwise(*key)(g[i]));
            } else {
                self.groups.push(e);
                assert(keyed_otherwise(*key)(g[i]));
                assert(groups_view(self.groups@) =~= before.push(g[i]));
            }
            assert(groups_view(self.groups@)
                =~= g.take(i + 1).filter(keyed_otherwise(*key)));
        }
        assert(g.take(g.len() as int) =~= g);
        removed
    }
}

/// Every position listed for `k` lies in `s` and holds `k`; there are at most
/// as many as `s` is long, and fewer when some position holds another value.
pub proof fn lemma_positions_of<T>(s: Seq<T>, k: T)
    requires
        s.len() <= usize::MAX + 1,
    ensures
        positions_of(s, k).len() <= s.len(),
        (exists|q: int| 0 <= q < s.len() && s[q] != k) ==> positions_of(s, k).len() < s.len(),
        forall|t: int|
            0 <= t < positions_of(s, k).len() ==> {
                &&& #[trigger] positions_of(s, k)[t] < s.len()
                &&& s[positions_of(s, k)[t] as int] == k
            },
    decreases s.len(),
{
    if s.len() > 0 {
        let s0 = s.drop_last();
        lemma_positions_of(s0, k);
        if exists|q: int| 0 <= q < s.len() && s[q] != k {
            let q = choose|q: int| 0 <= q < s.len() && s[q] != k;
            if q < s.len() - 1 {
                assert(s0[q] != k);
            }
        }
        assert forall|t: int| 0 <= t < positions_of(s, k).len() implies {
            &&& #[trigger] positions_of(s, k)[t] < s.len()
            &&& s[positions_of(s, k)[t] as int] == k
        } by {
            if t < positions_of(s0, k).len() {
                assert(positions_of(s, k)[t] == positions_of(s0, k)[t]);
                assert(s0[positions_of(s0, k)[t] as int] == k);
            }
        }
    }
}

/// Each group of `partition(s)` lists exactly the positions holding its key,
/// the keys are distinct, and every value of `s` has a group.
pub proof fn lemma_partition<T>(s: Seq<T>)
    requires
        s.len() <= usize::MAX + 1,
    ensures
        forall|j: int|
            0 <= j < partition(s).len() ==> (#[trigger] partition(s)[j]).1 == positions_of(
                s,
                partition(s)[j].0,
            ),
        forall|a: int, b: int|
            0 <= a < b < partition(s).len() ==> (#[trigger] partition(s)[a]).0 != (
            #[trigger] partition(s)[b]).0,
        forall|q: int| 0 <= q < s.len() ==> key_index(partition(s), #[trigger] s[q]) < partition(s).len(),
        forall|j: int| 0 <= j < partition(s).len() ==> (#[trigger] partition(s)[j]).1.len() > 0,
    decreases s.len(),
{
    if s.len() > 0 {
        let s0 = s.drop_last();
        let prev = partition(s0);
        let k = s.last();
        let i = (s.len() - 1) as usize;
        lemma_partition(s0);
        lemma_key_index_spec(prev, k);
        let p = partition(s);
        let j0 = key_index(prev, k);
        if j0 >= prev.len() {
            // `k` is new: no earlier position holds it
            assert(positions_of(s0, k).len() == 0) by {
                if positions_of(s0, k).len() > 0 {
                    lemma_positions_of(s0, k);
                    let q = positions_of(s0, k)[0] as int;
                    assert(key_index(prev, s0[q]) < prev.len());
                }
            }
            assert(positions_of(s0, k) =~= Seq::<usize>::empty());
        }
        assert forall|j: int| 0 <= j < p.len() implies (#[trigger] p[j]).1 == positions_of(s, p[j].0) by {
            if j < prev.len() {
                assert(prev[j].1 == positions_of(s0, prev[j].0));
            }
        }
        assert forall|j: int| 0 <= j < p.len() implies (#[trigger] p[j]).1.len() > 0 by {
            if j < prev.len() {
                assert(prev[j].1.len() > 0);
            }
        }
        assert forall|q: int| 0 <= q < s.len() implies key_index(p, #[trigger] s[q]) < p.len() by {
            lemma_key_index_spec(p, s[q]);
            if q < s.len() - 1 {
                assert(s0[q] == s[q]);
                lemma_key_index_spec(prev, s0[q]);
                let jq = key_index(prev, s0[q]);
                assert(p[jq].0 == s[q]);
            } else {
                if j0 < prev.len() {
                    assert(p[j0].0 == k);
                } else {
                    assert(p[prev.len() as int].0 == k);
                }
            }
        }
    }
}

/// Grouping of a list of values by equality.
pub trait Groups<T: PartialEq>: Sized {
    /// The values to group.
    spec fn grouped_values(&self) -> Seq<T>;

    /// The positions of the values grouped by value, in order of first
    /// appearance.
    fn groups(&self) -> (r: GroupsStruct<T>)
        requires
            obeys_concrete_eq::<T>(),
        ensures
            r.spec_groups() == partition(self.grouped_values()),
    ;
}

impl<T: Copy + PartialEq> Groups<T> for Vec<T> {
    open spec fn grouped_values(&self) -> Seq<T> {
        self@
    }

    fn groups(&self) -> (r: GroupsStruct<T>) {
        GroupsStruct::new(self.as_slice())
    }
}

/// What `key_index` returns: the first position holding `k`, or the length.
proof fn lemma_key_index_spec<T>(g: Seq<(T, Seq<usize>)>, k: T)
    ensures
        0 <= key_index(g, k) <= g.len(),
        forall|jj: int| 0 <= jj < key_index(g, k) ==> g[jj].0 != k,
        key_index(g, k) < g.len() ==> g[key_index(g, k)].0 == k,
    decreases g.len(),
{
    if g.len() > 0 {
        lemma_key_index_spec(g.drop_last(), k);
        assert(forall|jj: int| 0 <= jj < g.len() - 1 ==> g.drop_last()[jj] == g[jj]);
    }
}

/// `key_index` is the first position holding `k`.
proof fn lemma_key_index<T>(g: Seq<(T, Seq<usize>)>, k: T, j: int)
    requires
        0 <= j <= g.len(),
        forall|jj: int| 0 <= jj < j ==> g[jj].0 != k,
        j < g.len() ==> g[j].0 == k,
    ensures
        key_index(g, k) == j,
    decreases g.len(),
{
    if g.len() > 0 {
        if j < g.len() {
            if j < g.len() - 1 {
                lemma_key_index(g.drop_last(), k, j);
            } else {
                lemma_key_index(g.drop_last(), k, g.len() - 1);
            }
        } else {
            lemma_key_index(g.drop_last(), k, g.len() - 1);
        }
    }
}

/// Number of positions `i < k` at which `a` and `b` hold the same character.
pub open spec fn matches_upto(a: Seq<char>, b: Seq<char>, k: int) -> nat
    decreases k,
{
    if k <= 0 {
        0
    } else {
        matches_upto(a, b, k - 1) + if a[k - 1] == b[k - 1] { 1nat } else { 0nat }
    }
}

/// The match count of two words: positions, up to the shorter length, at
/// which both hold the same character.
pub open spec fn coincidence(a: Seq<char>, b: Seq<char>) -> nat {
    let k = if a.len() <= b.len() { a.len() } else { b.len() };
    matches_upto(a, b, k as int)
}

/// The match count is symmetric and at most the length of either word.
pub proof fn lemma_coincidence(a: Seq<char>, b: Seq<char>)
    ensures
        coincidence(a, b) == coincidence(b, a),
        0 <= coincidence(a, b) <= a.len(),
        coincidence(a, b) <= b.len(),
{
    let k = if a.len() <= b.len() { a.len() } else { b.len() };
    lemma_matches_upto(a, b, k as int);
}

proof fn lemma_matches_upto(a: Seq<char>, b: Seq<char>, k: int)
    requires
        0 <= k,
    ensures
        matches_upto(a, b, k) == matches_upto(b, a, k),
        matches_upto(a, b, k) <= k,
    decreases k,
{
    if k > 0 {
        lemma_matches_upto(a, b, k - 1);
    }
}

/// The characters of `s`, in order.
pub fn chars_of(s: &str) -> (r: Vec<char>)
    ensures
        r@ == s@,
{
    let mut r: Vec<char> = Vec::new();
    for c in it: s.chars()
        invariant
            r@ == it.seq().take(it.index() as int),
            it.seq() == s@,
    {
        r.push(c);
    }
    r
}

/// Return number of equal elements in the same position for two strings.
pub fn get_coincidence(s1: &str, s2: &str) -> (r: usize)
    ensures
        r == coincidence(s1@, s2@),
{
    let a = chars_of(s1);
    let b = chars_of(s2);
    let k: usize = if a.len() <= b.len() { a.len() } else { b.len() };
    let mut count: usize = 0;
    let mut i: usize = 0;
    while i < k
        invariant
            k <= a@.len(),
            k <= b@.len(),
            i <= k,
            count == matches_upto(a@, b@, i as int),
            count <= i,
        decreases k - i,
    {
        if a[i] == b[i] {
            count = count + 1;
        }
        i = i + 1;
    }
    count
}

} // verus!
