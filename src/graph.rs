//! Acyclicity of a finite directed graph, decided by repeatedly removing the nodes whose
//! successors are all removed already.

use vstd::prelude::*;

verus! {

/// `rank` decreases along every edge of the graph on nodes `0..n`.
pub open spec fn ranks(n: int, edge: spec_fn(int, int) -> bool, rank: Seq<nat>) -> bool {
    &&& rank.len() == n
    &&& forall|i: int, j: int|
        0 <= i < n && 0 <= j < n && #[trigger] edge(i, j) ==> rank[i] > rank[j]
}

/// The graph on nodes `0..n` has no cycle: some ranking decreases along every edge.
pub open spec fn acyclic(n: int, edge: spec_fn(int, int) -> bool) -> bool {
    exists|rank: Seq<nat>| #[trigger] ranks(n, edge, rank)
}

/// The number of nodes marked in `s`.
pub open spec fn marked(s: Seq<bool>) -> nat
    decreases s.len(),
{
    if s.len() == 0 {
        0
    } else {
        marked(s.drop_last()) + if s.last() {
            1nat
        } else {
            0nat
        }
    }
}

proof fn lemma_marked_bound(s: Seq<bool>)
    ensures
        marked(s) <= s.len(),
    decreases s.len(),
{
    if s.len() > 0 {
        lemma_marked_bound(s.drop_last());
    }
}

proof fn lemma_marked_update(s: Seq<bool>, i: int)
    requires
        0 <= i < s.len(),
        !s[i],
    ensures
        marked(s.update(i, true)) == marked(s) + 1,
    decreases s.len(),
{
    let t = s.update(i, true);
    if i == s.len() - 1 {
        assert(t.drop_last() =~= s.drop_last());
    } else {
        assert(t.drop_last() =~= s.drop_last().update(i, true));
        lemma_marked_update(s.drop_last(), i);
    }
}

proof fn lemma_marked_all(s: Seq<bool>)
    requires
        marked(s) == s.len(),
    ensures
        forall|i: int| 0 <= i < s.len() ==> s[i],
    decreases s.len(),
{
    if s.len() > 0 {
        lemma_marked_bound(s.drop_last());
        lemma_marked_all(s.drop_last());
        assert forall|i: int| 0 <= i < s.len() implies s[i] by {
            if i < s.len() - 1 {
                assert(s.drop_last()[i] == s[i]);
            }
        }
    }
}

/// Where every node of a non-empty set has a successor in the set, no ranking exists.
proof fn lemma_closed_set_no_rank(
    n: int,
    edge: spec_fn(int, int) -> bool,
    inside: spec_fn(int) -> bool,
    rank: Seq<nat>,
    v: nat,
)
    requires
        ranks(n, edge, rank),
        forall|i: int| 0 <= i < n && #[trigger] inside(i) ==> exists|j: int|
            0 <= j < n && inside(j) && #[trigger] edge(i, j),
    ensures
        forall|i: int| 0 <= i < n && #[trigger] inside(i) ==> rank[i] >= v,
    decreases v,
{
    if v > 0 {
        lemma_closed_set_no_rank(n, edge, inside, rank, (v - 1) as nat);
        assert forall|i: int| 0 <= i < n && #[trigger] inside(i) implies rank[i] >= v by {
            let j = choose|j: int| 0 <= j < n && inside(j) && #[trigger] edge(i, j);
            assert(rank[j] >= v - 1);
        }
    }
}

/// Whether the graph on nodes `0..adj.len()` whose edges from `i` lead to the nodes in
/// `adj[i]` has no cycle.
pub fn is_acyclic(adj: &Vec<Vec<usize>>, Ghost(edge): Ghost<spec_fn(int, int) -> bool>) -> (r: bool)
    requires
        forall|i: int, k: int|
            0 <= i < adj@.len() && 0 <= k < adj@[i]@.len() ==> #[trigger] adj@[i]@[k] < adj@.len(),
        forall|i: int, j: int|
            0 <= i < adj@.len() && 0 <= j < adj@.len() ==> (#[trigger] edge(i, j) <==> adj@[i]@.contains(
                j as usize,
            )),
    ensures
        r == acyclic(adj@.len() as int, edge),
{
    let n = adj.len();
    let mut removed: Vec<bool> = Vec::new();
    let mut rank: Vec<usize> = Vec::new();
    let mut i: usize = 0;
    while i < n
        invariant
            i <= n == adj@.len(),
            removed@.len() == i,
            rank@.len() == i,
            forall|j: int| 0 <= j < i ==> !removed@[j],
        decreases n - i,
    {
        removed.push(false);
        rank.push(0);
        i = i + 1;
    }
    proof {
        assert forall|k: int| 0 <= k <= n implies marked(removed@.take(k)) == 0 by {
            lemma_marked_zero(removed@.take(k));
        }
        assert(removed@.take(n as int) == removed@);
    }
    let mut count: usize = 0;
    let mut progress = true;
    while progress
        invariant
            n == adj@.len(),
            removed@.len() == n,
            rank@.len() == n,
            count == marked(removed@),
            count <= n,
            forall|i: int, k: int|
                0 <= i < n && 0 <= k < adj@[i]@.len() ==> #[trigger] adj@[i]@[k] < n,
            forall|i: int| 0 <= i < n && #[trigger] removed@[i] ==> rank@[i] < count,
            forall|i: int, k: int|
                0 <= i < n && removed@[i] && 0 <= k < adj@[i]@.len() ==> removed@[#[trigger] adj@[i]@[k] as int]
                    && rank@[adj@[i]@[k] as int] < rank@[i],
            !progress ==> forall|i: int| 0 <= i < n && !(#[trigger] removed@[i]) ==> exists|k: int|
                0 <= k < adj@[i]@.len() && !removed@[adj@[i]@[k] as int],
        decreases n - count + if progress { 1int } else { 0int },
    {
        progress = false;
        let mut i: usize = 0;
        let ghost start = count;
        while i < n
            invariant
                n == adj@.len(),
                removed@.len() == n,
                rank@.len() == n,
                count == marked(removed@),
                count <= n,
                start <= count,
                progress <==> count > start,
                i <= n,
                forall|i: int, k: int|
                    0 <= i < n && 0 <= k < adj@[i]@.len() ==> #[trigger] adj@[i]@[k] < n,
                forall|i: int| 0 <= i < n && #[trigger] removed@[i] ==> rank@[i] < count,
                forall|i: int, k: int|
                    0 <= i < n && removed@[i] && 0 <= k < adj@[i]@.len() ==> removed@[#[trigger] adj@[i]@[k] as int]
                        && rank@[adj@[i]@[k] as int] < rank@[i],
                !progress ==> forall|j: int| 0 <= j < i && !(#[trigger] removed@[j]) ==> exists|k: int|
                    0 <= k < adj@[j]@.len() && !removed@[adj@[j]@[k] as int],
            decreases n - i,
        {
            if !removed[i] {
                let mut ready = true;
                let mut k: usize = 0;
                while k < adj[i].len()
                    invariant
                        n == adj@.len(),
                        removed@.len() == n,
                        i < n,
                        k <= adj@[i as int]@.len(),
                        forall|i: int, k: int|
                            0 <= i < n && 0 <= k < adj@[i]@.len() ==> #[trigger] adj@[i]@[k] < n,
                        ready <==> forall|q: int| 0 <= q < k ==> removed@[#[trigger] adj@[i as int]@[q] as int],
                    decreases adj@[i as int]@.len() - k,
                {
                    if !removed[adj[i][k]] {
                        ready = false;
                    }
                    k = k + 1;
                }
                if ready {
                    proof {
                        lemma_marked_update(removed@, i as int);
                        lemma_marked_bound(removed@.update(i as int, true));
                    }
                    removed.set(i, true);
                    rank.set(i, count);
                    count = count + 1;
                    progress = true;
                } else {
                    assert(!progress ==> exists|k: int|
                        0 <= k < adj@[i as int]@.len() && !removed@[adj@[i as int]@[k] as int]);
                }
            }
            i = i + 1;
        }
    }
    let mut all = true;
    let mut j: usize = 0;
    while j < n
        invariant
            n == removed@.len(),
            j <= n,
            all <==> forall|q: int| 0 <= q < j ==> removed@[q],
        decreases n - j,
    {
        if !removed[j] {
            all = false;
        }
        j = j + 1;
    }
    proof {
        if all {
            let rk = Seq::new(n as nat, |q: int| rank@[q] as nat);
            assert forall|a: int, b: int| 0 <= a < n && 0 <= b < n && #[trigger] edge(a, b) implies rk[a] > rk[b] by {
                assert(adj@[a]@.contains(b as usize));
                let k = choose|k: int| 0 <= k < adj@[a]@.len() && adj@[a]@[k] == b as usize;
                assert(removed@[a]);
            }
            assert(ranks(n as int, edge, rk));
        } else {
            let inside = |q: int| !removed@[q];
            assert forall|a: int| 0 <= a < n && #[trigger] inside(a) implies exists|b: int|
                0 <= b < n && inside(b) && #[trigger] edge(a, b) by {
                let k = choose|k: int| 0 <= k < adj@[a]@.len() && !removed@[adj@[a]@[k] as int];
                let b = adj@[a]@[k] as int;
                assert(adj@[a]@.contains(b as usize));
                assert(edge(a, b));
            }
            if acyclic(n as int, edge) {
                let rk = choose|rk: Seq<nat>| #[trigger] ranks(n as int, edge, rk);
                let q = choose|q: int| 0 <= q < n && !removed@[q];
                lemma_closed_set_no_rank(n as int, edge, inside, rk, rk[q] + 1);
                assert(inside(q));
            }
        }
    }
    all
}

proof fn lemma_marked_zero(s: Seq<bool>)
    requires
        forall|i: int| 0 <= i < s.len() ==> !s[i],
    ensures
        marked(s) == 0,
    decreases s.len(),
{
    if s.len() > 0 {
        lemma_marked_zero(s.drop_last());
    }
}

} // verus!
