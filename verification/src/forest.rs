//! Parent-pointer forests with ranks: the shape behind a disjoint-set structure.
//!
//! A forest is a pair of sequences of equal length. `parent[i]` is the node
//! that `i` hangs under; a node that is its own parent is a root. Ranks grow
//! strictly along every parent link, which makes every walk towards a root
//! finite, and no rank exceeds the number of nodes that are not roots.

use vstd::prelude::*;

verus! {

/// Number of roots among the nodes of `parent`.
pub open spec fn root_count(parent: Seq<usize>) -> nat
    decreases parent.len(),
{
    if parent.len() == 0 {
        0
    } else {
        let rest = root_count(parent.drop_last());
        if parent.last() == parent.len() - 1 {
            rest + 1
        } else {
            rest
        }
    }
}

/// `parent` and `rank` describe a forest.
pub open spec fn is_forest(parent: Seq<usize>, rank: Seq<usize>) -> bool {
    &&& parent.len() == rank.len()
    &&& forall|i: int| 0 <= i < parent.len() ==> (#[trigger] parent[i]) < parent.len()
    &&& forall|i: int|
        0 <= i < parent.len() && (#[trigger] parent[i]) != i ==> rank[i] < rank[parent[i] as int]
    &&& forall|i: int|
        0 <= i < parent.len() ==> (#[trigger] rank[i]) + root_count(parent) <= parent.len()
}

/// The root of the tree that holds node `i`.
pub open spec fn root_of(parent: Seq<usize>, rank: Seq<usize>, i: int) -> int
    decreases parent.len() - rank[i],
    when is_forest(parent, rank) && 0 <= i < parent.len()
{
    if parent[i] == i {
        i
    } else {
        root_of(parent, rank, parent[i] as int)
    }
}

pub proof fn lemma_root_count_bound(parent: Seq<usize>)
    ensures
        root_count(parent) <= parent.len(),
    decreases parent.len(),
{
    if parent.len() > 0 {
        lemma_root_count_bound(parent.drop_last());
    }
}

/// A forest with a root has a positive root count.
pub proof fn lemma_root_count_positive(parent: Seq<usize>, i: int)
    requires
        0 <= i < parent.len(),
        parent[i] == i,
    ensures
        root_count(parent) >= 1,
    decreases parent.len(),
{
    if i < parent.len() - 1 {
        lemma_root_count_positive(parent.drop_last(), i);
    }
}

/// Changing one parent link changes the root count by what that node gains
/// or loses as a root.
pub proof fn lemma_root_count_update(parent: Seq<usize>, i: int, v: usize)
    requires
        0 <= i < parent.len(),
    ensures
        root_count(parent.update(i, v)) + (if parent[i] == i { 1nat } else { 0nat })
            == root_count(parent) + (if v == i { 1nat } else { 0nat }),
    decreases parent.len(),
{
    let updated = parent.update(i, v);
    if i < parent.len() - 1 {
        assert(updated.drop_last() =~= parent.drop_last().update(i, v));
        lemma_root_count_update(parent.drop_last(), i, v);
    } else {
        assert(updated.drop_last() =~= parent.drop_last());
    }
}

/// Appending a node that is its own parent adds one root.
pub proof fn lemma_root_count_push_root(parent: Seq<usize>)
    requires
        parent.len() < usize::MAX,
    ensures
        root_count(parent.push(parent.len() as usize)) == root_count(parent) + 1,
{
    assert(parent.push(parent.len() as usize).drop_last() =~= parent);
}

/// What holds of the root of any node.
pub proof fn lemma_root_of(parent: Seq<usize>, rank: Seq<usize>, i: int)
    requires
        is_forest(parent, rank),
        0 <= i < parent.len(),
    ensures
        0 <= root_of(parent, rank, i) < parent.len(),
        parent[root_of(parent, rank, i)] == root_of(parent, rank, i),
        root_of(parent, rank, root_of(parent, rank, i)) == root_of(parent, rank, i),
        rank[i] <= rank[root_of(parent, rank, i)],
        parent[i] != i ==> rank[i] < rank[root_of(parent, rank, i)],
        parent[i] == i ==> root_of(parent, rank, i) == i,
    decreases parent.len() - rank[i],
{
    if parent[i] != i {
        lemma_root_of(parent, rank, parent[i] as int);
    }
}

/// Pointing a node straight at its root keeps the forest and every root.
pub proof fn lemma_compress(parent: Seq<usize>, rank: Seq<usize>, x: int)
    requires
        is_forest(parent, rank),
        0 <= x < parent.len(),
    ensures
        is_forest(parent.update(x, root_of(parent, rank, x) as usize), rank),
        forall|i: int|
            0 <= i < parent.len() ==> #[trigger] root_of(
                parent.update(x, root_of(parent, rank, x) as usize),
                rank,
                i,
            ) == root_of(parent, rank, i),
{
    let r = root_of(parent, rank, x);
    let compressed = parent.update(x, r as usize);
    lemma_root_of(parent, rank, x);
    lemma_root_count_update(parent, x, r as usize);
    assert(is_forest(compressed, rank));
    assert forall|i: int| 0 <= i < parent.len() implies #[trigger] root_of(compressed, rank, i)
        == root_of(parent, rank, i) by {
        lemma_compress_keeps_root(parent, rank, x, i);
    }
}

proof fn lemma_compress_keeps_root(parent: Seq<usize>, rank: Seq<usize>, x: int, i: int)
    requires
        is_forest(parent, rank),
        is_forest(parent.update(x, root_of(parent, rank, x) as usize), rank),
        0 <= x < parent.len(),
        0 <= i < parent.len(),
    ensures
        root_of(parent.update(x, root_of(parent, rank, x) as usize), rank, i) == root_of(
            parent,
            rank,
            i,
        ),
    decreases parent.len() - rank[i],
{
    let r = root_of(parent, rank, x);
    let compressed = parent.update(x, r as usize);
    lemma_root_of(parent, rank, x);
    if i == x {
        if r != x {
            assert(compressed[r] == r);
            assert(root_of(compressed, rank, r) == r);
        }
    } else if parent[i] != i {
        lemma_compress_keeps_root(parent, rank, x, parent[i] as int);
    }
}

/// The ranks after root `loser` has been hung under root `winner`: a tie
/// raises the winner's rank by one.
pub open spec fn linked_rank(rank: Seq<usize>, winner: int, loser: int) -> Seq<usize> {
    if rank[winner] == rank[loser] {
        rank.update(winner, (rank[winner] + 1) as usize)
    } else {
        rank
    }
}

/// Hanging one root under another of no smaller rank keeps the forest, and
/// moves exactly the nodes of the loser's tree to the winner.
pub proof fn lemma_link(parent: Seq<usize>, rank: Seq<usize>, winner: int, loser: int)
    requires
        is_forest(parent, rank),
        0 <= winner < parent.len(),
        0 <= loser < parent.len(),
        winner != loser,
        parent[winner] == winner,
        parent[loser] == loser,
        rank[loser] <= rank[winner],
        parent.len() <= usize::MAX,
    ensures
        rank[winner] + 1 <= usize::MAX,
        is_forest(parent.update(loser, winner as usize), linked_rank(rank, winner, loser)),
        forall|i: int|
            0 <= i < parent.len() ==> #[trigger] root_of(
                parent.update(loser, winner as usize),
                linked_rank(rank, winner, loser),
                i,
            ) == if root_of(parent, rank, i) == loser {
                winner
            } else {
                root_of(parent, rank, i)
            },
{
    let linked = parent.update(loser, winner as usize);
    let ranks = linked_rank(rank, winner, loser);
    lemma_root_count_update(parent, loser, winner as usize);
    lemma_root_count_positive(parent, winner);
    assert(rank[winner] + root_count(parent) <= parent.len());
    assert(is_forest(linked, ranks)) by {
        assert forall|i: int| 0 <= i < linked.len() && (#[trigger] linked[i]) != i implies ranks[i]
            < ranks[linked[i] as int] by {
            if i != loser {
                assert(parent[i] != i);
                assert(rank[i] < rank[parent[i] as int]);
            }
        }
        assert forall|i: int| 0 <= i < linked.len() implies (#[trigger] ranks[i]) + root_count(linked)
            <= linked.len() by {
            assert(rank[i] + root_count(parent) <= parent.len());
        }
    }
    assert forall|i: int| 0 <= i < parent.len() implies #[trigger] root_of(linked, ranks, i) == if root_of(
        parent,
        rank,
        i,
    ) == loser {
        winner
    } else {
        root_of(parent, rank, i)
    } by {
        lemma_link_moves_root(parent, rank, winner, loser, i);
    }
}

proof fn lemma_link_moves_root(
    parent: Seq<usize>,
    rank: Seq<usize>,
    winner: int,
    loser: int,
    i: int,
)
    requires
        is_forest(parent, rank),
        is_forest(parent.update(loser, winner as usize), linked_rank(rank, winner, loser)),
        0 <= winner < parent.len(),
        0 <= loser < parent.len(),
        winner != loser,
        parent[winner] == winner,
        parent[loser] == loser,
        0 <= i < parent.len(),
        parent.len() <= usize::MAX,
    ensures
        root_of(parent.update(loser, winner as usize), linked_rank(rank, winner, loser), i) == if root_of(
            parent,
            rank,
            i,
        ) == loser {
            winner
        } else {
            root_of(parent, rank, i)
        },
    decreases parent.len() - rank[i],
{
    let linked = parent.update(loser, winner as usize);
    let ranks = linked_rank(rank, winner, loser);
    if i == loser {
        assert(linked[winner] == winner);
        assert(root_of(linked, ranks, winner) == winner);
    } else if parent[i] != i {
        lemma_link_moves_root(parent, rank, winner, loser, parent[i] as int);
    }
}

/// Appending a fresh root of rank zero keeps the forest and every root.
pub proof fn lemma_grow(parent: Seq<usize>, rank: Seq<usize>)
    requires
        is_forest(parent, rank),
        parent.len() < usize::MAX,
    ensures
        is_forest(parent.push(parent.len() as usize), rank.push(0)),
        root_of(parent.push(parent.len() as usize), rank.push(0), parent.len() as int)
            == parent.len(),
        forall|i: int|
            0 <= i < parent.len() ==> #[trigger] root_of(
                parent.push(parent.len() as usize),
                rank.push(0),
                i,
            ) == root_of(parent, rank, i),
{
    let grown = parent.push(parent.len() as usize);
    let ranks = rank.push(0);
    lemma_root_count_push_root(parent);
    lemma_root_count_bound(parent);
    assert(is_forest(grown, ranks)) by {
        assert forall|i: int| 0 <= i < grown.len() implies (#[trigger] grown[i]) < grown.len() by {
            if i < parent.len() {
                assert(grown[i] == parent[i]);
            }
        }
        assert forall|i: int| 0 <= i < grown.len() && (#[trigger] grown[i]) != i implies ranks[i]
            < ranks[grown[i] as int] by {
            assert(grown[i] == parent[i]);
            assert(rank[i] < rank[parent[i] as int]);
        }
        assert forall|i: int| 0 <= i < grown.len() implies (#[trigger] ranks[i]) + root_count(grown)
            <= grown.len() by {
            if i < parent.len() {
                assert(rank[i] + root_count(parent) <= parent.len());
            }
        }
    }
    assert forall|i: int| 0 <= i < parent.len() implies #[trigger] root_of(grown, ranks, i)
        == root_of(parent, rank, i) by {
        lemma_grow_keeps_root(parent, rank, i);
    }
}

proof fn lemma_grow_keeps_root(parent: Seq<usize>, rank: Seq<usize>, i: int)
    requires
        is_forest(parent, rank),
        is_forest(parent.push(parent.len() as usize), rank.push(0)),
        0 <= i < parent.len(),
    ensures
        root_of(parent.push(parent.len() as usize), rank.push(0), i) == root_of(parent, rank, i),
    decreases parent.len() - rank[i],
{
    let grown = parent.push(parent.len() as usize);
    let ranks = rank.push(0);
    assert(grown[i] == parent[i]);
    assert(ranks[i] == rank[i]);
    if parent[i] != i {
        lemma_grow_keeps_root(parent, rank, parent[i] as int);
    }
}

} // verus!
