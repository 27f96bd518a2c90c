//! A disjoint-set structure over tags, with path compression and union by
//! rank.
//!
//! Every registered tag owns one slot. `parent` and `rank` form a forest over
//! the slots; `id_to_index` and `index_to_set` lead from tags to slots and
//! back. What the structure means is a
//! [`Partition`]: its view.

use crate::forest::{
    is_forest, lemma_compress, lemma_grow, lemma_link, lemma_root_of, linked_rank, root_of,
};
use crate::partition::Partition;
use crate::tagger::{Id, Tagger};
use std::collections::HashMap;
use vstd::prelude::*;

verus! {

/// Disjoint sets of tags. Each set has a leader; two tags are in one set
/// exactly when [`UnionFind::find`] gives both the same leader.
pub struct UnionFind {
    id_to_index: HashMap<Id, usize>,
    index_to_set: Vec<Id>,
    parent: Vec<usize>,
    rank: Vec<usize>,
    tagger: Tagger,
}

impl View for UnionFind {
    type V = Partition;

    /// The partition that the structure stands for: a tag's leader is the tag
    /// at the root of its slot's tree, and its rank is the rank of its slot.
    closed spec fn view(&self) -> Partition {
        Partition {
            leader: Map::new(
                |t: Id| self.id_to_index@.contains_key(t),
                |t: Id| self.index_to_set@[self.root_slot(t)],
            ),
            rank: Map::new(
                |t: Id| self.id_to_index@.contains_key(t),
                |t: Id| self.rank@[self.id_to_index@[t] as int] as nat,
            ),
        }
    }
}

impl UnionFind {
    /// The slot at the root of the tree that holds the slot of `tag`.
    spec fn root_slot(&self, tag: Id) -> int {
        root_of(self.parent@, self.rank@, self.id_to_index@[tag] as int)
    }

    /// The slots form a forest, and tags and slots correspond one to one.
    pub closed spec fn wf(&self) -> bool {
        &&& is_forest(self.parent@, self.rank@)
        &&& self.index_to_set@.len() == self.parent@.len()
        &&& forall|t: Id| #[trigger]
            self.id_to_index@.contains_key(t) ==> self.id_to_index@[t] < self.parent@.len()
                && self.index_to_set@[self.id_to_index@[t] as int] == t
        &&& forall|i: int|
            0 <= i < self.parent@.len() ==> self.id_to_index@.contains_key(
                #[trigger] self.index_to_set@[i],
            ) && self.id_to_index@[self.index_to_set@[i]] == i
    }

    /// The number of tags that [`UnionFind::make_set`] has issued, which is
    /// also the tag that it issues next.
    pub closed spec fn issued(&self) -> Id {
        self.tagger.issued()
    }

    /// `self` differs from `other` at most in how far paths are compressed:
    /// every slot has the same root in both.
    spec fn same_sets(&self, other: &UnionFind) -> bool {
        &&& self.id_to_index@ == other.id_to_index@
        &&& self.index_to_set@ == other.index_to_set@
        &&& self.rank@ == other.rank@
        &&& self.tagger == other.tagger
        &&& self.parent@.len() == other.parent@.len()
        &&& forall|i: int|
            0 <= i < self.parent@.len() ==> #[trigger] root_of(self.parent@, self.rank@, i)
                == root_of(other.parent@, other.rank@, i)
    }

    proof fn lemma_same_sets_same_view(&self, other: &UnionFind)
        requires
            self.wf(),
            other.wf(),
            self.same_sets(other),
        ensures
            self@ == other@,
    {
        assert(self@.leader =~= other@.leader);
        assert(self@.rank =~= other@.rank);
    }

    /// The view of a well-formed structure is a well-formed partition.
    pub proof fn lemma_view_wf(&self)
        requires
            self.wf(),
        ensures
            self@.wf(),
    {
        let p = self@;
        assert(p.rank.dom() =~= p.leader.dom());
        assert forall|t: Id| #[trigger] p.contains(t) implies p.contains(p.leader[t])
            && p.leader[p.leader[t]] == p.leader[t] by {
            let i = self.id_to_index@[t] as int;
            lemma_root_of(self.parent@, self.rank@, i);
            let r = root_of(self.parent@, self.rank@, i);
            assert(self.id_to_index@[self.index_to_set@[r]] == r);
        }
    }

    /// Executable form of [`UnionFind::issued`].
    pub fn issued_count(&self) -> (n: Id)
        ensures
            n == self.issued(),
    {
        self.tagger.count()
    }

    /// Creates an empty structure.
    pub fn new() -> (uf: Self)
        ensures
            uf.wf(),
            uf@ == Partition::empty(),
            uf.issued() == 0,
    {
        let uf = Self {
            id_to_index: HashMap::new(),
            index_to_set: Vec::new(),
            parent: Vec::new(),
            rank: Vec::new(),
            tagger: Tagger::new(),
        };
        proof {
            assert(uf@.leader =~= Partition::empty().leader);
            assert(uf@.rank =~= Partition::empty().rank);
        }
        uf
    }

    /// Issues a fresh tag and registers it.
    pub fn make_set(&mut self) -> (id: Id)
        requires
            old(self).wf(),
            old(self).issued() < u64::MAX,
        ensures
            final(self).wf(),
            id == old(self).issued(),
            final(self).issued() == old(self).issued() + 1,
            final(self)@ == old(self)@.introduce(id),
    {
        let id = self.tagger.tag();
        proof {
            assert(self@.leader =~= old(self)@.leader);
            assert(self@.rank =~= old(self)@.rank);
        }
        self.introduce_tag(id)
    }

    /// Registers `id` as a class of its own, unless it is registered
    /// already, and returns it.
    pub fn introduce_tag(&mut self, id: Id) -> (same: Id)
        requires
            old(self).wf(),
        ensures
            final(self).wf(),
            same == id,
            final(self).issued() == old(self).issued(),
            final(self)@ == old(self)@.introduce(id),
    {
        if self.id_to_index.contains_key(&id) {
            return id;
        }
        let index = self.parent.len();
        self.id_to_index.insert(id, index);
        self.index_to_set.push(id);
        self.parent.push(index);
        self.rank.push(0);
        proof {
            let before = *old(self);
            assert(self.parent@.len() == self.parent.len());
            lemma_grow(before.parent@, before.rank@);
            assert forall|i: int| 0 <= i < self.parent@.len() implies self.id_to_index@.contains_key(
                #[trigger] self.index_to_set@[i],
            ) && self.id_to_index@[self.index_to_set@[i]] == i by {
                if i < index {
                    assert(self.index_to_set@[i] == before.index_to_set@[i]);
                    assert(before.id_to_index@.contains_key(before.index_to_set@[i]));
                }
            }
            assert(self.wf());
            let grown = before@.introduce(id);
            assert forall|t: Id| grown.leader.dom().contains(t) implies #[trigger] self@.leader[t]
                == grown.leader[t] by {
                if t != id {
                    let i = before.id_to_index@[t] as int;
                    lemma_root_of(before.parent@, before.rank@, i);
                    assert(root_of(self.parent@, self.rank@, i) == root_of(
                        before.parent@,
                        before.rank@,
                        i,
                    ));
                }
            }
            assert(self@.leader =~= grown.leader);
            assert(self@.rank =~= grown.rank);
        }
        id
    }

    fn get_index(&self, id: &Id) -> (index: Option<usize>)
        requires
            self.wf(),
        ensures
            index == if self.id_to_index@.contains_key(*id) {
                Some(self.id_to_index@[*id])
            } else {
                None
            },
            index.is_some() == self@.contains(*id),
    {
        match self.id_to_index.get(id) {
            Some(index) => Some(*index),
            None => None,
        }
    }

    /// Whether `tag` is registered.
    pub fn contains(&self, tag: &Id) -> (known: bool)
        requires
            self.wf(),
        ensures
            known == self@.contains(*tag),
    {
        self.id_to_index.contains_key(tag)
    }

    /// The leader of the class of `tag`, or `None` if `tag` is not
    /// registered. Compresses the path from `tag` to its leader, which
    /// changes no class and no leader.
    pub fn find(&mut self, tag: &Id) -> (leader: Option<Id>)
        requires
            old(self).wf(),
        ensures
            final(self).wf(),
            final(self)@ == old(self)@,
            final(self).issued() == old(self).issued(),
            leader == old(self)@.find(*tag),
    {
        let index = match self.get_index(tag) {
            Some(index) => index,
            None => {
                return None;
            },
        };
        let leader_index = self.find_index(index);
        proof {
            lemma_root_of(old(self).parent@, old(self).rank@, index as int);
            self.lemma_same_sets_same_view(old(self));
        }
        Some(self.index_to_set[leader_index])
    }

    /// The leader of the class of `tag`, or `None` if `tag` is not
    /// registered. Unlike [`UnionFind::find`] it leaves the structure as it
    /// is.
    pub fn leader_of(&self, tag: &Id) -> (leader: Option<Id>)
        requires
            self.wf(),
        ensures
            leader == self@.find(*tag),
    {
        let mut index = match self.get_index(tag) {
            Some(index) => index,
            None => {
                return None;
            },
        };
        let ghost start = index as int;
        while self.parent[index] != index
            invariant
                self.wf(),
                index < self.parent@.len(),
                root_of(self.parent@, self.rank@, index as int) == root_of(
                    self.parent@,
                    self.rank@,
                    start,
                ),
            decreases self.parent@.len() - self.rank@[index as int],
        {
            index = self.parent[index];
        }
        Some(self.index_to_set[index])
    }

    /// Merges the classes of `t1` and `t2` and returns the surviving leader,
    /// or returns `None` and changes nothing if either tag is not
    /// registered. The leader of greater rank survives; on a tie the leader
    /// of `t1` survives and its rank grows by one.
    pub fn union_tags(&mut self, t1: &Id, t2: &Id) -> (leader: Option<Id>)
        requires
            old(self).wf(),
        ensures
            final(self).wf(),
            final(self).issued() == old(self).issued(),
            final(self)@ == old(self)@.merged(*t1, *t2),
            leader == old(self)@.union_result(*t1, *t2),
    {
        let i1 = match self.get_index(t1) {
            Some(index) => index,
            None => {
                return None;
            },
        };
        let i2 = match self.get_index(t2) {
            Some(index) => index,
            None => {
                return None;
            },
        };
        let leader_index = self.union_indices(i1, i2);
        proof {
            self.lemma_linked_view(old(self), i1 as int, i2 as int);
        }
        Some(self.index_to_set[leader_index])
    }

    /// Finds the root of slot `x` and points every slot on the way straight
    /// at it.
    fn find_index(&mut self, x: usize) -> (root: usize)
        requires
            old(self).wf(),
            x < old(self).parent@.len(),
        ensures
            final(self).wf(),
            final(self).same_sets(old(self)),
            root == root_of(old(self).parent@, old(self).rank@, x as int),
        decreases old(self).parent@.len() - old(self).rank@[x as int],
    {
        let up = self.parent[x];
        if up != x {
            let root = self.find_index(up);
            proof {
                lemma_compress(self.parent@, self.rank@, x as int);
            }
            self.parent[x] = root;
        }
        proof {
            lemma_root_of(self.parent@, self.rank@, x as int);
        }
        self.parent[x]
    }

    /// How the slots of `self` relate to those of `before` after the trees
    /// of slots `x` and `y` have been joined by rank.
    spec fn linked(&self, before: &UnionFind, x: int, y: int) -> bool {
        let rx = root_of(before.parent@, before.rank@, x);
        let ry = root_of(before.parent@, before.rank@, y);
        let winner = if before.rank@[rx] < before.rank@[ry] {
            ry
        } else {
            rx
        };
        let loser = if winner == rx {
            ry
        } else {
            rx
        };
        &&& self.id_to_index@ == before.id_to_index@
        &&& self.index_to_set@ == before.index_to_set@
        &&& self.tagger == before.tagger
        &&& self.parent@.len() == before.parent@.len()
        &&& self.rank@ == if rx == ry {
            before.rank@
        } else {
            linked_rank(before.rank@, winner, loser)
        }
        &&& forall|i: int|
            0 <= i < self.parent@.len() ==> #[trigger] root_of(self.parent@, self.rank@, i) == if rx
                != ry && root_of(before.parent@, before.rank@, i) == loser {
                winner
            } else {
                root_of(before.parent@, before.rank@, i)
            }
    }

    proof fn lemma_linked_view(&self, before: &UnionFind, x: int, y: int)
        requires
            self.wf(),
            before.wf(),
            0 <= x < before.parent@.len(),
            0 <= y < before.parent@.len(),
            self.linked(before, x, y),
        ensures
            self@ == before@.merged(before.index_to_set@[x], before.index_to_set@[y]),
            before@.union_result(before.index_to_set@[x], before.index_to_set@[y]) == Some(
                before.index_to_set@[if before.rank@[root_of(before.parent@, before.rank@, x)]
                    < before.rank@[root_of(before.parent@, before.rank@, y)] {
                    root_of(before.parent@, before.rank@, y)
                } else {
                    root_of(before.parent@, before.rank@, x)
                }],
            ),
    {
        let a = before.index_to_set@[x];
        let b = before.index_to_set@[y];
        let rx = root_of(before.parent@, before.rank@, x);
        let ry = root_of(before.parent@, before.rank@, y);
        lemma_root_of(before.parent@, before.rank@, x);
        lemma_root_of(before.parent@, before.rank@, y);
        let la = before.index_to_set@[rx];
        let lb = before.index_to_set@[ry];
        assert(before.id_to_index@[a] == x);
        assert(before.id_to_index@[b] == y);
        assert(before.id_to_index@[la] == rx);
        assert(before.id_to_index@[lb] == ry);
        assert(before@.leader[a] == la);
        assert(before@.leader[b] == lb);
        assert(before@.rank[la] == before.rank@[rx]);
        assert(before@.rank[lb] == before.rank@[ry]);
        let target = before@.merged(a, b);
        if rx == ry {
            assert(self@.leader =~= target.leader);
            assert(self@.rank =~= target.rank);
        } else {
            assert(la != lb);
            let winner = if before.rank@[rx] < before.rank@[ry] {
                ry
            } else {
                rx
            };
            let loser = if winner == rx {
                ry
            } else {
                rx
            };
            assert(before.id_to_index@[before.index_to_set@[winner]] == winner);
            assert(before.id_to_index@[before.index_to_set@[loser]] == loser);
            assert(before.parent@.len() == before.parent.len());
            lemma_link(before.parent@, before.rank@, winner, loser);
            assert forall|t: Id| target.leader.dom().contains(t) implies #[trigger] self@.leader[t]
                == target.leader[t] by {
                let i = before.id_to_index@[t] as int;
                lemma_root_of(before.parent@, before.rank@, i);
                let r = root_of(before.parent@, before.rank@, i);
                assert(before.id_to_index@[before.index_to_set@[r]] == r);
            }
            assert(self@.leader =~= target.leader);
            assert forall|t: Id| target.rank.dom().contains(t) implies #[trigger] self@.rank[t]
                == target.rank[t] by {
                let i = before.id_to_index@[t] as int;
                assert(before.index_to_set@[i] == t);
            }
            assert(self@.rank =~= target.rank);
        }
    }

    /// Joins the trees of slots `x` and `y` by rank and returns the root of
    /// the joined tree.
    fn union_indices(&mut self, x: usize, y: usize) -> (root: usize)
        requires
            old(self).wf(),
            x < old(self).parent@.len(),
            y < old(self).parent@.len(),
        ensures
            final(self).wf(),
            final(self).linked(old(self), x as int, y as int),
            root < old(self).parent@.len(),
            root == if old(self).rank@[root_of(old(self).parent@, old(self).rank@, x as int)]
                < old(self).rank@[root_of(old(self).parent@, old(self).rank@, y as int)] {
                root_of(old(self).parent@, old(self).rank@, y as int)
            } else {
                root_of(old(self).parent@, old(self).rank@, x as int)
            },
    {
        let x_root = self.find_index(x);
        let y_root = self.find_index(y);
        proof {
            lemma_root_of(old(self).parent@, old(self).rank@, x as int);
            lemma_root_of(old(self).parent@, old(self).rank@, y as int);
            lemma_root_of(self.parent@, self.rank@, x_root as int);
            lemma_root_of(self.parent@, self.rank@, y_root as int);
        }
        if x_root == y_root {
            return x_root;
        }
        proof {
            assert(self.parent@.len() == self.parent.len());
        }
        // Union towards larger rank
        if self.rank[x_root] < self.rank[y_root] {
            proof {
                lemma_link(self.parent@, self.rank@, y_root as int, x_root as int);
            }
            self.parent[x_root] = y_root;
            y_root
        } else if self.rank[x_root] > self.rank[y_root] {
            proof {
                lemma_link(self.parent@, self.rank@, x_root as int, y_root as int);
            }
            self.parent[y_root] = x_root;
            x_root
        } else {
            proof {
                lemma_link(self.parent@, self.rank@, x_root as int, y_root as int);
            }
            self.parent[y_root] = x_root;
            self.rank[x_root] += 1;
            x_root
        }
    }
}

} // verus!
