//! The mathematical model of a disjoint-set structure, and the laws of its
//! operations.
//!
//! A [`Partition`] maps every registered tag to the leader of its class and to
//! a rank. Two tags are in the same class exactly when they have the same
//! leader. The executable structure in [`crate::union_find`] is specified by
//! the functions of this module.

use crate::tagger::Id;
use vstd::prelude::*;

verus! {

/// A partition of a set of tags into classes, each with a leader.
pub struct Partition {
    /// The leader of the class of every registered tag.
    pub leader: Map<Id, Id>,
    /// The rank of every registered tag. Only the ranks of leaders decide
    /// anything: they settle which leader survives a union.
    pub rank: Map<Id, nat>,
}

/// One change to a partition.
pub enum Change {
    /// Registration of a tag.
    Introduce(Id),
    /// Union of the classes of two tags.
    Union(Id, Id),
}

impl Partition {
    /// The partition of no tags.
    pub open spec fn empty() -> Partition {
        Partition { leader: Map::empty(), rank: Map::empty() }
    }

    /// `tag` is registered.
    pub open spec fn contains(self, tag: Id) -> bool {
        self.leader.dom().contains(tag)
    }

    /// Every leader is registered and leads itself, and ranks are kept for
    /// exactly the registered tags.
    pub open spec fn wf(self) -> bool {
        &&& self.rank.dom() == self.leader.dom()
        &&& forall|t: Id| #[trigger]
            self.contains(t) ==> self.contains(self.leader[t]) && self.leader[self.leader[t]]
                == self.leader[t]
    }

    /// The leader of the class of `tag`, if `tag` is registered.
    pub open spec fn find(self, tag: Id) -> Option<Id> {
        if self.contains(tag) {
            Some(self.leader[tag])
        } else {
            None
        }
    }

    /// `a` and `b` are registered and in one class.
    pub open spec fn same_class(self, a: Id, b: Id) -> bool {
        self.contains(a) && self.contains(b) && self.leader[a] == self.leader[b]
    }

    /// Registers `tag` as a class of its own, unless it is registered already.
    pub open spec fn introduce(self, tag: Id) -> Partition {
        if self.contains(tag) {
            self
        } else {
            Partition { leader: self.leader.insert(tag, tag), rank: self.rank.insert(tag, 0) }
        }
    }

    /// The leader that survives a union of the classes of `a` and `b`: the
    /// one of greater rank, and the leader of `a` on a tie.
    pub open spec fn union_leader(self, a: Id, b: Id) -> Id {
        let la = self.leader[a];
        let lb = self.leader[b];
        if self.rank[la] < self.rank[lb] {
            lb
        } else {
            la
        }
    }

    /// The result of a union on `a` and `b`: the surviving leader, if both
    /// tags are registered.
    pub open spec fn union_result(self, a: Id, b: Id) -> Option<Id> {
        if self.contains(a) && self.contains(b) {
            Some(self.union_leader(a, b))
        } else {
            None
        }
    }

    /// The partition after a union of the classes of `a` and `b`. Nothing
    /// changes if either tag is unregistered or both are in one class
    /// already. Otherwise every tag led by the losing leader is now led by
    /// the surviving one, whose rank grows by one if the ranks were tied.
    pub open spec fn merged(self, a: Id, b: Id) -> Partition {
        if self.contains(a) && self.contains(b) && self.leader[a] != self.leader[b] {
            let la = self.leader[a];
            let lb = self.leader[b];
            let winner = self.union_leader(a, b);
            let loser = if winner == la {
                lb
            } else {
                la
            };
            Partition {
                leader: Map::new(
                    |t: Id| self.contains(t),
                    |t: Id|
                        if self.leader[t] == loser {
                            winner
                        } else {
                            self.leader[t]
                        },
                ),
                rank: if self.rank[la] == self.rank[lb] {
                    self.rank.insert(winner, self.rank[winner] + 1)
                } else {
                    self.rank
                },
            }
        } else {
            self
        }
    }

    /// The partition after one change.
    pub open spec fn changed(self, change: Change) -> Partition {
        match change {
            Change::Introduce(t) => self.introduce(t),
            Change::Union(a, b) => self.merged(a, b),
        }
    }

    /// The partition after a sequence of changes, applied in order.
    pub open spec fn changed_by(self, changes: Seq<Change>) -> Partition
        decreases changes.len(),
    {
        if changes.len() == 0 {
            self
        } else {
            self.changed_by(changes.drop_last()).changed(changes.last())
        }
    }
}

/// Registration keeps a partition well formed, leaves every class as it was
/// and, for a new tag, adds exactly the class that holds the tag alone.
pub proof fn law_introduce(p: Partition, tag: Id)
    requires
        p.wf(),
    ensures
        p.introduce(tag).wf(),
        p.introduce(tag).contains(tag),
        !p.contains(tag) ==> p.introduce(tag).find(tag) == Some(tag),
        forall|t: Id| p.contains(t) ==> p.introduce(tag).find(t) == p.find(t),
        forall|t: Id| #[trigger] p.introduce(tag).contains(t) <==> p.contains(t) || t == tag,
{
    let q = p.introduce(tag);
    if !p.contains(tag) {
        assert(q.rank.dom() =~= q.leader.dom());
        assert forall|t: Id| #[trigger] q.contains(t) implies q.contains(q.leader[t])
            && q.leader[q.leader[t]] == q.leader[t] by {
            if t != tag {
                assert(p.contains(t));
            }
        }
    }
}

/// Registering a tag twice is the same as registering it once.
pub proof fn law_introduce_idempotent(p: Partition, tag: Id)
    ensures
        p.introduce(tag).introduce(tag) == p.introduce(tag),
{
}

/// A union keeps a partition well formed and registers nothing.
pub proof fn law_merged_wf(p: Partition, a: Id, b: Id)
    requires
        p.wf(),
    ensures
        p.merged(a, b).wf(),
        forall|t: Id| #[trigger] p.merged(a, b).contains(t) <==> p.contains(t),
{
    let q = p.merged(a, b);
    if p.contains(a) && p.contains(b) && p.leader[a] != p.leader[b] {
        let winner = p.union_leader(a, b);
        assert(p.contains(winner));
        assert(q.leader.dom() =~= p.leader.dom());
        assert(q.rank.dom() =~= p.rank.dom());
        assert forall|t: Id| #[trigger] q.contains(t) implies q.contains(q.leader[t])
            && q.leader[q.leader[t]] == q.leader[t] by {
            assert(p.contains(t));
            assert(p.contains(p.leader[t]));
        }
    }
}

/// After a union of two registered tags both are in one class, led by the
/// leader that the tie-break rule names.
pub proof fn law_merged_joins(p: Partition, a: Id, b: Id)
    requires
        p.wf(),
        p.contains(a),
        p.contains(b),
    ensures
        p.merged(a, b).same_class(a, b),
        p.merged(a, b).find(a) == Some(p.union_leader(a, b)),
        p.merged(a, b).find(b) == Some(p.union_leader(a, b)),
{
}

/// A union joins the two classes it is asked to join and changes no other:
/// two tags share a class afterwards exactly if they shared one before, or
/// one was with `a` and the other with `b`.
pub proof fn law_merged_exact(p: Partition, a: Id, b: Id, x: Id, y: Id)
    requires
        p.wf(),
        p.contains(a),
        p.contains(b),
    ensures
        p.merged(a, b).same_class(x, y) <==> p.same_class(x, y) || (p.same_class(x, a)
            && p.same_class(y, b)) || (p.same_class(x, b) && p.same_class(y, a)),
{
}

/// No change ever splits a class or forgets a tag.
pub proof fn law_change_never_splits(p: Partition, change: Change, x: Id, y: Id)
    requires
        p.wf(),
        p.same_class(x, y),
    ensures
        p.changed(change).wf(),
        p.changed(change).same_class(x, y),
{
    match change {
        Change::Introduce(t) => {
            law_introduce(p, t);
        },
        Change::Union(a, b) => {
            law_merged_wf(p, a, b);
        },
    }
}

/// Changes keep a partition well formed.
pub proof fn law_changes_wf(p: Partition, changes: Seq<Change>)
    requires
        p.wf(),
    ensures
        p.changed_by(changes).wf(),
    decreases changes.len(),
{
    if changes.len() > 0 {
        law_changes_wf(p, changes.drop_last());
        let q = p.changed_by(changes.drop_last());
        match changes.last() {
            Change::Introduce(t) => {
                law_introduce(q, t);
            },
            Change::Union(a, b) => {
                law_merged_wf(q, a, b);
            },
        }
    }
}

/// Two tags that share a class share it after any further changes: classes
/// only ever grow.
pub proof fn law_classes_only_grow(p: Partition, changes: Seq<Change>, x: Id, y: Id)
    requires
        p.wf(),
        p.same_class(x, y),
    ensures
        p.changed_by(changes).same_class(x, y),
    decreases changes.len(),
{
    if changes.len() > 0 {
        law_classes_only_grow(p, changes.drop_last(), x, y);
        law_changes_wf(p, changes.drop_last());
        law_change_never_splits(p.changed_by(changes.drop_last()), changes.last(), x, y);
    }
}

/// Sharing a class is reflexive on registered tags, symmetric and transitive.
pub proof fn law_same_class_is_equivalence(p: Partition, a: Id, b: Id, c: Id)
    ensures
        p.contains(a) ==> p.same_class(a, a),
        p.same_class(a, b) ==> p.same_class(b, a),
        p.same_class(a, b) && p.same_class(b, c) ==> p.same_class(a, c),
        p.same_class(a, b) <==> p.find(a).is_some() && p.find(a) == p.find(b),
{
}

/// Interaction is transitive: once a union of `a` with `b` and later a union
/// of `b` with `c` have taken place, `a` and `c` have the same leader,
/// whatever changes came before, between and after the two.
pub proof fn law_interaction_transitive(
    p: Partition,
    a: Id,
    b: Id,
    c: Id,
    between: Seq<Change>,
    after: Seq<Change>,
)
    requires
        p.wf(),
        p.contains(a),
        p.contains(b),
        p.contains(c),
    ensures
        ({
            let q = p.merged(a, b).changed_by(between).merged(b, c).changed_by(after);
            q.find(a).is_some() && q.find(a) == q.find(c)
        }),
{
    let joined = p.merged(a, b);
    law_merged_wf(p, a, b);
    law_merged_joins(p, a, b);
    let later = joined.changed_by(between);
    law_changes_wf(joined, between);
    law_classes_only_grow(joined, between, a, b);
    law_classes_only_grow(joined, between, c, c);
    let both = later.merged(b, c);
    law_merged_wf(later, b, c);
    law_merged_joins(later, b, c);
    law_merged_exact(later, b, c, a, c);
    assert(both.same_class(a, c));
    law_classes_only_grow(both, after, a, c);
}

} // verus!
