//! Sites: named program locations that observe which variable is bound to
//! which tag, and fold what they observed into a partition of the variables.
//!
//! What a site means is a [`SiteView`]; [`crate::site_view`] holds the laws
//! of folding.

use crate::partition::law_introduce;
use crate::site_view::{law_fold_never_splits, law_observe_all_wf, lemma_slot, SiteView};
use crate::tagged_value::TaggedValue;
use crate::tagger::Id;
use crate::text::{append_decimal, decimal};
use crate::union_find::UnionFind;
use vstd::prelude::*;
use vstd::string::StringExecFns;

verus! {

/// The tag of an observation that the ledger does not know.
#[derive(Clone, Copy, Debug, PartialEq, Eq, Structural)]
pub struct UnregisteredTag {
    pub tag: Id,
}

/// One program location: what was bound there, and the partition of the
/// variables that follows from it.
pub struct Site {
    type_uf: UnionFind,
    var_tags: Vec<(String, Id)>,
    observed_var_tags: Vec<(String, Id)>,
    name: String,
}

/// The entries of a list of bindings, each name as its text.
spec fn pairs(entries: Seq<(String, Id)>) -> Seq<(Seq<char>, Id)> {
    Seq::new(entries.len(), |i: int| (entries[i].0@, entries[i].1))
}

impl View for Site {
    type V = SiteView;

    closed spec fn view(&self) -> SiteView {
        SiteView {
            name: self.name@,
            observed: pairs(self.observed_var_tags@),
            vars: pairs(self.var_tags@),
            classes: self.type_uf@,
        }
    }
}

/// Finds the position of `name` among `vars`.
fn position(vars: &Vec<(String, Id)>, name: &String) -> (slot: Option<usize>)
    ensures
        match slot {
            Some(k) => k < vars@.len() && vars@[k as int].0@ == name@,
            None => forall|i: int| 0 <= i < vars@.len() ==> vars@[i].0@ != name@,
        },
{
    let mut k: usize = 0;
    while k < vars.len()
        invariant
            k <= vars@.len(),
            forall|i: int| 0 <= i < k ==> vars@[i].0@ != name@,
        decreases vars@.len() - k,
    {
        if vars[k].0 == *name {
            return Some(k);
        }
        k += 1;
    }
    None
}

impl Site {
    /// The site's own structure is well formed and has never issued a tag:
    /// its elements are leaders of the ledger. The view is well formed.
    pub closed spec fn wf(&self) -> bool {
        &&& self.type_uf.wf()
        &&& self.type_uf.issued() == 0
        &&& self@.wf()
    }

    /// The view of a well-formed site is well formed.
    pub proof fn lemma_view_wf(&self)
        requires
            self.wf(),
        ensures
            self@.wf(),
    {
    }

    /// Creates the site of the given name, with nothing observed.
    pub fn new(name: &str) -> (site: Self)
        ensures
            site.wf(),
            site@ == SiteView::empty(name@),
    {
        let site = Site {
            type_uf: UnionFind::new(),
            var_tags: Vec::new(),
            observed_var_tags: Vec::new(),
            name: name.to_owned(),
        };
        proof {
            assert(site@.observed =~= Seq::empty());
            assert(site@.vars =~= Seq::empty());
        }
        site
    }

    /// The name of the site.
    pub fn name(&self) -> (name: &str)
        ensures
            name@ == self@.name,
    {
        self.name.as_str()
    }

    /// Whether the site has the given name.
    pub fn has_name(&self, name: &String) -> (same: bool)
        ensures
            same == (self@.name == name@),
    {
        self.name == *name
    }

    /// Observes that `var_name` is bound to `tv`.
    pub fn bind_param<T: Copy>(&mut self, var_name: &str, tv: &TaggedValue<T>)
        requires
            old(self).wf(),
        ensures
            final(self).wf(),
            final(self)@ == old(self)@.bound(var_name@, tv.id),
    {
        self.observed_var_tags.push((var_name.to_owned(), tv.id));
        proof {
            assert(self@.observed =~= old(self)@.observed.push((var_name@, tv.id)));
            assert(self@.vars == old(self)@.vars);
            assert(self@.classes == old(self)@.classes);
            assert(self@ == old(self)@.bound(var_name@, tv.id));
        }
    }

    /// Observes that `var_name` is bound to `tv`, and hands `tv` back.
    pub fn bind<T: Copy>(&mut self, var_name: &str, tv: TaggedValue<T>) -> (same: TaggedValue<T>)
        requires
            old(self).wf(),
        ensures
            final(self).wf(),
            final(self)@ == old(self)@.bound(var_name@, tv.id),
            same == tv,
    {
        self.observed_var_tags.push((var_name.to_owned(), tv.id));
        proof {
            assert(self@.observed =~= old(self)@.observed.push((var_name@, tv.id)));
            assert(self@.vars == old(self)@.vars);
            assert(self@.classes == old(self)@.classes);
            assert(self@ == old(self)@.bound(var_name@, tv.id));
        }
        tv
    }

    /// Looks up in the ledger the leader of every observed tag, in order.
    /// Fails on the first tag that the ledger does not know.
    fn resolve(&self, value_uf: &mut UnionFind) -> (leaders: Result<Vec<Id>, UnregisteredTag>)
        requires
            old(value_uf).wf(),
        ensures
            final(value_uf).wf(),
            final(value_uf)@ == old(value_uf)@,
            final(value_uf).issued() == old(value_uf).issued(),
            match leaders {
                Ok(leaders) => {
                    &&& self@.resolvable(old(value_uf)@)
                    &&& leaders@.len() == self@.observed.len()
                    &&& forall|i: int|
                        0 <= i < leaders@.len() ==> leaders@[i] == old(value_uf)@.leader[self@.observed[i].1]
                },
                Err(unknown) => exists|i: int|
                    {
                        &&& 0 <= i < self@.observed.len()
                        &&& self@.observed[i].1 == unknown.tag
                        &&& !old(value_uf)@.contains(unknown.tag)
                        &&& forall|j: int|
                            0 <= j < i ==> old(value_uf)@.contains(self@.observed[j].1)
                    },
            },
    {
        let mut leaders: Vec<Id> = Vec::new();
        let mut i: usize = 0;
        while i < self.observed_var_tags.len()
            invariant
                i <= self.observed_var_tags@.len(),
                self@.observed.len() == self.observed_var_tags@.len(),
                value_uf.wf(),
                value_uf@ == old(value_uf)@,
                value_uf.issued() == old(value_uf).issued(),
                leaders@.len() == i,
                forall|j: int| 0 <= j < i ==> old(value_uf)@.contains(self@.observed[j].1),
                forall|j: int|
                    0 <= j < i ==> leaders@[j] == old(value_uf)@.leader[self@.observed[j].1],
            decreases self.observed_var_tags@.len() - i,
        {
            let tag = self.observed_var_tags[i].1;
            assert(self@.observed[i as int].1 == tag);
            match value_uf.find(&tag) {
                Some(leader) => {
                    leaders.push(leader);
                },
                None => {
                    return Err(UnregisteredTag { tag });
                },
            }
            i += 1;
        }
        Ok(leaders)
    }

    /// Folds every observation, those of earlier visits included, into the
    /// partition of the variables, in the order in which they were observed.
    /// Each observed tag is resolved to its current leader in the ledger;
    /// see [`SiteView::observe`] for what one observation does.
    ///
    /// Fails, and leaves the site as it was, if the ledger does not know an
    /// observed tag; the error names the first such tag. The ledger keeps
    /// its classes either way.
    pub fn update(&mut self, value_uf: &mut UnionFind) -> (outcome: Result<(), UnregisteredTag>)
        requires
            old(self).wf(),
            old(value_uf).wf(),
        ensures
            final(self).wf(),
            final(value_uf).wf(),
            final(value_uf)@ == old(value_uf)@,
            final(value_uf).issued() == old(value_uf).issued(),
            match outcome {
                Ok(()) => {
                    &&& old(self)@.resolvable(old(value_uf)@)
                    &&& final(self)@ == old(self)@.folded(old(value_uf)@)
                },
                Err(unknown) => {
                    &&& final(self)@ == old(self)@
                    &&& exists|i: int|
                        {
                            &&& 0 <= i < old(self)@.observed.len()
                            &&& old(self)@.observed[i].1 == unknown.tag
                            &&& !old(value_uf)@.contains(unknown.tag)
                            &&& forall|j: int|
                                0 <= j < i ==> old(value_uf)@.contains(old(self)@.observed[j].1)
                        }
                },
            },
            forall|x: Seq<char>, y: Seq<char>|
                old(self)@.same_type(x, y) ==> #[trigger] final(self)@.same_type(x, y),
    {
        let leaders = match self.resolve(value_uf) {
            Ok(leaders) => leaders,
            Err(unknown) => {
                return Err(unknown);
            },
        };
        let ghost start = old(self)@;
        let ghost ledger = old(value_uf)@;
        let ghost steps = start.resolved(ledger);
        proof {
            assert(steps.take(0) =~= Seq::empty());
        }
        let mut i: usize = 0;
        while i < self.observed_var_tags.len()
            invariant
                i <= self.observed_var_tags@.len(),
                start.wf(),
                start == old(self)@,
                start.observed.len() == self.observed_var_tags@.len(),
                leaders@.len() == start.observed.len(),
                forall|j: int|
                    0 <= j < leaders@.len() ==> leaders@[j] == ledger.leader[start.observed[j].1],
                self.type_uf.wf(),
                self.type_uf.issued() == 0,
                steps == start.resolved(ledger),
                self@ == start.observe_all(steps.take(i as int)),
            decreases self.observed_var_tags@.len() - i,
        {
            let ghost before = self@;
            proof {
                law_observe_all_wf(start, steps.take(i as int));
                assert(steps.take(i + 1).drop_last() =~= steps.take(i as int));
                assert(steps.take(i + 1).last() == steps[i as int]);
            }
            let leader = self.type_uf.introduce_tag(leaders[i]);
            assert(start.observed[i as int].0 == self.observed_var_tags@[i as int].0@);
            match position(&self.var_tags, &self.observed_var_tags[i].0) {
                Some(k) => {
                    let old_rep = self.var_tags[k].1;
                    proof {
                        lemma_slot(before, k as int);
                        law_introduce(before.classes, leader);
                    }
                    let merged = self.type_uf.union_tags(&old_rep, &leader).unwrap();
                    self.var_tags[k].1 = merged;
                    proof {
                        let var = start.observed[i as int].0;
                        assert(self@.vars =~= before.vars.update(k as int, (var, merged)));
                    }
                },
                None => {
                    let name = self.observed_var_tags[i].0.clone();
                    self.var_tags.push((name, leader));
                    proof {
                        let var = start.observed[i as int].0;
                        assert(!before.knows(var));
                        assert(self@.vars =~= before.vars.push((var, leader)));
                    }
                },
            }
            i += 1;
        }
        proof {
            assert(steps.take(i as int) =~= steps);
            law_observe_all_wf(start, steps);
            assert forall|x: Seq<char>, y: Seq<char>| start.same_type(x, y) implies #[trigger] self@.same_type(
                x,
                y,
            ) by {
                law_fold_never_splits(start, ledger, x, y);
            }
        }
        Ok(())
    }

    /// The text of the site's part of a report: a line with the site's name,
    /// then for each variable a line with its name, a colon and the label of
    /// its abstract type. Labels say which variables belong together and
    /// nothing else.
    pub fn report(&self) -> (text: String)
        requires
            self.wf(),
        ensures
            text@ == self@.report(),
    {
        let mut text = self.name.clone();
        text.append("\n");
        let mut k: usize = 0;
        while k < self.var_tags.len()
            invariant
                self.wf(),
                k <= self.var_tags@.len(),
                self@.vars.len() == self.var_tags@.len(),
                text@ == self@.name + "\n"@ + self@.lines(k as nat),
            decreases self.var_tags@.len() - k,
        {
            proof {
                lemma_slot(self@, k as int);
            }
            let label = self.type_uf.leader_of(&self.var_tags[k].1).unwrap();
            let ghost before = text@;
            text.append(self.var_tags[k].0.as_str());
            text.append(":");
            append_decimal(&mut text, label);
            text.append("\n");
            proof {
                let var = self@.vars[k as int].0;
                assert(text@ =~= self@.name + "\n"@ + (self@.lines(k as nat) + var + ":"@ + decimal(
                    label as nat,
                ) + "\n"@));
            }
            k += 1;
        }
        text
    }
}

} // verus!
