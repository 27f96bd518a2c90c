//! The mathematical model of a site, and the laws of folding.
//!
//! A site's elements are leaders of the ledger: each stands for a whole
//! class of values that have interacted. A variable is represented by one
//! such element, and two variables have the same abstract type at the site
//! when their representatives are in one class of the site's own partition.
//!
//! Folding an observation merges what the variable stood for before with
//! what it stands for now. Observations are never forgotten: every fold goes
//! through all of them again, so that values which interacted only after
//! they were bound still bring their variables together.

use crate::partition::{
    law_introduce, law_merged_exact, law_merged_joins, law_merged_wf, Partition,
};
use crate::tagger::Id;
use crate::text::decimal;
use vstd::prelude::*;

verus! {

/// The mathematical model of a [`crate::site::Site`].
pub struct SiteView {
    /// The name of the site.
    pub name: Seq<char>,
    /// Every binding observed at the site, oldest first: a variable name and
    /// the tag of the value that was bound to it.
    pub observed: Seq<(Seq<char>, Id)>,
    /// The variables folded so far, in the order in which they were first
    /// folded, each with its representative in `classes`.
    pub vars: Seq<(Seq<char>, Id)>,
    /// The classes of ledger leaders that the site has merged.
    pub classes: Partition,
}

impl SiteView {
    /// The site of the given name that has observed nothing.
    pub open spec fn empty(name: Seq<char>) -> SiteView {
        SiteView {
            name,
            observed: Seq::empty(),
            vars: Seq::empty(),
            classes: Partition::empty(),
        }
    }

    /// No variable is listed twice, and every representative is registered
    /// in the site's classes.
    pub open spec fn wf(self) -> bool {
        &&& self.classes.wf()
        &&& forall|i: int, j: int|
            0 <= i < j < self.vars.len() ==> self.vars[i].0 != self.vars[j].0
        &&& forall|i: int| 0 <= i < self.vars.len() ==> self.classes.contains(self.vars[i].1)
    }

    /// `var` has been folded into the partition.
    pub open spec fn knows(self, var: Seq<char>) -> bool {
        exists|i: int| 0 <= i < self.vars.len() && self.vars[i].0 == var
    }

    /// The position of `var` among the variables.
    pub open spec fn slot(self, var: Seq<char>) -> int {
        choose|i: int| 0 <= i < self.vars.len() && self.vars[i].0 == var
    }

    /// The representative recorded for `var`.
    pub open spec fn rep(self, var: Seq<char>) -> Id {
        self.vars[self.slot(var)].1
    }

    /// The label of the abstract type of `var`: the leader of the class of
    /// its representative. Two variables have the same abstract type exactly
    /// when their labels are equal.
    pub open spec fn label(self, var: Seq<char>) -> Id {
        self.classes.leader[self.rep(var)]
    }

    /// `x` and `y` have the same abstract type at this site.
    pub open spec fn same_type(self, x: Seq<char>, y: Seq<char>) -> bool {
        self.knows(x) && self.knows(y) && self.label(x) == self.label(y)
    }

    /// `var` is associated with the class of `element` at this site.
    pub open spec fn tied(self, var: Seq<char>, element: Id) -> bool {
        self.knows(var) && self.classes.same_class(self.rep(var), element)
    }

    /// The site after a binding of `var` to the value tagged `tag` has been
    /// observed.
    pub open spec fn bound(self, var: Seq<char>, tag: Id) -> SiteView {
        SiteView { observed: self.observed.push((var, tag)), ..self }
    }

    /// The site after one observation has been folded: `var` was bound to a
    /// value whose ledger class is led by `leader`. The leader becomes an
    /// element of the site's classes. A variable folded before has the class
    /// of its representative merged with that of the leader and is now
    /// represented by the leader of the merged class; a new variable is
    /// represented by `leader` itself.
    pub open spec fn observe(self, var: Seq<char>, leader: Id) -> SiteView {
        let classes = self.classes.introduce(leader);
        if self.knows(var) {
            let old_rep = self.rep(var);
            SiteView {
                vars: self.vars.update(self.slot(var), (var, classes.union_leader(old_rep, leader))),
                classes: classes.merged(old_rep, leader),
                ..self
            }
        } else {
            SiteView { vars: self.vars.push((var, leader)), classes, ..self }
        }
    }

    /// The site after a sequence of observations has been folded, in order.
    /// Each pairs a variable with the ledger leader of the value that was
    /// bound to it.
    pub open spec fn observe_all(self, steps: Seq<(Seq<char>, Id)>) -> SiteView
        decreases steps.len(),
    {
        if steps.len() == 0 {
            self
        } else {
            self.observe_all(steps.drop_last()).observe(steps.last().0, steps.last().1)
        }
    }

    /// What the site has observed, each tag resolved to the leader that
    /// `ledger` gives it.
    pub open spec fn resolved(self, ledger: Partition) -> Seq<(Seq<char>, Id)> {
        Seq::new(self.observed.len(), |i: int| (self.observed[i].0, ledger.leader[self.observed[i].1]))
    }

    /// The site after all that it has observed has been folded, each tag
    /// resolved by `ledger`.
    pub open spec fn folded(self, ledger: Partition) -> SiteView {
        self.observe_all(self.resolved(ledger))
    }

    /// The partition of the site is what a site that started empty has after
    /// folding `history`: the observations of all its folds so far, one fold
    /// after the other, each as it was resolved at the time.
    pub open spec fn descends_from(self, history: Seq<(Seq<char>, Id)>) -> bool {
        let origin = SiteView::empty(self.name).observe_all(history);
        self.vars == origin.vars && self.classes == origin.classes
    }

    /// `ledger` knows the tag of every observation.
    pub open spec fn resolvable(self, ledger: Partition) -> bool {
        forall|i: int| 0 <= i < self.observed.len() ==> ledger.contains(self.observed[i].1)
    }

    /// The site's partition is at least as fine as a colouring of variables
    /// and elements: every class of elements has one colour, and every
    /// variable has the colour of its representative.
    pub open spec fn refines(
        self,
        var_color: spec_fn(Seq<char>) -> int,
        element_color: spec_fn(Id) -> int,
    ) -> bool {
        &&& forall|a: Id, b: Id| #[trigger]
            self.classes.same_class(a, b) ==> element_color(a) == element_color(b)
        &&& forall|i: int|
            0 <= i < self.vars.len() ==> element_color((#[trigger] self.vars[i]).1) == var_color(
                self.vars[i].0,
            )
    }

    /// The report lines of the first `n` variables: for each its name, a
    /// colon, its label in decimal, and a line feed.
    pub open spec fn lines(self, n: nat) -> Seq<char>
        decreases n,
    {
        if n == 0 {
            Seq::empty()
        } else {
            let var = self.vars[n - 1].0;
            self.lines((n - 1) as nat) + var + ":"@ + decimal(self.label(var) as nat) + "\n"@
        }
    }

    /// The report of the site: a line with its name, then one line for each
    /// variable.
    pub open spec fn report(self) -> Seq<char> {
        self.name + "\n"@ + self.lines(self.vars.len())
    }
}

/// In a well-formed site a variable is found at one position only.
pub proof fn lemma_slot(s: SiteView, k: int)
    requires
        s.wf(),
        0 <= k < s.vars.len(),
    ensures
        s.knows(s.vars[k].0),
        s.slot(s.vars[k].0) == k,
        s.rep(s.vars[k].0) == s.vars[k].1,
{
    let var = s.vars[k].0;
    let i = s.slot(var);
    assert(0 <= i < s.vars.len() && s.vars[i].0 == var);
    if i < k {
        assert(s.vars[i].0 != s.vars[k].0);
    } else if k < i {
        assert(s.vars[k].0 != s.vars[i].0);
    }
}

/// Folding one observation keeps the site well formed, keeps every variable
/// tied to whatever it was tied to, and ties the observed variable to the
/// observed leader.
pub proof fn law_observe(s: SiteView, var: Seq<char>, leader: Id)
    requires
        s.wf(),
    ensures
        s.observe(var, leader).wf(),
        s.observe(var, leader).tied(var, leader),
        s.observe(var, leader).name == s.name,
        s.observe(var, leader).observed == s.observed,
        forall|x: Seq<char>| s.knows(x) ==> #[trigger] s.observe(var, leader).knows(x),
        forall|x: Seq<char>, e: Id| #[trigger]
            s.tied(x, e) ==> s.observe(var, leader).tied(x, e),
{
    let after = s.observe(var, leader);
    let classes = s.classes.introduce(leader);
    law_introduce(s.classes, leader);
    if s.knows(var) {
        let k = s.slot(var);
        let old_rep = s.rep(var);
        let new_rep = classes.union_leader(old_rep, leader);
        assert(classes.contains(old_rep));
        law_merged_wf(classes, old_rep, leader);
        law_merged_joins(classes, old_rep, leader);
        assert(after.vars[k] == (var, new_rep));
        assert forall|i: int, j: int| 0 <= i < j < after.vars.len() implies after.vars[i].0
            != after.vars[j].0 by {
            assert(after.vars[i].0 == s.vars[i].0);
            assert(after.vars[j].0 == s.vars[j].0);
        }
        assert forall|i: int| 0 <= i < after.vars.len() implies after.classes.contains(
            after.vars[i].1,
        ) by {
            if i != k {
                assert(after.vars[i] == s.vars[i]);
                assert(s.classes.contains(s.vars[i].1));
            }
        }
        assert(after.wf());
        lemma_slot(after, k);
        assert forall|x: Seq<char>| s.knows(x) implies #[trigger] after.knows(x) by {
            let i = s.slot(x);
            assert(after.vars[i].0 == x);
        }
        assert forall|x: Seq<char>, e: Id| #[trigger] s.tied(x, e) implies after.tied(x, e) by {
            let i = s.slot(x);
            assert(after.vars[i].0 == x);
            lemma_slot(after, i);
            lemma_slot(s, i);
            assert(classes.same_class(s.rep(x), e));
        }
    } else {
        let k = s.vars.len() as int;
        assert(after.vars[k] == (var, leader));
        assert forall|i: int, j: int| 0 <= i < j < after.vars.len() implies after.vars[i].0
            != after.vars[j].0 by {
            if j == k {
                assert(after.vars[i] == s.vars[i]);
            }
        }
        assert(after.wf());
        lemma_slot(after, k);
        assert forall|x: Seq<char>| s.knows(x) implies #[trigger] after.knows(x) by {
            let i = s.slot(x);
            assert(after.vars[i].0 == x);
        }
        assert forall|x: Seq<char>, e: Id| #[trigger] s.tied(x, e) implies after.tied(x, e) by {
            let i = s.slot(x);
            assert(after.vars[i] == s.vars[i]);
            lemma_slot(after, i);
            lemma_slot(s, i);
        }
    }
}

/// Two variables have the same abstract type exactly when one is tied to
/// the representative of the other.
pub proof fn lemma_same_type_is_tied(s: SiteView, x: Seq<char>, y: Seq<char>)
    requires
        s.wf(),
        s.knows(y),
    ensures
        s.same_type(x, y) <==> s.tied(x, s.rep(y)),
{
    let j = s.slot(y);
    assert(s.classes.contains(s.vars[j].1));
    if s.knows(x) {
        let i = s.slot(x);
        assert(s.classes.contains(s.vars[i].1));
    }
}

/// Folding one observation never separates two variables that had the same
/// abstract type.
pub proof fn law_observe_never_splits(
    s: SiteView,
    var: Seq<char>,
    leader: Id,
    x: Seq<char>,
    y: Seq<char>,
)
    requires
        s.wf(),
        s.same_type(x, y),
    ensures
        s.observe(var, leader).same_type(x, y),
{
    let after = s.observe(var, leader);
    law_observe(s, var, leader);
    lemma_same_type_is_tied(s, x, y);
    lemma_same_type_is_tied(s, y, y);
    let e = s.rep(y);
    assert(s.tied(x, e));
    assert(s.tied(y, e));
    assert(after.tied(x, e));
    assert(after.tied(y, e));
}

/// Folding keeps a site well formed, and changes neither its name nor what
/// it has observed.
pub proof fn law_observe_all_wf(s: SiteView, steps: Seq<(Seq<char>, Id)>)
    requires
        s.wf(),
    ensures
        s.observe_all(steps).wf(),
        s.observe_all(steps).name == s.name,
        s.observe_all(steps).observed == s.observed,
    decreases steps.len(),
{
    if steps.len() > 0 {
        law_observe_all_wf(s, steps.drop_last());
        law_observe(s.observe_all(steps.drop_last()), steps.last().0, steps.last().1);
    }
}

/// Folding one sequence of observations after another is folding the two
/// in a row.
pub proof fn law_observe_all_append(
    s: SiteView,
    first: Seq<(Seq<char>, Id)>,
    second: Seq<(Seq<char>, Id)>,
)
    ensures
        s.observe_all(first + second) == s.observe_all(first).observe_all(second),
    decreases second.len(),
{
    if second.len() == 0 {
        assert(first + second =~= first);
    } else {
        assert((first + second).drop_last() =~= first + second.drop_last());
        law_observe_all_append(s, first, second.drop_last());
    }
}

/// Once two variables have the same abstract type at a site, nothing that
/// is folded later separates them.
pub proof fn law_observe_all_never_splits(
    s: SiteView,
    steps: Seq<(Seq<char>, Id)>,
    x: Seq<char>,
    y: Seq<char>,
)
    requires
        s.wf(),
        s.same_type(x, y),
    ensures
        s.observe_all(steps).same_type(x, y),
    decreases steps.len(),
{
    if steps.len() > 0 {
        law_observe_all_never_splits(s, steps.drop_last(), x, y);
        law_observe_all_wf(s, steps.drop_last());
        law_observe_never_splits(
            s.observe_all(steps.drop_last()),
            steps.last().0,
            steps.last().1,
            x,
            y,
        );
    }
}

/// Every folded observation ties its variable to its leader, for good.
pub proof fn law_observe_all_ties(s: SiteView, steps: Seq<(Seq<char>, Id)>, i: int)
    requires
        s.wf(),
        0 <= i < steps.len(),
    ensures
        s.observe_all(steps).tied(steps[i].0, steps[i].1),
    decreases steps.len(),
{
    law_observe_all_wf(s, steps.drop_last());
    law_observe(s.observe_all(steps.drop_last()), steps.last().0, steps.last().1);
    if i < steps.len() - 1 {
        law_observe_all_ties(s, steps.drop_last(), i);
        assert(steps.drop_last()[i] == steps[i]);
    }
}

/// Two variables that were observed with one leader have the same abstract
/// type.
pub proof fn law_observe_all_joins(s: SiteView, steps: Seq<(Seq<char>, Id)>, i: int, j: int)
    requires
        s.wf(),
        0 <= i < steps.len(),
        0 <= j < steps.len(),
        steps[i].1 == steps[j].1,
    ensures
        s.observe_all(steps).same_type(steps[i].0, steps[j].0),
{
    law_observe_all_ties(s, steps, i);
    law_observe_all_ties(s, steps, j);
}

/// A fold learns no variable that was not observed.
pub proof fn law_observe_all_knows(s: SiteView, steps: Seq<(Seq<char>, Id)>, x: Seq<char>)
    requires
        s.observe_all(steps).knows(x),
    ensures
        s.knows(x) || exists|i: int| 0 <= i < steps.len() && steps[i].0 == x,
    decreases steps.len(),
{
    if steps.len() > 0 {
        let before = s.observe_all(steps.drop_last());
        let (var, leader) = steps.last();
        let after = before.observe(var, leader);
        let k = after.slot(x);
        assert(0 <= k < after.vars.len() && after.vars[k].0 == x);
        if x == var {
            assert(steps[steps.len() - 1].0 == x);
        } else {
            assert(before.vars[k].0 == x);
            law_observe_all_knows(s, steps.drop_last(), x);
            if !s.knows(x) {
                let i = choose|i: int| 0 <= i < steps.drop_last().len() && steps.drop_last()[i].0 == x;
                assert(steps[i].0 == x);
            }
        }
    }
}

/// Folding an observation merges no more than the observation demands: a
/// colouring that the site refined, and in which the observed variable has
/// the colour of the observed leader, is still refined afterwards.
pub proof fn law_observe_refines(
    s: SiteView,
    var: Seq<char>,
    leader: Id,
    var_color: spec_fn(Seq<char>) -> int,
    element_color: spec_fn(Id) -> int,
)
    requires
        s.wf(),
        s.refines(var_color, element_color),
        var_color(var) == element_color(leader),
    ensures
        s.observe(var, leader).refines(var_color, element_color),
{
    let after = s.observe(var, leader);
    let classes = s.classes.introduce(leader);
    law_introduce(s.classes, leader);
    assert forall|a: Id, b: Id| #[trigger] classes.same_class(a, b) implies element_color(a)
        == element_color(b) by {
        if s.classes.contains(a) && s.classes.contains(b) {
            assert(s.classes.same_class(a, b));
        } else if s.classes.contains(a) {
            assert(s.classes.contains(s.classes.leader[a]));
        } else if s.classes.contains(b) {
            assert(s.classes.contains(s.classes.leader[b]));
        }
    }
    if s.knows(var) {
        let k = s.slot(var);
        let old_rep = s.rep(var);
        assert(s.vars[k].0 == var);
        lemma_slot(s, k);
        assert(element_color(s.vars[k].1) == var_color(var));
        assert(classes.contains(old_rep));
        assert(classes.contains(leader));
        law_merged_wf(classes, old_rep, leader);
        assert forall|a: Id, b: Id| #[trigger] after.classes.same_class(a, b) implies element_color(
            a,
        ) == element_color(b) by {
            law_merged_exact(classes, old_rep, leader, a, b);
            if classes.same_class(a, old_rep) {
                assert(classes.same_class(old_rep, a));
            }
            if classes.same_class(b, old_rep) {
                assert(classes.same_class(old_rep, b));
            }
            if classes.same_class(a, leader) {
                assert(classes.same_class(leader, a));
            }
            if classes.same_class(b, leader) {
                assert(classes.same_class(leader, b));
            }
        }
        let new_rep = classes.union_leader(old_rep, leader);
        assert(classes.same_class(old_rep, new_rep) || classes.same_class(leader, new_rep)) by {
            assert(classes.contains(classes.leader[old_rep]));
            assert(classes.contains(classes.leader[leader]));
        }
        assert forall|i: int| 0 <= i < after.vars.len() implies element_color(
            (#[trigger] after.vars[i]).1,
        ) == var_color(after.vars[i].0) by {
            if i != k {
                assert(after.vars[i] == s.vars[i]);
            }
        }
    } else {
        assert forall|i: int| 0 <= i < after.vars.len() implies element_color(
            (#[trigger] after.vars[i]).1,
        ) == var_color(after.vars[i].0) by {
            if i < s.vars.len() {
                assert(after.vars[i] == s.vars[i]);
            }
        }
    }
}

/// A fold merges no more than its observations demand: a colouring that the
/// site refined, and in which every folded observation gives its variable
/// the colour of its leader, is still refined afterwards.
pub proof fn law_observe_all_refines(
    s: SiteView,
    steps: Seq<(Seq<char>, Id)>,
    var_color: spec_fn(Seq<char>) -> int,
    element_color: spec_fn(Id) -> int,
)
    requires
        s.wf(),
        s.refines(var_color, element_color),
        forall|i: int|
            0 <= i < steps.len() ==> var_color((#[trigger] steps[i]).0) == element_color(
                steps[i].1,
            ),
    ensures
        s.observe_all(steps).refines(var_color, element_color),
    decreases steps.len(),
{
    if steps.len() > 0 {
        assert forall|i: int| 0 <= i < steps.drop_last().len() implies var_color(
            (#[trigger] steps.drop_last()[i]).0,
        ) == element_color(steps.drop_last()[i].1) by {
            assert(steps.drop_last()[i] == steps[i]);
        }
        law_observe_all_refines(s, steps.drop_last(), var_color, element_color);
        law_observe_all_wf(s, steps.drop_last());
        assert(var_color(steps[steps.len() - 1].0) == element_color(steps[steps.len() - 1].1));
        law_observe_refines(
            s.observe_all(steps.drop_last()),
            steps.last().0,
            steps.last().1,
            var_color,
            element_color,
        );
    }
}

/// In a site that refines a colouring, variables of one abstract type have
/// one colour.
pub proof fn law_refined_types(
    s: SiteView,
    var_color: spec_fn(Seq<char>) -> int,
    element_color: spec_fn(Id) -> int,
    x: Seq<char>,
    y: Seq<char>,
)
    requires
        s.wf(),
        s.refines(var_color, element_color),
        s.same_type(x, y),
    ensures
        var_color(x) == var_color(y),
{
    let i = s.slot(x);
    let j = s.slot(y);
    lemma_slot(s, i);
    lemma_slot(s, j);
    assert(s.classes.contains(s.vars[i].1));
    assert(s.classes.contains(s.vars[j].1));
    assert(s.classes.same_class(s.vars[i].1, s.vars[j].1));
    assert(element_color(s.vars[i].1) == var_color(s.vars[i].0));
    assert(element_color(s.vars[j].1) == var_color(s.vars[j].0));
}

/// An observation among `steps` with the given leader.
spec fn step_with(steps: Seq<(Seq<char>, Id)>, leader: Id) -> int {
    choose|i: int| 0 <= i < steps.len() && steps[i].1 == leader
}

/// Folding reads and changes nothing but variables and classes.
proof fn lemma_observe_all_partition(s: SiteView, t: SiteView, steps: Seq<(Seq<char>, Id)>)
    requires
        s.vars == t.vars,
        s.classes == t.classes,
    ensures
        s.observe_all(steps).vars == t.observe_all(steps).vars,
        s.observe_all(steps).classes == t.observe_all(steps).classes,
    decreases steps.len(),
{
    if steps.len() > 0 {
        lemma_observe_all_partition(s, t, steps.drop_last());
        let before = s.observe_all(steps.drop_last());
        let other = t.observe_all(steps.drop_last());
        assert(before.knows(steps.last().0) == other.knows(steps.last().0));
        assert(before.slot(steps.last().0) == other.slot(steps.last().0));
    }
}

/// How the history of a site grows: a new site has folded nothing, a
/// binding folds nothing, and a fold adds to the history all that the site
/// has observed, resolved by the ledger of the moment.
pub proof fn law_history(
    s: SiteView,
    history: Seq<(Seq<char>, Id)>,
    ledger: Partition,
    var: Seq<char>,
    tag: Id,
)
    requires
        s.descends_from(history),
    ensures
        SiteView::empty(s.name).descends_from(Seq::empty()),
        s.bound(var, tag).descends_from(history),
        s.folded(ledger).descends_from(history + s.resolved(ledger)),
{
    let origin = SiteView::empty(s.name).observe_all(history);
    let steps = s.resolved(ledger);
    lemma_observe_all_partition(s, origin, steps);
    law_observe_all_append(SiteView::empty(s.name), history, steps);
    lemma_observe_all_name(s, steps);
}

proof fn lemma_observe_all_name(s: SiteView, steps: Seq<(Seq<char>, Id)>)
    ensures
        s.observe_all(steps).name == s.name,
    decreases steps.len(),
{
    if steps.len() > 0 {
        lemma_observe_all_name(s, steps.drop_last());
    }
}

proof fn lemma_partition_follows(
    one: SiteView,
    first: Seq<(Seq<char>, Id)>,
    other: SiteView,
    second: Seq<(Seq<char>, Id)>,
    x: Seq<char>,
    y: Seq<char>,
)
    requires
        one.descends_from(first),
        other.descends_from(second),
        first.len() == second.len(),
        forall|i: int| 0 <= i < first.len() ==> first[i].0 == second[i].0,
        forall|i: int, j: int|
            0 <= i < first.len() && 0 <= j < first.len() && first[i].1 == first[j].1 ==> second[i].1
                == second[j].1,
        one.same_type(x, y),
    ensures
        other.same_type(x, y),
{
    let start1 = SiteView::empty(one.name);
    let start2 = SiteView::empty(other.name);
    let end1 = start1.observe_all(first);
    let end2 = start2.observe_all(second);
    let var_color = |v: Seq<char>| end2.label(v) as int;
    let element_color = |e: Id| end2.label(second[step_with(first, e)].0) as int;
    law_observe_all_wf(start1, first);
    law_observe_all_wf(start2, second);
    assert forall|i: int| 0 <= i < first.len() implies var_color((#[trigger] first[i]).0)
        == element_color(first[i].1) by {
        let j = step_with(first, first[i].1);
        assert(0 <= j < first.len() && first[j].1 == first[i].1);
        law_observe_all_ties(start2, second, i);
        law_observe_all_ties(start2, second, j);
        assert(second[i].1 == second[j].1);
    }
    law_observe_all_refines(start1, first, var_color, element_color);
    assert(end1.same_type(x, y)) by {
        assert(one.knows(x) == end1.knows(x));
        assert(one.knows(y) == end1.knows(y));
        assert(one.slot(x) == end1.slot(x));
        assert(one.slot(y) == end1.slot(y));
    }
    law_refined_types(end1, var_color, element_color, x, y);
    law_observe_all_knows(start1, first, x);
    law_observe_all_knows(start1, first, y);
    let i = choose|i: int| 0 <= i < first.len() && first[i].0 == x;
    let j = choose|j: int| 0 <= j < first.len() && first[j].0 == y;
    law_observe_all_ties(start2, second, i);
    law_observe_all_ties(start2, second, j);
    assert(end2.same_type(x, y));
    assert(other.same_type(x, y)) by {
        assert(other.knows(x) == end2.knows(x));
        assert(other.knows(y) == end2.knows(y));
        assert(other.slot(x) == end2.slot(x));
        assert(other.slot(y) == end2.slot(y));
    }
}

/// The partition of the variables does not depend on which numbers the tags
/// and leaders happen to be. Two sites whose histories hold the same
/// variables in the same order have the same partition, provided that the
/// leaders in the one history coincide exactly where those in the other do.
pub proof fn law_partition_independent_of_tags(
    one: SiteView,
    first: Seq<(Seq<char>, Id)>,
    other: SiteView,
    second: Seq<(Seq<char>, Id)>,
    x: Seq<char>,
    y: Seq<char>,
)
    requires
        one.descends_from(first),
        other.descends_from(second),
        first.len() == second.len(),
        forall|i: int| 0 <= i < first.len() ==> first[i].0 == second[i].0,
        forall|i: int, j: int|
            0 <= i < first.len() && 0 <= j < first.len() ==> (first[i].1 == first[j].1
                <==> second[i].1 == second[j].1),
    ensures
        one.same_type(x, y) <==> other.same_type(x, y),
{
    if one.same_type(x, y) {
        lemma_partition_follows(one, first, other, second, x, y);
    }
    if other.same_type(x, y) {
        lemma_partition_follows(other, second, one, first, x, y);
    }
}

/// Folding keeps a site well formed and keeps variables of one abstract
/// type together, whatever the site has observed and whatever the ledger
/// holds.
pub proof fn law_fold_never_splits(s: SiteView, ledger: Partition, x: Seq<char>, y: Seq<char>)
    requires
        s.wf(),
        s.same_type(x, y),
    ensures
        s.folded(ledger).wf(),
        s.folded(ledger).same_type(x, y),
{
    law_observe_all_wf(s, s.resolved(ledger));
    law_observe_all_never_splits(s, s.resolved(ledger), x, y);
}

/// Two variables that were ever bound to values which the ledger now has in
/// one class have the same abstract type after the fold.
pub proof fn law_fold_joins(s: SiteView, ledger: Partition, i: int, j: int)
    requires
        s.wf(),
        0 <= i < s.observed.len(),
        0 <= j < s.observed.len(),
        ledger.leader[s.observed[i].1] == ledger.leader[s.observed[j].1],
    ensures
        s.folded(ledger).same_type(s.observed[i].0, s.observed[j].0),
{
    law_observe_all_joins(s, s.resolved(ledger), i, j);
}

/// The outcome of a fold depends on the ledger only through the leaders of
/// the observed tags: two ledgers that agree on those give the same site.
pub proof fn law_fold_determined(s: SiteView, first: Partition, second: Partition)
    requires
        forall|i: int|
            0 <= i < s.observed.len() ==> first.leader[s.observed[i].1]
                == second.leader[s.observed[i].1],
    ensures
        s.folded(first) == s.folded(second),
{
    assert(s.resolved(first) =~= s.resolved(second));
}

/// A site that has observed nothing has an empty partition, and folding it
/// changes nothing.
pub proof fn law_empty_site(name: Seq<char>, ledger: Partition)
    ensures
        SiteView::empty(name).wf(),
        SiteView::empty(name).resolvable(ledger),
        SiteView::empty(name).folded(ledger) == SiteView::empty(name),
        SiteView::empty(name).vars.len() == 0,
        SiteView::empty(name).report() =~= name + "\n"@,
{
    assert(SiteView::empty(name).resolved(ledger) =~= Seq::empty());
}

} // verus!
