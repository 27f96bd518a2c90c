//! The coordinator: the ledger of value interactions together with the
//! registry of sites.
//!
//! Every change to shared state goes through an [`AbstractTypeInference`]:
//! tracking a value, recording an interaction, checking a site out, and
//! folding a site's observations when it is checked in again.

use crate::partition::{law_introduce, law_merged_joins, law_merged_wf, Partition};
use crate::site::{Site, UnregisteredTag};
use crate::site_view::{law_observe_all_wf, SiteView};
use crate::sites::{law_extracted, law_stashed, Sites, SitesView};
use crate::tagged_value::TaggedValue;
use crate::tagger::Id;
use crate::union_find::UnionFind;
use vstd::prelude::*;
use vstd::string::StringExecFns;

verus! {

/// The mathematical model of an [`AbstractTypeInference`].
pub struct EngineView {
    /// Which tracked values have interacted, directly or through others.
    pub ledger: Partition,
    /// The number of values tracked so far, which is the tag of the next.
    pub issued: Id,
    /// The registry of sites.
    pub sites: SitesView,
}

impl EngineView {
    /// The engine that has tracked nothing and holds no site.
    pub open spec fn empty() -> EngineView {
        EngineView { ledger: Partition::empty(), issued: 0, sites: SitesView::empty() }
    }

    /// Ledger and registry are well formed, and the ledger knows exactly the
    /// tags that have been issued.
    pub open spec fn wf(self) -> bool {
        &&& self.ledger.wf()
        &&& self.sites.wf()
        &&& forall|t: Id| #[trigger] self.ledger.contains(t) <==> t < self.issued
    }

    /// The engine after one more value has been tracked: the next tag is
    /// issued and forms a class of its own.
    pub open spec fn grown(self) -> EngineView {
        EngineView {
            ledger: self.ledger.introduce(self.issued),
            issued: (self.issued + 1) as Id,
            ..self
        }
    }

    /// The engine after the values tagged `a` and `b` have interacted.
    pub open spec fn united(self, a: Id, b: Id) -> EngineView {
        EngineView { ledger: self.ledger.merged(a, b), ..self }
    }

    /// The engine after an operation on the values tagged `a` and `b` that
    /// yields a new tracked value: the operands interact, the result is
    /// tracked, and the result interacts with the left operand.
    pub open spec fn combined(self, a: Id, b: Id) -> EngineView {
        self.united(a, b).grown().united(self.issued, a)
    }

    /// The engine after the site named `name` has been checked out.
    pub open spec fn checked_out(self, name: Seq<char>) -> EngineView {
        EngineView { sites: self.sites.extracted(name), ..self }
    }

    /// The engine after `site` has been folded against the ledger and
    /// checked in.
    pub open spec fn updated(self, site: SiteView) -> EngineView {
        EngineView { sites: self.sites.stashed(site.folded(self.ledger)), ..self }
    }

    /// The full report: the line that opens it, then the reports of all
    /// registered sites.
    pub open spec fn report(self) -> Seq<char> {
        "===ATI-ANALYSIS-START===\n"@ + self.sites.report()
    }
}

/// Tracking a value keeps the engine well formed and issues a tag that the
/// ledger did not know, alone in its class.
pub proof fn law_track(e: EngineView)
    requires
        e.wf(),
        e.issued < u64::MAX,
    ensures
        e.grown().wf(),
        !e.ledger.contains(e.issued),
        e.grown().ledger.find(e.issued) == Some(e.issued),
        forall|t: Id| e.ledger.contains(t) ==> e.grown().ledger.find(t) == e.ledger.find(t),
{
    law_introduce(e.ledger, e.issued);
    assert forall|t: Id| #[trigger] e.grown().ledger.contains(t) <==> t < e.grown().issued by {
        assert(e.ledger.contains(t) <==> t < e.issued);
    }
}

/// An interaction keeps the engine well formed.
pub proof fn law_united(e: EngineView, a: Id, b: Id)
    requires
        e.wf(),
    ensures
        e.united(a, b).wf(),
{
    law_merged_wf(e.ledger, a, b);
    assert forall|t: Id| #[trigger] e.united(a, b).ledger.contains(t) <==> t < e.issued by {
        assert(e.ledger.contains(t) <==> t < e.issued);
    }
}

/// After an operation on two tracked values the result and both operands
/// have one leader.
pub proof fn law_combined(e: EngineView, a: Id, b: Id)
    requires
        e.wf(),
        e.issued < u64::MAX,
        e.ledger.contains(a),
        e.ledger.contains(b),
    ensures
        e.combined(a, b).wf(),
        e.combined(a, b).ledger.find(e.issued).is_some(),
        e.combined(a, b).ledger.find(e.issued) == e.combined(a, b).ledger.find(a),
        e.combined(a, b).ledger.find(e.issued) == e.combined(a, b).ledger.find(b),
{
    let first = e.united(a, b);
    law_united(e, a, b);
    law_merged_joins(e.ledger, a, b);
    let second = first.grown();
    law_track(first);
    law_united(second, e.issued, a);
    law_merged_joins(second.ledger, e.issued, a);
    law_merged_wf(second.ledger, e.issued, a);
    assert(second.ledger.same_class(a, b));
}

/// The ledger of interactions between tracked values, and the registry of
/// sites.
pub struct AbstractTypeInference {
    value_uf: UnionFind,
    sites: Sites,
}

impl View for AbstractTypeInference {
    type V = EngineView;

    closed spec fn view(&self) -> EngineView {
        EngineView {
            ledger: self.value_uf@,
            issued: self.value_uf.issued(),
            sites: self.sites@,
        }
    }
}

impl AbstractTypeInference {
    /// Ledger and registry are well formed, and so is the view.
    pub closed spec fn wf(&self) -> bool {
        &&& self.value_uf.wf()
        &&& self.sites.wf()
        &&& self@.wf()
    }

    /// The view of a well-formed engine is well formed.
    pub proof fn lemma_view_wf(&self)
        requires
            self.wf(),
        ensures
            self@.wf(),
    {
    }

    /// Creates an engine that has tracked nothing and holds no site.
    pub fn new() -> (ati: Self)
        ensures
            ati.wf(),
            ati@ == EngineView::empty(),
    {
        AbstractTypeInference { value_uf: UnionFind::new(), sites: Sites::new() }
    }

    /// The number of values tracked so far.
    pub fn issued(&self) -> (n: Id)
        requires
            self.wf(),
        ensures
            n == self@.issued,
    {
        self.value_uf.issued_count()
    }

    /// Pairs `value` with a fresh tag, which the ledger registers as a class
    /// of its own.
    pub fn track<T: Copy>(&mut self, value: T) -> (tv: TaggedValue<T>)
        requires
            old(self).wf(),
            old(self)@.issued < u64::MAX,
        ensures
            final(self).wf(),
            tv.value == value,
            tv.id == old(self)@.issued,
            !old(self)@.ledger.contains(tv.id),
            final(self)@ == old(self)@.grown(),
    {
        proof {
            law_track(self@);
        }
        let id = self.value_uf.make_set();
        TaggedValue::new(value, id)
    }

    /// Whether the site named `id` is checked out.
    pub fn is_checked_out(&self, id: &str) -> (out: bool)
        requires
            self.wf(),
        ensures
            out == self@.sites.checked_out(id@),
    {
        self.sites.is_checked_out(id)
    }

    /// Checks out the site named `id`, creating it if this is its first
    /// visit. A site that is checked out must be checked in with
    /// [`AbstractTypeInference::update_site`] before it is checked out again.
    pub fn get_site(&mut self, id: &str) -> (site: Site)
        requires
            old(self).wf(),
            !old(self)@.sites.checked_out(id@),
        ensures
            final(self).wf(),
            site.wf(),
            site@ == old(self)@.sites.site(id@),
            final(self)@ == old(self)@.checked_out(id@),
    {
        proof {
            law_extracted(self@.sites, id@);
        }
        self.sites.extract(id)
    }

    /// Folds the observations of `site` against the ledger and checks the
    /// site in. Variables that had the same abstract type at the site keep
    /// it.
    ///
    /// Fails if the ledger does not know an observed tag; the error names
    /// the first such tag. Nothing is published then: the engine stays as it
    /// was and the site stays checked out.
    pub fn update_site(&mut self, site: Site) -> (outcome: Result<(), UnregisteredTag>)
        requires
            old(self).wf(),
            site.wf(),
        ensures
            final(self).wf(),
            match outcome {
                Ok(()) => {
                    &&& site@.resolvable(old(self)@.ledger)
                    &&& final(self)@ == old(self)@.updated(site@)
                    &&& final(self)@.sites.site(site@.name) == site@.folded(old(self)@.ledger)
                    &&& forall|x: Seq<char>, y: Seq<char>|
                        site@.same_type(x, y) ==> #[trigger] final(self)@.sites.site(
                            site@.name,
                        ).same_type(x, y)
                },
                Err(unknown) => {
                    &&& final(self)@ == old(self)@
                    &&& exists|i: int|
                        {
                            &&& 0 <= i < site@.observed.len()
                            &&& site@.observed[i].1 == unknown.tag
                            &&& !old(self)@.ledger.contains(unknown.tag)
                            &&& forall|j: int|
                                0 <= j < i ==> old(self)@.ledger.contains(site@.observed[j].1)
                        }
                },
            },
    {
        let mut site = site;
        let ghost incoming = site@;
        let ghost ledger = self@.ledger;
        proof {
            site.lemma_view_wf();
        }
        match site.update(&mut self.value_uf) {
            Ok(()) => {
                proof {
                    law_observe_all_wf(incoming, incoming.resolved(ledger));
                    law_stashed(self@.sites, site@);
                }
                self.sites.stash(site);
                Ok(())
            },
            Err(unknown) => Err(unknown),
        }
    }

    /// Records that the two values have interacted: their classes in the
    /// ledger become one. A tag that the ledger does not know changes
    /// nothing.
    pub fn union_tags<T: Copy>(&mut self, tv1: &TaggedValue<T>, tv2: &TaggedValue<T>)
        requires
            old(self).wf(),
        ensures
            final(self).wf(),
            final(self)@ == old(self)@.united(tv1.id, tv2.id),
    {
        proof {
            law_united(self@, tv1.id, tv2.id);
        }
        let _ = self.value_uf.union_tags(&tv1.id, &tv2.id);
    }

    /// The leader of the ledger class of `tv`, or `None` if the ledger does
    /// not know its tag. Two values have interacted, directly or through
    /// others, exactly when they have the same leader.
    pub fn find<T: Copy>(&mut self, tv: &TaggedValue<T>) -> (leader: Option<Id>)
        requires
            old(self).wf(),
        ensures
            final(self).wf(),
            final(self)@ == old(self)@,
            leader == old(self)@.ledger.find(tv.id),
    {
        self.value_uf.find(&tv.id)
    }

    /// The text of the full report: the line `===ATI-ANALYSIS-START===`,
    /// then for every registered site its report and a line of three
    /// hyphens.
    pub fn report(&self) -> (text: String)
        requires
            self.wf(),
        ensures
            text@ == self@.report(),
    {
        let mut text = "===ATI-ANALYSIS-START===\n".to_owned();
        let sites = self.sites.report();
        text.append(sites.as_str());
        text
    }
}

} // verus!
