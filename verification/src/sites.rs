//! The registry of sites, with exclusive checkout.
//!
//! A site is taken out of the registry for the duration of a visit and put
//! back afterwards. While it is out the registry remembers its name, so that
//! a second checkout of the same site cannot go unnoticed.

use crate::site::Site;
use crate::site_view::SiteView;
use vstd::prelude::*;
use vstd::string::StringExecFns;

verus! {

/// The mathematical model of [`Sites`].
pub struct SitesView {
    /// The sites that are in the registry, in the order in which their names
    /// were first checked in.
    pub sites: Seq<SiteView>,
    /// The names of the sites that are checked out.
    pub out: Set<Seq<char>>,
}

impl SitesView {
    /// The registry that holds no site and has none checked out.
    pub open spec fn empty() -> SitesView {
        SitesView { sites: Seq::empty(), out: Set::empty() }
    }

    /// Every site is well formed, no two sites have one name, and no site
    /// is both in the registry and checked out.
    pub open spec fn wf(self) -> bool {
        &&& forall|i: int| 0 <= i < self.sites.len() ==> (#[trigger] self.sites[i]).wf()
        &&& forall|i: int, j: int|
            0 <= i < j < self.sites.len() ==> self.sites[i].name != self.sites[j].name
        &&& forall|i: int| 0 <= i < self.sites.len() ==> !self.out.contains(self.sites[i].name)
    }

    /// The registry holds a site of this name.
    pub open spec fn holds(self, name: Seq<char>) -> bool {
        exists|i: int| 0 <= i < self.sites.len() && self.sites[i].name == name
    }

    /// The position of the site of this name.
    pub open spec fn slot(self, name: Seq<char>) -> int {
        choose|i: int| 0 <= i < self.sites.len() && self.sites[i].name == name
    }

    /// The site of this name is checked out.
    pub open spec fn checked_out(self, name: Seq<char>) -> bool {
        self.out.contains(name)
    }

    /// The site that a checkout of `name` hands out: the registered one, or
    /// an empty one if the registry holds none of that name.
    pub open spec fn site(self, name: Seq<char>) -> SiteView {
        if self.holds(name) {
            self.sites[self.slot(name)]
        } else {
            SiteView::empty(name)
        }
    }

    /// The registry after a checkout of `name`.
    pub open spec fn extracted(self, name: Seq<char>) -> SitesView {
        SitesView {
            sites: if self.holds(name) {
                self.sites.remove(self.slot(name))
            } else {
                self.sites
            },
            out: self.out.insert(name),
        }
    }

    /// The registry after `site` has been checked in: it takes the place of
    /// a registered site of the same name, or else comes last.
    pub open spec fn stashed(self, site: SiteView) -> SitesView {
        SitesView {
            sites: if self.holds(site.name) {
                self.sites.update(self.slot(site.name), site)
            } else {
                self.sites.push(site)
            },
            out: self.out.remove(site.name),
        }
    }

    /// The reports of the first `n` sites, each followed by a line of three
    /// hyphens.
    pub open spec fn report_upto(self, n: nat) -> Seq<char>
        decreases n,
    {
        if n == 0 {
            Seq::empty()
        } else {
            self.report_upto((n - 1) as nat) + self.sites[n - 1].report() + "---\n"@
        }
    }

    /// The reports of all registered sites.
    pub open spec fn report(self) -> Seq<char> {
        self.report_upto(self.sites.len())
    }
}

/// In a well-formed registry a name is found at one position only.
pub proof fn lemma_site_slot(r: SitesView, k: int)
    requires
        r.wf(),
        0 <= k < r.sites.len(),
    ensures
        r.holds(r.sites[k].name),
        r.slot(r.sites[k].name) == k,
        r.site(r.sites[k].name) == r.sites[k],
{
    let name = r.sites[k].name;
    let i = r.slot(name);
    assert(0 <= i < r.sites.len() && r.sites[i].name == name);
    if i < k {
        assert(r.sites[i].name != r.sites[k].name);
    } else if k < i {
        assert(r.sites[k].name != r.sites[i].name);
    }
}

/// A checkout keeps the registry well formed, marks the name as checked out
/// and leaves no site of that name behind.
pub proof fn law_extracted(r: SitesView, name: Seq<char>)
    requires
        r.wf(),
        !r.checked_out(name),
    ensures
        r.extracted(name).wf(),
        r.extracted(name).checked_out(name),
        !r.extracted(name).holds(name),
        r.site(name).name == name,
        r.site(name).wf(),
{
    let after = r.extracted(name);
    if r.holds(name) {
        let k = r.slot(name);
        assert forall|i: int| 0 <= i < after.sites.len() implies (#[trigger] after.sites[i]).wf()
            && !after.out.contains(after.sites[i].name) && after.sites[i].name != name by {
            if i < k {
                assert(after.sites[i] == r.sites[i]);
                assert(r.sites[i].name != r.sites[k].name);
            } else {
                assert(after.sites[i] == r.sites[i + 1]);
                assert(r.sites[k].name != r.sites[i + 1].name);
            }
        }
        assert forall|i: int, j: int| 0 <= i < j < after.sites.len() implies after.sites[i].name
            != after.sites[j].name by {
            let i0 = if i < k {
                i
            } else {
                i + 1
            };
            let j0 = if j < k {
                j
            } else {
                j + 1
            };
            assert(after.sites[i] == r.sites[i0]);
            assert(after.sites[j] == r.sites[j0]);
        }
    }
}

/// A checkin keeps the registry well formed, puts the site under its name
/// and ends its checkout.
pub proof fn law_stashed(r: SitesView, site: SiteView)
    requires
        r.wf(),
        site.wf(),
    ensures
        r.stashed(site).wf(),
        !r.stashed(site).checked_out(site.name),
        r.stashed(site).holds(site.name),
        r.stashed(site).site(site.name) == site,
{
    let after = r.stashed(site);
    let k = if r.holds(site.name) {
        r.slot(site.name)
    } else {
        r.sites.len() as int
    };
    assert(after.sites[k] == site);
    assert forall|i: int, j: int| 0 <= i < j < after.sites.len() implies after.sites[i].name
        != after.sites[j].name by {
        if i != k {
            assert(after.sites[i] == r.sites[i]);
        }
        if j != k {
            assert(after.sites[j] == r.sites[j]);
        }
    }
    assert forall|i: int| 0 <= i < after.sites.len() implies (#[trigger] after.sites[i]).wf()
        && !after.out.contains(after.sites[i].name) by {
        if i != k {
            assert(after.sites[i] == r.sites[i]);
        }
    }
    lemma_site_slot(after, k);
}

/// A site that is checked out and checked in again unchanged is the site
/// that the next checkout hands out.
pub proof fn law_checkout_checkin(r: SitesView, name: Seq<char>)
    requires
        r.wf(),
        !r.checked_out(name),
    ensures
        r.extracted(name).stashed(r.site(name)).site(name) == r.site(name),
        !r.extracted(name).stashed(r.site(name)).checked_out(name),
{
    law_extracted(r, name);
    law_stashed(r.extracted(name), r.site(name));
}

/// All sites of a program, each under its name, and the names of those
/// that are checked out.
pub struct Sites {
    locs: Vec<Site>,
    out: Vec<String>,
}

/// The texts of a list of names.
spec fn texts(names: Seq<String>) -> Set<Seq<char>> {
    Set::new(|name: Seq<char>| exists|i: int| 0 <= i < names.len() && names[i]@ == name)
}

impl View for Sites {
    type V = SitesView;

    closed spec fn view(&self) -> SitesView {
        SitesView {
            sites: Seq::new(self.locs@.len(), |i: int| self.locs@[i]@),
            out: texts(self.out@),
        }
    }
}

impl Sites {
    /// Every registered site is well formed, no name is listed twice as
    /// checked out, and the view is well formed.
    pub closed spec fn wf(&self) -> bool {
        &&& forall|i: int| 0 <= i < self.locs@.len() ==> (#[trigger] self.locs@[i]).wf()
        &&& forall|i: int, j: int| 0 <= i < j < self.out@.len() ==> self.out@[i]@ != self.out@[j]@
        &&& self@.wf()
    }

    /// The view of a well-formed registry is well formed.
    pub proof fn lemma_view_wf(&self)
        requires
            self.wf(),
        ensures
            self@.wf(),
    {
    }

    /// Creates an empty registry.
    pub fn new() -> (sites: Self)
        ensures
            sites.wf(),
            sites@ == SitesView::empty(),
    {
        let sites = Sites { locs: Vec::new(), out: Vec::new() };
        proof {
            assert(sites@.sites =~= Seq::empty());
            assert(sites@.out =~= Set::empty());
        }
        sites
    }

    /// Finds the position of the site named `name`.
    fn position(&self, name: &String) -> (slot: Option<usize>)
        ensures
            match slot {
                Some(k) => k < self.locs@.len() && self@.sites[k as int].name == name@,
                None => !self@.holds(name@),
            },
    {
        let mut k: usize = 0;
        while k < self.locs.len()
            invariant
                k <= self.locs@.len(),
                forall|i: int| 0 <= i < k ==> self@.sites[i].name != name@,
            decreases self.locs@.len() - k,
        {
            if self.locs[k].has_name(name) {
                return Some(k);
            }
            k += 1;
        }
        None
    }

    /// Finds the position of `name` among the names that are checked out.
    fn position_out(&self, name: &String) -> (slot: Option<usize>)
        ensures
            match slot {
                Some(k) => k < self.out@.len() && self.out@[k as int]@ == name@,
                None => !self@.checked_out(name@),
            },
    {
        let mut k: usize = 0;
        while k < self.out.len()
            invariant
                k <= self.out@.len(),
                forall|i: int| 0 <= i < k ==> self.out@[i]@ != name@,
            decreases self.out@.len() - k,
        {
            if self.out[k] == *name {
                return Some(k);
            }
            k += 1;
        }
        None
    }

    /// Whether the site named `id` is checked out.
    pub fn is_checked_out(&self, id: &str) -> (out: bool)
        ensures
            out == self@.checked_out(id@),
    {
        let name = id.to_owned();
        self.position_out(&name).is_some()
    }

    /// Checks out the site named `id`: hands out the registered site of that
    /// name, or an empty one if there is none, and remembers the name as
    /// checked out until the site is checked in again.
    ///
    /// A site that is checked out must not be checked out again.
    pub fn extract(&mut self, id: &str) -> (site: Site)
        requires
            old(self).wf(),
            !old(self)@.checked_out(id@),
        ensures
            final(self).wf(),
            site.wf(),
            site@ == old(self)@.site(id@),
            final(self)@ == old(self)@.extracted(id@),
    {
        let name = id.to_owned();
        let site = match self.position(&name) {
            Some(k) => {
                proof {
                    lemma_site_slot(self@, k as int);
                }
                let site = self.locs.remove(k);
                proof {
                    assert(self@.sites =~= old(self)@.sites.remove(k as int));
                    assert forall|i: int| 0 <= i < self.locs@.len() implies (
                    #[trigger] self.locs@[i]).wf() by {
                        if i < k {
                            assert(self.locs@[i] == old(self).locs@[i]);
                        } else {
                            assert(self.locs@[i] == old(self).locs@[i + 1]);
                        }
                    }
                }
                site
            },
            None => Site::new(id),
        };
        self.out.push(name);
        proof {
            let before = old(self)@;
            assert forall|n: Seq<char>| self@.out.contains(n) <==> before.out.insert(
                id@,
            ).contains(n) by {
                if before.out.contains(n) {
                    let i = choose|i: int| 0 <= i < old(self).out@.len() && old(self).out@[i]@ == n;
                    assert(self.out@[i]@ == n);
                }
                if n == id@ {
                    assert(self.out@[old(self).out@.len() as int]@ == n);
                }
            }
            assert(self@.out =~= before.out.insert(id@));
            assert(self@ == before.extracted(id@));
            law_extracted(before, id@);
            assert forall|i: int, j: int| 0 <= i < j < self.out@.len() implies self.out@[i]@
                != self.out@[j]@ by {
                if j == old(self).out@.len() {
                    assert(self.out@[i] == old(self).out@[i]);
                    assert(before.out.contains(old(self).out@[i]@));
                }
            }
        }
        site
    }

    /// Checks `site` in under its own name. It takes the place of a
    /// registered site of that name, and its name is no longer checked out.
    pub fn stash(&mut self, site: Site)
        requires
            old(self).wf(),
            site.wf(),
        ensures
            final(self).wf(),
            final(self)@ == old(self)@.stashed(site@),
    {
        let name = site.name().to_owned();
        let ghost before = old(self)@;
        let ghost incoming = site@;
        proof {
            site.lemma_view_wf();
        }
        match self.position_out(&name) {
            Some(k) => {
                self.out.remove(k);
                proof {
                    assert forall|n: Seq<char>| self@.out.contains(n) <==> before.out.remove(
                        name@,
                    ).contains(n) by {
                        if self@.out.contains(n) {
                            let i = choose|i: int| 0 <= i < self.out@.len() && self.out@[i]@ == n;
                            let i0 = if i < k {
                                i
                            } else {
                                i + 1
                            };
                            assert(self.out@[i] == old(self).out@[i0]);
                            if i0 < k {
                                assert(old(self).out@[i0]@ != old(self).out@[k as int]@);
                            } else {
                                assert(old(self).out@[k as int]@ != old(self).out@[i0]@);
                            }
                        }
                        if before.out.remove(name@).contains(n) {
                            let i0 = choose|i: int|
                                0 <= i < old(self).out@.len() && old(self).out@[i]@ == n;
                            let i = if i0 < k {
                                i0
                            } else {
                                i0 - 1
                            };
                            assert(self.out@[i] == old(self).out@[i0]);
                        }
                    }
                    assert(self@.out =~= before.out.remove(name@));
                    assert forall|i: int, j: int| 0 <= i < j < self.out@.len() implies self.out@[i]@
                        != self.out@[j]@ by {
                        let i0 = if i < k {
                            i
                        } else {
                            i + 1
                        };
                        let j0 = if j < k {
                            j
                        } else {
                            j + 1
                        };
                        assert(self.out@[i] == old(self).out@[i0]);
                        assert(self.out@[j] == old(self).out@[j0]);
                    }
                }
            },
            None => {
                proof {
                    assert(self@.out =~= before.out.remove(name@));
                }
            },
        }
        let ghost out_after = self@.out;
        match self.position(&name) {
            Some(k) => {
                proof {
                    lemma_site_slot(before, k as int);
                }
                self.locs[k] = site;
                proof {
                    assert(self@.sites =~= before.sites.update(k as int, incoming));
                    assert(self@.out == out_after);
                }
            },
            None => {
                self.locs.push(site);
                proof {
                    assert(self@.sites =~= before.sites.push(incoming));
                    assert(self@.out == out_after);
                }
            },
        }
        proof {
            assert(self@ == before.stashed(incoming));
            law_stashed(before, incoming);
        }
    }

    /// The text of the reports of all registered sites, each followed by a
    /// line of three hyphens. Sites that are checked out do not appear.
    pub fn report(&self) -> (text: String)
        requires
            self.wf(),
        ensures
            text@ == self@.report(),
    {
        let mut text = String::new();
        let mut k: usize = 0;
        while k < self.locs.len()
            invariant
                self.wf(),
                k <= self.locs@.len(),
                self@.sites.len() == self.locs@.len(),
                text@ == self@.report_upto(k as nat),
            decreases self.locs@.len() - k,
        {
            let block = self.locs[k].report();
            text.append(block.as_str());
            text.append("---\n");
            proof {
                assert(text@ =~= self@.report_upto(k as nat) + self@.sites[k as int].report()
                    + "---\n"@);
            }
            k += 1;
        }
        text
    }
}

} // verus!
