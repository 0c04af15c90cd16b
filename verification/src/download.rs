//! Bookkeeping of the bounded-concurrency download phase: URL and path
//! derivation, the admission gate that caps in-flight fetches, and the
//! deterministic partition of per-package outcomes.

use vstd::prelude::*;
use vstd::string::StringExecFns;

use crate::renv::{names_sorted, Package, PackageView};
use crate::text::lex_le;

verus! {

/// Outcome of one package fetch: HTTP 200 is `Done`, any other status is
/// `Failed`.
#[derive(Debug, Clone, Copy, PartialEq, Eq, Structural)]
pub enum Status {
    Done,
    Failed,
}

/// Classifies an HTTP status code.
pub fn status_of_http(code: u16) -> (r: Status)
    ensures
        r == (if code == 200 {
            Status::Done
        } else {
            Status::Failed
        }),
{
    if code == 200 {
        Status::Done
    } else {
        Status::Failed
    }
}

/// Where one package's archive lives under the repository base.
pub fn get_package_url(package: &Package) -> (r: String)
    ensures
        r@ == "https://repo.r-wasm.org/bin/emscripten/contrib/4.3/"@ + package@.name + "_"@
            + package@.version + ".tgz"@,
{
    let (name, version) = package.get_package();
    let mut r = "https://repo.r-wasm.org/bin/emscripten/contrib/4.3/".to_owned();
    r.append(name);
    r.append("_");
    r.append(version);
    r.append(".tgz");
    r
}

/// Where the verbatim index snapshot lives under the repository base.
pub fn get_packages_rds_url() -> (r: String)
    ensures
        r@ == "https://repo.r-wasm.org/bin/emscripten/contrib/4.3/PACKAGES.rds"@,
{
    "https://repo.r-wasm.org/bin/emscripten/contrib/4.3/PACKAGES.rds".to_owned()
}

/// The download tree under the output directory, as a relative path.
pub fn download_dir_rel() -> (r: String)
    ensures
        r@ == "repo/bin/emscripten/contrib/4.3"@,
{
    "repo/bin/emscripten/contrib/4.3".to_owned()
}

/// File name of one package's archive in the download tree.
pub fn package_file_name(package: &Package) -> (r: String)
    ensures
        r@ == package@.name + "_"@ + package@.version + ".tgz"@,
{
    let (name, version) = package.get_package();
    let mut r = name.to_owned();
    r.append("_");
    r.append(version);
    r.append(".tgz");
    r
}

/// The admission gate of the download phase: at most `capacity` fetches
/// may hold a slot at once. Slots are acquired for one package's whole
/// fetch-and-write and released on every exit path.
pub struct DownloadGate {
    capacity: usize,
    in_flight: usize,
}

impl DownloadGate {
    /// Upper bound on simultaneous fetches.
    pub closed spec fn spec_capacity(&self) -> int {
        self.capacity as int
    }

    /// How many fetches hold a slot.
    pub closed spec fn spec_in_flight(&self) -> int {
        self.in_flight as int
    }

    /// In-flight fetches never exceed the upper bound.
    pub open spec fn wf(&self) -> bool {
        1 <= self.spec_capacity() && self.spec_in_flight() <= self.spec_capacity()
    }

    /// A fresh gate with `capacity` slots, none taken.
    pub fn new(capacity: usize) -> (g: Self)
        requires
            capacity >= 1,
        ensures
            g.wf(),
            g.spec_capacity() == capacity,
            g.spec_in_flight() == 0,
    {
        DownloadGate { capacity, in_flight: 0 }
    }

    /// Takes a slot when one is free; refuses at capacity.
    pub fn try_acquire(&mut self) -> (r: bool)
        requires
            old(self).wf(),
        ensures
            final(self).wf(),
            final(self).spec_capacity() == old(self).spec_capacity(),
            r ==> old(self).spec_in_flight() < old(self).spec_capacity()
                && final(self).spec_in_flight() == old(self).spec_in_flight() + 1,
            !r ==> old(self).spec_in_flight() == old(self).spec_capacity()
                && final(self).spec_in_flight() == old(self).spec_in_flight(),
    {
        if self.in_flight < self.capacity {
            self.in_flight = self.in_flight + 1;
            true
        } else {
            false
        }
    }

    /// Returns a slot.
    pub fn release(&mut self)
        requires
            old(self).wf(),
            old(self).spec_in_flight() >= 1,
        ensures
            final(self).wf(),
            final(self).spec_capacity() == old(self).spec_capacity(),
            final(self).spec_in_flight() == old(self).spec_in_flight() - 1,
    {
        self.in_flight = self.in_flight - 1;
    }

    /// How many fetches hold a slot right now.
    pub fn in_flight(&self) -> (r: usize)
        ensures
            r == self.spec_in_flight(),
    {
        self.in_flight
    }

    /// Upper bound on simultaneous fetches.
    pub fn capacity(&self) -> (r: usize)
        ensures
            r == self.spec_capacity(),
    {
        self.capacity
    }
}

/// Law: however the fetch tasks interleave, a well-formed gate never has
/// more fetches in flight than its capacity; `try_acquire` refuses the
/// slot that would exceed it, and `release` only gives slots back.
pub proof fn lemma_concurrency_bound(g: DownloadGate)
    requires
        g.wf(),
    ensures
        g.spec_in_flight() <= g.spec_capacity(),
{
}

/// Ghost image of one finished fetch.
pub ghost struct OutcomeView {
    pub package: PackageView,
    pub status: Status,
}

/// One finished fetch: the package and how its download ended.
#[derive(Debug)]
pub struct DownloadOutcome {
    pub package: Package,
    pub status: Status,
}

impl View for DownloadOutcome {
    type V = OutcomeView;

    open spec fn view(&self) -> OutcomeView {
        OutcomeView { package: self.package@, status: self.status }
    }
}

impl DeepView for DownloadOutcome {
    type V = OutcomeView;

    open spec fn deep_view(&self) -> OutcomeView {
        self.view()
    }
}

/// The packages whose fetch ended `Done`, in outcome order.
pub open spec fn succeeded_of(s: Seq<OutcomeView>) -> Seq<PackageView>
    decreases s.len(),
{
    if s.len() == 0 {
        Seq::<PackageView>::empty()
    } else {
        let rest = succeeded_of(s.drop_last());
        if s.last().status is Done {
            rest.push(s.last().package)
        } else {
            rest
        }
    }
}

/// The packages whose fetch ended `Failed`, in outcome order.
pub open spec fn failed_of(s: Seq<OutcomeView>) -> Seq<PackageView>
    decreases s.len(),
{
    if s.len() == 0 {
        Seq::<PackageView>::empty()
    } else {
        let rest = failed_of(s.drop_last());
        if s.last().status is Failed {
            rest.push(s.last().package)
        } else {
            rest
        }
    }
}

/// The outcomes ascend by package name.
pub open spec fn outcomes_sorted(s: Seq<OutcomeView>) -> bool {
    forall|i: int, j: int|
        0 <= i < j < s.len() ==> lex_le(
            (#[trigger] s[i]).package.name,
            (#[trigger] s[j]).package.name,
        )
}

/// Some outcome carries the package `p`.
pub open spec fn outcome_for(s: Seq<OutcomeView>, p: PackageView) -> bool {
    exists|i: int| 0 <= i < s.len() && s[i].package == p
}

/// Law: the partition keeps the outcome order, so outcomes ordered by
/// package name give succeeded and failed lists ordered by package name
/// — the tie-break the reported partition owes.
pub proof fn lemma_partition_sorted(s: Seq<OutcomeView>)
    requires
        outcomes_sorted(s),
    ensures
        names_sorted(succeeded_of(s)),
        names_sorted(failed_of(s)),
        forall|k: int|
            0 <= k < succeeded_of(s).len() ==> outcome_for(s, #[trigger] succeeded_of(s)[k]),
        forall|k: int| 0 <= k < failed_of(s).len() ==> outcome_for(s, #[trigger] failed_of(s)[k]),
    decreases s.len(),
{
    if s.len() > 0 {
        let d = s.drop_last();
        assert(outcomes_sorted(d)) by {
            assert forall|i: int, j: int|
                0 <= i < j < d.len() implies lex_le(
                (#[trigger] d[i]).package.name,
                (#[trigger] d[j]).package.name,
            ) by {
                assert(d[i] == s[i]);
                assert(d[j] == s[j]);
            }
        }
        lemma_partition_sorted(d);
        assert forall|k: int|
            0 <= k < succeeded_of(s).len() implies outcome_for(
            s,
            #[trigger] succeeded_of(s)[k],
        ) && (k < succeeded_of(d).len() ==> succeeded_of(s)[k] == succeeded_of(d)[k]) by {
            if k < succeeded_of(d).len() {
                assert(succeeded_of(s)[k] == succeeded_of(d)[k]);
                assert(outcome_for(d, succeeded_of(d)[k]));
                let i = choose|i: int| 0 <= i < d.len() && d[i].package == succeeded_of(d)[k];
                assert(s[i].package == succeeded_of(d)[k]);
            } else {
                assert(succeeded_of(s)[k] == s.last().package);
                assert(s[s.len() - 1].package == succeeded_of(s)[k]);
            }
        }
        assert forall|k: int|
            0 <= k < failed_of(s).len() implies outcome_for(s, #[trigger] failed_of(s)[k]) && (k
            < failed_of(d).len() ==> failed_of(s)[k] == failed_of(d)[k]) by {
            if k < failed_of(d).len() {
                assert(failed_of(s)[k] == failed_of(d)[k]);
                assert(outcome_for(d, failed_of(d)[k]));
                let i = choose|i: int| 0 <= i < d.len() && d[i].package == failed_of(d)[k];
                assert(s[i].package == failed_of(d)[k]);
            } else {
                assert(failed_of(s)[k] == s.last().package);
                assert(s[s.len() - 1].package == failed_of(s)[k]);
            }
        }
        assert forall|a: int, b: int|
            0 <= a < b < succeeded_of(s).len() implies lex_le(
            (#[trigger] succeeded_of(s)[a]).name,
            (#[trigger] succeeded_of(s)[b]).name,
        ) by {
            if b < succeeded_of(d).len() {
                assert(succeeded_of(s)[a] == succeeded_of(d)[a]);
                assert(succeeded_of(s)[b] == succeeded_of(d)[b]);
            } else {
                assert(succeeded_of(s)[b] == s.last().package);
                assert(succeeded_of(s)[a] == succeeded_of(d)[a]);
                assert(outcome_for(d, succeeded_of(d)[a]));
                let i = choose|i: int| 0 <= i < d.len() && d[i].package == succeeded_of(d)[a];
                assert(s[i].package == succeeded_of(d)[a]);
                assert(lex_le(s[i].package.name, s[s.len() - 1].package.name));
            }
        }
        assert forall|a: int, b: int|
            0 <= a < b < failed_of(s).len() implies lex_le(
            (#[trigger] failed_of(s)[a]).name,
            (#[trigger] failed_of(s)[b]).name,
        ) by {
            if b < failed_of(d).len() {
                assert(failed_of(s)[a] == failed_of(d)[a]);
                assert(failed_of(s)[b] == failed_of(d)[b]);
            } else {
                assert(failed_of(s)[b] == s.last().package);
                assert(failed_of(s)[a] == failed_of(d)[a]);
                assert(outcome_for(d, failed_of(d)[a]));
                let i = choose|i: int| 0 <= i < d.len() && d[i].package == failed_of(d)[a];
                assert(s[i].package == failed_of(d)[a]);
                assert(lex_le(s[i].package.name, s[s.len() - 1].package.name));
            }
        }
    }
}

/// Splits the finished fetches into the succeeded and the failed
/// packages, both in outcome order: deterministic given the outcomes,
/// and exhaustive — every outcome lands in exactly one list. Outcomes
/// ordered by package name give lists ordered by package name.
pub fn partition_outcomes(outcomes: &Vec<DownloadOutcome>) -> (r: (Vec<Package>, Vec<Package>))
    ensures
        r.0.deep_view() == succeeded_of(outcomes.deep_view()),
        r.1.deep_view() == failed_of(outcomes.deep_view()),
        outcomes_sorted(outcomes.deep_view()) ==> names_sorted(r.0.deep_view()) && names_sorted(
            r.1.deep_view(),
        ),
{
    let mut succeeded: Vec<Package> = Vec::new();
    let mut failed: Vec<Package> = Vec::new();
    proof {
        assert(succeeded.deep_view() =~= Seq::<PackageView>::empty());
        assert(failed.deep_view() =~= Seq::<PackageView>::empty());
        assert(outcomes.deep_view().take(0) =~= Seq::<OutcomeView>::empty());
    }
    let n = outcomes.len();
    let mut i: usize = 0;
    while i < n
        invariant
            n == outcomes.len(),
            i <= n,
            succeeded.deep_view() == succeeded_of(outcomes.deep_view().take(i as int)),
            failed.deep_view() == failed_of(outcomes.deep_view().take(i as int)),
        decreases n - i,
    {
        let ghost pre = outcomes.deep_view().take(i as int);
        let ghost cur = outcomes.deep_view().take(i as int + 1);
        proof {
            assert(cur.drop_last() =~= pre);
            assert(cur.last() == outcomes.deep_view()[i as int]);
        }
        let ghost s_pre = succeeded.deep_view();
        let ghost f_pre = failed.deep_view();
        let p = outcomes[i].package.clone();
        match outcomes[i].status {
            Status::Done => {
                succeeded.push(p);
                proof {
                    assert(succeeded.deep_view() =~= s_pre.push(cur.last().package));
                }
            },
            Status::Failed => {
                failed.push(p);
                proof {
                    assert(failed.deep_view() =~= f_pre.push(cur.last().package));
                }
            },
        }
        i += 1;
    }
    proof {
        assert(outcomes.deep_view().take(n as int) =~= outcomes.deep_view());
        if outcomes_sorted(outcomes.deep_view()) {
            lemma_partition_sorted(outcomes.deep_view());
        }
    }
    (succeeded, failed)
}

} // verus!
