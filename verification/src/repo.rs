//! Reconciliation of a lockfile package set against the remote
//! availability index: the replace pass, the transitive-closure pass and
//! the facts that hold of every resolved set.

use vstd::prelude::*;
use vstd::string::StringExecFns;

use crate::errors::Error;
use crate::renv::{
    has_name, idx_of, lemma_idx_unique, lemma_num_lt_name_bounds, lemma_strings_insert,
    names_sorted, num_lt_name, num_lt_str, record_of, remove_spec, strings_sorted, unique_names,
    upsert, upsert_spec, find_package, Package, PackageView, RenvLock,
};
use crate::text::{
    find_char, find_char_from, first_token, first_token_of, last_token, last_token_of,
    lemma_find_char, lemma_find_char_unique, lex_le, str_eq, vec_contains_str,
};

verus! {

/// Every record of `lock` is present in `index` under the very same record.
pub open spec fn sound(lock: Seq<PackageView>, index: Seq<PackageView>) -> bool {
    forall|i: int|
        0 <= i < lock.len() ==> has_name(index, (#[trigger] lock[i]).name) && lock[i] == record_of(
            index,
            lock[i].name,
        )
}

/// Every dependency of `p` that the index can resolve is present in `lock`.
pub open spec fn req_in(lock: Seq<PackageView>, index: Seq<PackageView>, p: PackageView) -> bool {
    forall|j: int|
        0 <= j < p.requirements.len() && has_name(index, #[trigger] p.requirements[j]) ==> has_name(
            lock,
            p.requirements[j],
        )
}

/// `lock` is transitively closed: no record's resolvable dependency is missing.
pub open spec fn closed(lock: Seq<PackageView>, index: Seq<PackageView>) -> bool {
    forall|i: int| 0 <= i < lock.len() ==> req_in(lock, index, #[trigger] lock[i])
}

/// Result of the replace pass: the records of `lock` whose names the index
/// offers, each replaced by the index's current record, in lockfile order.
pub open spec fn replace_spec(lock: Seq<PackageView>, index: Seq<PackageView>) -> Seq<PackageView>
    decreases lock.len(),
{
    if lock.len() == 0 {
        Seq::<PackageView>::empty()
    } else {
        let rest = replace_spec(lock.drop_last(), index);
        if has_name(index, lock.last().name) {
            rest.push(record_of(index, lock.last().name))
        } else {
            rest
        }
    }
}

/// Diagnostic line for a record dropped by the replace pass.
pub open spec fn diag_of(p: PackageView) -> Seq<char> {
    p.name + " ("@ + p.version + ")"@
}

/// The diagnostics of the replace pass: one line per record of `lock`
/// absent from `index`, in lockfile order.
pub open spec fn dropped_diags(lock: Seq<PackageView>, index: Seq<PackageView>) -> Seq<Seq<char>>
    decreases lock.len(),
{
    if lock.len() == 0 {
        Seq::<Seq<char>>::empty()
    } else {
        let rest = dropped_diags(lock.drop_last(), index);
        if has_name(index, lock.last().name) {
            rest
        } else {
            rest.push(diag_of(lock.last()))
        }
    }
}

/// A name is kept by the replace pass exactly when both sides know it.
pub proof fn lemma_replace_has_name(lock: Seq<PackageView>, index: Seq<PackageView>, n: Seq<char>)
    ensures
        has_name(replace_spec(lock, index), n) <==> (has_name(lock, n) && has_name(index, n)),
    decreases lock.len(),
{
    broadcast use vstd::seq_lib::group_seq_properties;

    if lock.len() == 0 {
        assert(!has_name(replace_spec(lock, index), n));
        assert(!has_name(lock, n));
    } else {
        let rest = replace_spec(lock.drop_last(), index);
        lemma_replace_has_name(lock.drop_last(), index, n);
        if has_name(index, lock.last().name) {
            let r = record_of(index, lock.last().name);
            assert(r.name == lock.last().name);
            if has_name(rest.push(r), n) {
                let i = idx_of(rest.push(r), n);
                if i < rest.len() {
                    assert(rest[i].name == n);
                    assert(has_name(rest, n));
                } else {
                    assert(n == lock.last().name);
                    assert(has_name(lock, n)) by {
                        assert(lock[lock.len() - 1].name == n);
                    }
                }
            }
            if has_name(lock, n) && has_name(index, n) {
                let i = idx_of(lock, n);
                if i < lock.len() - 1 {
                    assert(lock.drop_last()[i].name == n);
                    assert(has_name(lock.drop_last(), n));
                    assert(has_name(rest, n));
                    let k = idx_of(rest, n);
                    assert(rest.push(r)[k].name == n);
                } else {
                    assert(rest.push(r)[rest.len() as int].name == n);
                }
            }
        } else {
            if has_name(lock, n) && has_name(index, n) {
                let i = idx_of(lock, n);
                assert(i < lock.len() - 1) by {
                    if i == lock.len() - 1 {
                        assert(has_name(index, lock.last().name));
                    }
                }
                assert(lock.drop_last()[i].name == n);
                assert(has_name(lock.drop_last(), n));
            }
            if has_name(rest, n) {
                let i = idx_of(rest, n);
                assert(has_name(lock.drop_last(), n) && has_name(index, n));
                let k = idx_of(lock.drop_last(), n);
                assert(lock[k].name == n);
            }
        }
    }
}

/// Law: a package set that is already sound for the index is a fixed
/// point of the replace pass, and the pass emits no diagnostics for it.
/// Together with the closure pass leaving a closed set untouched, this
/// is why resolving twice gives the same set as resolving once.
pub proof fn lemma_resolved_fixed_point(lock: Seq<PackageView>, index: Seq<PackageView>)
    requires
        sound(lock, index),
    ensures
        replace_spec(lock, index) == lock,
        dropped_diags(lock, index) == Seq::<Seq<char>>::empty(),
    decreases lock.len(),
{
    if lock.len() == 0 {
        assert(replace_spec(lock, index) =~= lock);
    } else {
        assert(sound(lock.drop_last(), index)) by {
            assert forall|i: int|
                0 <= i < lock.drop_last().len() implies has_name(
                index,
                (#[trigger] lock.drop_last()[i]).name,
            ) && lock.drop_last()[i] == record_of(index, lock.drop_last()[i].name) by {
                assert(lock.drop_last()[i] == lock[i]);
            }
        }
        lemma_resolved_fixed_point(lock.drop_last(), index);
        assert(has_name(index, lock.last().name) && lock.last() == record_of(
            index,
            lock.last().name,
        )) by {
            assert(lock[lock.len() - 1] == lock.last());
        }
        assert(replace_spec(lock, index) =~= lock);
    }
}

/// Prefixes carry their members into every extension.
pub proof fn lemma_prefix_contains<A>(a: Seq<A>, b: Seq<A>, x: A)
    requires
        a.is_prefix_of(b),
        a.contains(x),
    ensures
        b.contains(x),
{
    let i = choose|i: int| 0 <= i < a.len() && a[i] == x;
    assert(a[i] == b.subrange(0, a.len() as int)[i]);
    assert(b[i] == x);
}

/// Being a prefix is transitive.
pub proof fn lemma_prefix_trans<A>(a: Seq<A>, b: Seq<A>, c: Seq<A>)
    requires
        a.is_prefix_of(b),
        b.is_prefix_of(c),
    ensures
        a.is_prefix_of(c),
{
    assert forall|i: int| 0 <= i < a.len() implies a[i] == c.subrange(0, a.len() as int)[i] by {
        assert(a[i] == b.subrange(0, a.len() as int)[i]);
        assert(b[i] == c.subrange(0, b.len() as int)[i]);
    }
    assert(a =~= c.subrange(0, a.len() as int));
}

/// Names marked visited during the closure walk: pairwise distinct and all
/// resolvable by the index.
pub open spec fn visited_ok(vis: Seq<Seq<char>>, index: Seq<PackageView>) -> bool {
    vis.no_duplicates() && forall|i: int| 0 <= i < vis.len() ==> has_name(index, #[trigger] vis[i])
}

/// All resolvable dependencies of the index record named `n` are visited.
pub open spec fn reqs_visited(index: Seq<PackageView>, vis: Seq<Seq<char>>, n: Seq<char>) -> bool {
    forall|j: int|
        0 <= j < record_of(index, n).requirements.len() && has_name(
            index,
            #[trigger] record_of(index, n).requirements[j],
        ) ==> vis.contains(record_of(index, n).requirements[j])
}

/// The visited set can never outgrow the index it draws from.
pub proof fn lemma_visited_bounded(vis: Seq<Seq<char>>, index: Seq<PackageView>)
    requires
        visited_ok(vis, index),
        unique_names(index),
    ensures
        vis.len() <= index.len(),
{
    broadcast use vstd::seq_lib::seq_to_set_is_finite;

    let names = index.map_values(|p: PackageView| p.name);
    assert(names.no_duplicates()) by {
        assert forall|i: int, j: int|
            0 <= i < names.len() && 0 <= j < names.len() && i != j implies names[i] != names[j] by {
            if i < j {
                assert(index[i].name != index[j].name);
            } else {
                assert(index[j].name != index[i].name);
            }
        }
    }
    vis.unique_seq_to_set();
    names.unique_seq_to_set();
    assert(vis.to_set().subset_of(names.to_set())) by {
        assert forall|x: Seq<char>| vis.to_set().contains(x) implies names.to_set().contains(x) by {
            let i = choose|i: int| 0 <= i < vis.len() && vis[i] == x;
            assert(has_name(index, vis[i]));
            let k = idx_of(index, x);
            assert(names[k] == x);
            assert(names.contains(x));
        }
    }
    vstd::set_lib::lemma_len_subset(vis.to_set(), names.to_set());
}

/// Inserting an index record into a sound set either changes nothing
/// (the name was present, pinned by soundness to the very same record)
/// or adds exactly that one record.
pub proof fn lemma_upsert_sound(lock: Seq<PackageView>, index: Seq<PackageView>, p: PackageView)
    requires
        sound(lock, index),
        has_name(index, p.name),
        p == record_of(index, p.name),
    ensures
        has_name(lock, p.name) ==> upsert_spec(lock, p) == lock,
        sound(upsert_spec(lock, p), index),
        has_name(upsert_spec(lock, p), p.name),
        forall|n: Seq<char>| #[trigger] has_name(lock, n) ==> has_name(upsert_spec(lock, p), n),
        forall|i: int|
            0 <= i < upsert_spec(lock, p).len() ==> has_name(
                lock,
                (#[trigger] upsert_spec(lock, p)[i]).name,
            ) || upsert_spec(lock, p)[i].name == p.name,
{
    if has_name(lock, p.name) {
        let i = idx_of(lock, p.name);
        assert(lock[i].name == p.name);
        assert(lock[i] == record_of(index, lock[i].name));
        assert(lock.update(i, p) =~= lock);
        assert forall|n: Seq<char>|
            #[trigger] has_name(lock, n) implies has_name(upsert_spec(lock, p), n) by {
        }
        assert forall|i2: int|
            0 <= i2 < upsert_spec(lock, p).len() implies has_name(
            lock,
            (#[trigger] upsert_spec(lock, p)[i2]).name,
        ) || upsert_spec(lock, p)[i2].name == p.name by {
            assert(upsert_spec(lock, p)[i2] == lock[i2]);
        }
    } else {
        let pos = num_lt_name(lock, p.name);
        lemma_num_lt_name_bounds(lock, p.name);
        let w = lock.insert(pos, p);
        lock.insert_ensures(pos, p);
        assert forall|i: int|
            0 <= i < w.len() implies has_name(lock, (#[trigger] w[i]).name) || w[i].name
            == p.name by {
            if i < pos {
                assert(w[i] == lock[i]);
            } else if i == pos {
            } else {
                assert(w[i] == lock[i - 1]);
            }
        }
        assert(sound(w, index)) by {
            assert forall|i: int|
                0 <= i < w.len() implies has_name(index, (#[trigger] w[i]).name) && w[i]
                == record_of(index, w[i].name) by {
                if i < pos {
                    assert(w[i] == lock[i]);
                } else if i == pos {
                } else {
                    assert(w[i] == lock[i - 1]);
                }
            }
        }
        assert forall|n: Seq<char>| #[trigger] has_name(lock, n) implies has_name(w, n) by {
            let i = idx_of(lock, n);
            if i < pos {
                assert(w[i].name == n);
            } else {
                assert(w[i + 1] == lock[i]);
            }
        }
        assert(w[pos].name == p.name);
        assert(has_name(w, p.name));
    }
}

/// A sound set has no record for a name the index lacks, so removing that
/// name changes nothing.
pub proof fn lemma_remove_absent(lock: Seq<PackageView>, index: Seq<PackageView>, n: Seq<char>)
    requires
        sound(lock, index),
        !has_name(index, n),
    ensures
        remove_spec(lock, n) == lock,
{
    if has_name(lock, n) {
        let i = idx_of(lock, n);
        assert(has_name(index, lock[i].name));
    }
}

/// Reconciles a lockfile package set against the availability index of a
/// remote repository for one runtime/target pair.
pub struct VesionMatcher {
    available_packages: Vec<Package>,
}

impl View for VesionMatcher {
    type V = Seq<PackageView>;

    closed spec fn view(&self) -> Seq<PackageView> {
        self.available_packages.deep_view()
    }
}

impl VesionMatcher {
    /// The index is well formed when its record names are pairwise distinct.
    pub open spec fn wf(&self) -> bool {
        unique_names(self@)
    }

    /// Wraps an availability index, one record per package name.
    pub fn new(available_packages: Vec<Package>) -> (r: Self)
        requires
            unique_names(available_packages.deep_view()),
        ensures
            r@ == available_packages.deep_view(),
            r.wf(),
    {
        VesionMatcher { available_packages }
    }

    /// Replace pass: rewrites every record to the index's current one and
    /// drops records the index does not offer, returning one diagnostic
    /// line per dropped record.
    fn replace_libraries(&self, renv_lock: &mut RenvLock) -> (diags: Vec<String>)
        requires
            self.wf(),
            old(renv_lock).wf(),
        ensures
            final(renv_lock)@ == replace_spec(old(renv_lock)@, self@),
            final(renv_lock).wf(),
            sound(final(renv_lock)@, self@),
            diags.deep_view() == dropped_diags(old(renv_lock)@, self@),
            sound(old(renv_lock)@, self@) ==> final(renv_lock)@ == old(renv_lock)@
                && diags.deep_view() == Seq::<Seq<char>>::empty(),
    {
        let ghost r0 = renv_lock@;
        let ghost index = self@;
        let mut out: Vec<Package> = Vec::new();
        let mut diags: Vec<String> = Vec::new();
        let n = renv_lock.len();
        proof {
            assert(r0.take(0) =~= Seq::<PackageView>::empty());
            assert(out.deep_view() =~= Seq::<PackageView>::empty());
            assert(diags.deep_view() =~= Seq::<Seq<char>>::empty());
        }
        let mut i: usize = 0;
        while i < n
            invariant
                self.wf(),
                index == self@,
                renv_lock@ == r0,
                renv_lock.wf(),
                n == r0.len(),
                i <= n,
                out.deep_view() == replace_spec(r0.take(i as int), index),
                diags.deep_view() == dropped_diags(r0.take(i as int), index),
                unique_names(out.deep_view()),
                names_sorted(out.deep_view()),
                sound(out.deep_view(), index),
                forall|k: int|
                    0 <= k < out.deep_view().len() ==> has_name(
                        r0.take(i as int),
                        (#[trigger] out.deep_view()[k]).name,
                    ),
                sound(r0, index) ==> out.deep_view() == r0.take(i as int)
                    && diags.deep_view() == Seq::<Seq<char>>::empty(),
            decreases n - i,
        {
            let ghost pre = r0.take(i as int);
            let ghost cur = r0.take(i as int + 1);
            proof {
                assert(cur.drop_last() =~= pre);
                assert(cur.last() == r0[i as int]);
            }
            let p = renv_lock.package_at(i);
            let (pname, pversion) = p.get_package();
            let ghost out_pre = out.deep_view();
            let ghost diags_pre = diags.deep_view();
            match find_package(&self.available_packages, pname) {
                Some(j) => {
                    proof {
                        lemma_idx_unique(index, r0[i as int].name, j as int);
                    }
                    let rec = self.available_packages[j].clone();
                    out.push(rec);
                    proof {
                        assert(out.deep_view() =~= out_pre.push(record_of(index, cur.last().name)));
                        // the appended name is new: it occurs in r0 at position i alone
                        assert forall|a: int, b: int|
                            0 <= a < b < out.deep_view().len() implies out.deep_view()[a].name
                            != out.deep_view()[b].name by {
                            if b == out.deep_view().len() - 1 {
                                assert(out.deep_view()[a] == out_pre[a]);
                                if out.deep_view()[a].name == r0[i as int].name {
                                    assert(has_name(pre, out_pre[a].name));
                                    let k = idx_of(pre, out_pre[a].name);
                                    assert(r0[k].name == r0[i as int].name);
                                }
                            } else {
                                assert(out.deep_view()[a] == out_pre[a]);
                                assert(out.deep_view()[b] == out_pre[b]);
                            }
                        }
                        assert forall|a: int, b: int|
                            0 <= a < b < out.deep_view().len() implies lex_le(
                            (#[trigger] out.deep_view()[a]).name,
                            (#[trigger] out.deep_view()[b]).name,
                        ) by {
                            if b == out.deep_view().len() - 1 {
                                assert(out.deep_view()[a] == out_pre[a]);
                                assert(has_name(pre, out_pre[a].name));
                                let w = idx_of(pre, out_pre[a].name);
                                assert(r0[w].name == out_pre[a].name);
                                assert(lex_le(r0[w].name, r0[i as int].name));
                                assert(out.deep_view()[b].name == r0[i as int].name);
                            } else {
                                assert(out.deep_view()[a] == out_pre[a]);
                                assert(out.deep_view()[b] == out_pre[b]);
                            }
                        }
                        assert forall|k: int|
                            0 <= k < out.deep_view().len() implies has_name(
                            cur,
                            (#[trigger] out.deep_view()[k]).name,
                        ) by {
                            if k < out_pre.len() {
                                assert(out.deep_view()[k] == out_pre[k]);
                                assert(has_name(pre, out_pre[k].name));
                                let a = idx_of(pre, out_pre[k].name);
                                assert(cur[a].name == out_pre[k].name);
                            } else {
                                assert(cur[i as int].name == out.deep_view()[k].name);
                            }
                        }
                        if sound(r0, index) {
                            assert(r0[i as int] == record_of(index, r0[i as int].name));
                            assert(out.deep_view() =~= cur);
                        }
                    }
                },
                None => {
                    let mut d = pname.to_owned();
                    d.append(" (");
                    d.append(pversion);
                    d.append(")");
                    diags.push(d);
                    proof {
                        assert(diags.deep_view() =~= diags_pre.push(diag_of(cur.last())));
                        if sound(r0, index) {
                            assert(has_name(index, r0[i as int].name));
                            assert(false);
                        }
                    }
                },
            }
            i += 1;
        }
        proof {
            assert(r0.take(n as int) =~= r0);
        }
        renv_lock.set_packages(out);
        diags
    }

    /// Closure walk for one record: inserts every dependency the index
    /// resolves (with the index's record) before walking that dependency's
    /// own dependencies, and removes dependencies the index lacks.
    fn insert_pkg_deps(&self, pkg: &Package, renv_lock: &mut RenvLock, visited: &mut Vec<String>)
        requires
            self.wf(),
            old(renv_lock).wf(),
            sound(old(renv_lock)@, self@),
            visited_ok(old(visited).deep_view(), self@),
            forall|i: int|
                0 <= i < old(visited).deep_view().len() ==> has_name(
                    old(renv_lock)@,
                    #[trigger] old(visited).deep_view()[i],
                ),
        ensures
            final(renv_lock).wf(),
            sound(final(renv_lock)@, self@),
            visited_ok(final(visited).deep_view(), self@),
            forall|n: Seq<char>|
                #[trigger] has_name(old(renv_lock)@, n) ==> has_name(final(renv_lock)@, n),
            old(visited).deep_view().is_prefix_of(final(visited).deep_view()),
            forall|i: int|
                0 <= i < final(visited).deep_view().len() ==> has_name(
                    final(renv_lock)@,
                    #[trigger] final(visited).deep_view()[i],
                ),
            forall|j: int|
                0 <= j < pkg@.requirements.len() && has_name(
                    self@,
                    #[trigger] pkg@.requirements[j],
                ) ==> final(visited).deep_view().contains(pkg@.requirements[j]),
            forall|i: int|
                old(visited).deep_view().len() <= i < final(visited).deep_view().len()
                    ==> reqs_visited(
                    self@,
                    final(visited).deep_view(),
                    #[trigger] final(visited).deep_view()[i],
                ),
            forall|i: int|
                0 <= i < final(renv_lock)@.len() ==> has_name(
                    old(renv_lock)@,
                    (#[trigger] final(renv_lock)@[i]).name,
                ) || final(visited).deep_view().contains(final(renv_lock)@[i].name),
            (closed(old(renv_lock)@, self@) && has_name(old(renv_lock)@, pkg@.name) && pkg@
                == record_of(self@, pkg@.name)) ==> final(renv_lock)@ == old(renv_lock)@,
        decreases self@.len() - visited.deep_view().len(),
    {
        let ghost index = self@;
        let ghost r0 = renv_lock@;
        let ghost v0 = visited.deep_view();
        let reqs = pkg.get_requirements();
        let n = reqs.len();
        let mut k: usize = 0;
        proof {
            assert(v0.is_prefix_of(v0)) by {
                assert(v0 =~= v0.subrange(0, v0.len() as int));
            }
            assert forall|i: int| 0 <= i < renv_lock@.len() implies has_name(
                r0,
                (#[trigger] renv_lock@[i]).name,
            ) by {
                assert(r0[i].name == renv_lock@[i].name);
            }
        }
        while k < n
            invariant
                self.wf(),
                index == self@,
                r0 == old(renv_lock)@,
                v0 == old(visited).deep_view(),
                n == pkg@.requirements.len(),
                reqs.deep_view() == pkg@.requirements,
                n == reqs.len(),
                k <= n,
                renv_lock.wf(),
                sound(renv_lock@, index),
                visited_ok(visited.deep_view(), index),
                forall|nm: Seq<char>| #[trigger] has_name(r0, nm) ==> has_name(renv_lock@, nm),
                v0.is_prefix_of(visited.deep_view()),
                forall|i: int|
                    0 <= i < visited.deep_view().len() ==> has_name(
                        renv_lock@,
                        #[trigger] visited.deep_view()[i],
                    ),
                forall|j: int|
                    0 <= j < k && has_name(index, #[trigger] pkg@.requirements[j])
                        ==> visited.deep_view().contains(pkg@.requirements[j]),
                forall|i: int|
                    v0.len() <= i < visited.deep_view().len() ==> reqs_visited(
                        index,
                        visited.deep_view(),
                        #[trigger] visited.deep_view()[i],
                    ),
                forall|i: int|
                    0 <= i < renv_lock@.len() ==> has_name(
                        r0,
                        (#[trigger] renv_lock@[i]).name,
                    ) || visited.deep_view().contains(renv_lock@[i].name),
                (closed(r0, index) && has_name(r0, pkg@.name) && pkg@ == record_of(
                    index,
                    pkg@.name,
                )) ==> renv_lock@ == r0,
            decreases n - k,
        {
            let dep: &String = &reqs[k];
            let ghost dname = pkg@.requirements[k as int];
            proof {
                assert(dep@ == dname);
            }
            let ghost renv_pre = renv_lock@;
            let ghost vis_pre = visited.deep_view();
            match find_package(&self.available_packages, dep.as_str()) {
                Some(j) => {
                    proof {
                        lemma_idx_unique(index, dname, j as int);
                    }
                    if !vec_contains_str(visited, dep.as_str()) {
                        visited.push(dep.clone());
                        proof {
                            assert(visited.deep_view() =~= vis_pre.push(dname));
                            assert forall|a: int, b: int|
                                0 <= a < visited.deep_view().len() && 0 <= b
                                    < visited.deep_view().len() && a != b implies visited.deep_view()[a]
                                != visited.deep_view()[b] by {
                                if a < vis_pre.len() && b < vis_pre.len() {
                                    assert(visited.deep_view()[a] == vis_pre[a]);
                                    assert(visited.deep_view()[b] == vis_pre[b]);
                                } else if b == vis_pre.len() {
                                    assert(visited.deep_view()[a] == vis_pre[a]);
                                    if vis_pre[a] == dname {
                                        assert(vis_pre.contains(dname));
                                    }
                                } else {
                                    assert(visited.deep_view()[b] == vis_pre[b]);
                                    if vis_pre[b] == dname {
                                        assert(vis_pre.contains(dname));
                                    }
                                }
                            }
                            lemma_visited_bounded(visited.deep_view(), index);
                        }
                        let dep_pkg = self.available_packages[j].clone();
                        renv_lock.insert(dep_pkg);
                        proof {
                            lemma_upsert_sound(renv_pre, index, record_of(index, dname));
                            assert(record_of(index, dname).name == dname);
                            assert(vis_pre.is_prefix_of(visited.deep_view())) by {
                                assert(vis_pre =~= visited.deep_view().subrange(
                                    0,
                                    vis_pre.len() as int,
                                ));
                            }
                            assert forall|i: int|
                                0 <= i < visited.deep_view().len() implies has_name(
                                renv_lock@,
                                #[trigger] visited.deep_view()[i],
                            ) by {
                                if i < vis_pre.len() {
                                    assert(visited.deep_view()[i] == vis_pre[i]);
                                    assert(has_name(renv_pre, vis_pre[i]));
                                } else {
                                    assert(visited.deep_view()[i] == dname);
                                    assert(has_name(renv_lock@, dname));
                                }
                            }
                            assert forall|i: int|
                                0 <= i < renv_lock@.len() implies has_name(
                                r0,
                                (#[trigger] renv_lock@[i]).name,
                            ) || visited.deep_view().contains(renv_lock@[i].name) by {
                                if renv_lock@[i].name == dname {
                                    assert(visited.deep_view()[vis_pre.len() as int] == dname);
                                    assert(visited.deep_view().contains(dname));
                                } else {
                                    assert(has_name(renv_pre, renv_lock@[i].name));
                                    let w = idx_of(renv_pre, renv_lock@[i].name);
                                    assert(renv_pre[w].name == renv_lock@[i].name);
                                    if !has_name(r0, renv_pre[w].name) {
                                        assert(vis_pre.contains(renv_pre[w].name));
                                        lemma_prefix_contains(
                                            vis_pre,
                                            visited.deep_view(),
                                            renv_pre[w].name,
                                        );
                                    }
                                }
                            }
                        }
                        let ghost renv_mid = renv_lock@;
                        let ghost vis_mid = visited.deep_view();
                        let walk = self.available_packages[j].clone();
                        proof {
                            // termination: the freshly visited name shrinks
                            // the measure, which the index keeps nonnegative
                            assert(vis_mid.len() == vis_pre.len() + 1);
                            assert(v0.len() <= vis_pre.len());
                            assert(vis_mid.len() <= self@.len());
                            assert(self@.len() - vis_mid.len() < self@.len() - v0.len());
                        }
                        self.insert_pkg_deps(&walk, renv_lock, visited);
                        proof {
                            // stitch the two extensions together
                            lemma_prefix_trans(v0, vis_pre, vis_mid);
                            lemma_prefix_trans(v0, vis_mid, visited.deep_view());
                            assert(vis_pre.is_prefix_of(visited.deep_view())) by {
                                lemma_prefix_trans(vis_pre, vis_mid, visited.deep_view());
                            }
                            assert forall|nm: Seq<char>|
                                #[trigger] has_name(r0, nm) implies has_name(renv_lock@, nm) by {
                                assert(has_name(renv_pre, nm));
                                assert(has_name(renv_mid, nm));
                            }
                            assert forall|i: int|
                                0 <= i < renv_lock@.len() implies has_name(
                                r0,
                                (#[trigger] renv_lock@[i]).name,
                            ) || visited.deep_view().contains(renv_lock@[i].name) by {
                                if has_name(renv_mid, renv_lock@[i].name) {
                                    let w = idx_of(renv_mid, renv_lock@[i].name);
                                    assert(renv_mid[w].name == renv_lock@[i].name);
                                    if !has_name(r0, renv_mid[w].name) {
                                        assert(vis_mid.contains(renv_mid[w].name));
                                        lemma_prefix_contains(
                                            vis_mid,
                                            visited.deep_view(),
                                            renv_mid[w].name,
                                        );
                                    }
                                }
                            }
                            // earlier processed requirements stay visited
                            assert forall|jj: int|
                                0 <= jj < k + 1 && has_name(
                                    index,
                                    #[trigger] pkg@.requirements[jj],
                                ) implies visited.deep_view().contains(pkg@.requirements[jj]) by {
                                if jj < k {
                                    lemma_prefix_contains(
                                        vis_pre,
                                        visited.deep_view(),
                                        pkg@.requirements[jj],
                                    );
                                } else {
                                    assert(vis_mid.contains(dname)) by {
                                        assert(vis_mid[vis_pre.len() as int] == dname);
                                    }
                                    lemma_prefix_contains(vis_mid, visited.deep_view(), dname);
                                }
                            }
                            // newly visited names are closed with respect to the walk
                            assert forall|i: int|
                                v0.len() <= i < visited.deep_view().len() implies reqs_visited(
                                index,
                                visited.deep_view(),
                                #[trigger] visited.deep_view()[i],
                            ) by {
                                if i < vis_pre.len() {
                                    assert(visited.deep_view()[i] == vis_pre[i]);
                                    assert(reqs_visited(index, vis_pre, vis_pre[i]));
                                    assert forall|j2: int|
                                        0 <= j2 < record_of(
                                            index,
                                            vis_pre[i],
                                        ).requirements.len() && has_name(
                                            index,
                                            #[trigger] record_of(index, vis_pre[i]).requirements[j2],
                                        ) implies visited.deep_view().contains(
                                        record_of(index, vis_pre[i]).requirements[j2],
                                    ) by {
                                        lemma_prefix_contains(
                                            vis_pre,
                                            visited.deep_view(),
                                            record_of(index, vis_pre[i]).requirements[j2],
                                        );
                                    }
                                } else if i == vis_pre.len() {
                                    assert(visited.deep_view()[i] == vis_mid[i]) by {
                                        assert(vis_mid[i] == visited.deep_view().subrange(
                                            0,
                                            vis_mid.len() as int,
                                        )[i]);
                                    }
                                    assert(visited.deep_view()[i] == dname);
                                    assert(walk@ == record_of(index, dname));
                                    assert(reqs_visited(index, visited.deep_view(), dname));
                                } else {
                                    assert(reqs_visited(
                                        index,
                                        visited.deep_view(),
                                        visited.deep_view()[i],
                                    ));
                                }
                            }
                            // fixed point: nothing moves when the set was closed
                            if closed(r0, index) && has_name(r0, pkg@.name) && pkg@ == record_of(
                                index,
                                pkg@.name,
                            ) {
                                assert(renv_pre == r0);
                                let pi = idx_of(r0, pkg@.name);
                                assert(req_in(r0, index, r0[pi]));
                                assert(r0[pi] == record_of(index, pkg@.name));
                                assert(r0[pi].requirements[k as int] == dname);
                                assert(has_name(r0, dname));
                                assert(renv_mid == r0);
                                assert(record_of(index, dname) == record_of(r0, dname)) by {
                                    let di = idx_of(r0, dname);
                                    assert(r0[di] == record_of(index, r0[di].name));
                                }
                                assert(renv_lock@ == r0);
                            }
                        }
                    } else {
                        proof {
                            assert(visited.deep_view().contains(dname));
                        }
                    }
                },
                None => {
                    renv_lock.remove(dep.as_str());
                    proof {
                        lemma_remove_absent(renv_pre, index, dname);
                    }
                },
            }
            k += 1;
        }
    }

    /// Closure pass: walks the dependencies of every record of the
    /// post-replace snapshot, pulling in what the index resolves.
    fn insert_depends(&self, renv_lock: &mut RenvLock)
        requires
            self.wf(),
            old(renv_lock).wf(),
            sound(old(renv_lock)@, self@),
        ensures
            final(renv_lock).wf(),
            sound(final(renv_lock)@, self@),
            closed(final(renv_lock)@, self@),
            forall|n: Seq<char>|
                #[trigger] has_name(old(renv_lock)@, n) ==> has_name(final(renv_lock)@, n),
            closed(old(renv_lock)@, self@) ==> final(renv_lock)@ == old(renv_lock)@,
    {
        let ghost index = self@;
        let ghost r0 = renv_lock@;
        let pkgs = renv_lock.packages();
        let roots = pkgs.clone();
        proof {
            assert forall|a: int| 0 <= a < roots@.len() implies roots.deep_view()[a] == r0[a] by {
                assert(cloned::<Package>(pkgs[a], roots[a]));
            }
            assert(roots.deep_view() =~= r0);
        }
        let mut visited: Vec<String> = Vec::new();
        proof {
            assert(visited.deep_view() =~= Seq::<Seq<char>>::empty());
            assert forall|v: int| 0 <= v < renv_lock@.len() implies has_name(
                r0,
                (#[trigger] renv_lock@[v]).name,
            ) by {
                assert(r0[v].name == renv_lock@[v].name);
            }
        }
        let nroots = roots.len();
        let mut i: usize = 0;
        while i < nroots
            invariant
                self.wf(),
                index == self@,
                roots.deep_view() == r0,
                nroots == roots.len(),
                nroots == r0.len(),
                i <= nroots,
                renv_lock.wf(),
                sound(renv_lock@, index),
                visited_ok(visited.deep_view(), index),
                forall|nm: Seq<char>| #[trigger] has_name(r0, nm) ==> has_name(renv_lock@, nm),
                forall|v: int|
                    0 <= v < visited.deep_view().len() ==> has_name(
                        renv_lock@,
                        #[trigger] visited.deep_view()[v],
                    ),
                forall|v: int|
                    0 <= v < visited.deep_view().len() ==> reqs_visited(
                        index,
                        visited.deep_view(),
                        #[trigger] visited.deep_view()[v],
                    ),
                forall|v: int|
                    0 <= v < renv_lock@.len() ==> has_name(
                        r0,
                        (#[trigger] renv_lock@[v]).name,
                    ) || visited.deep_view().contains(renv_lock@[v].name),
                forall|idx: int, j: int|
                    0 <= idx < i && 0 <= j < r0[idx].requirements.len() && has_name(
                        index,
                        #[trigger] r0[idx].requirements[j],
                    ) ==> visited.deep_view().contains(r0[idx].requirements[j]),
                closed(r0, index) ==> renv_lock@ == r0,
            decreases nroots - i,
        {
            let root = &roots[i];
            proof {
                assert(root@ == r0[i as int]);
            }
            let ghost renv_pre = renv_lock@;
            let ghost vis_pre = visited.deep_view();
            self.insert_pkg_deps(root, renv_lock, &mut visited);
            proof {
                assert forall|nm: Seq<char>|
                    #[trigger] has_name(r0, nm) implies has_name(renv_lock@, nm) by {
                    assert(has_name(renv_pre, nm));
                }
                assert forall|v: int|
                    0 <= v < renv_lock@.len() implies has_name(
                    r0,
                    (#[trigger] renv_lock@[v]).name,
                ) || visited.deep_view().contains(renv_lock@[v].name) by {
                    if has_name(renv_pre, renv_lock@[v].name) {
                        let w = idx_of(renv_pre, renv_lock@[v].name);
                        assert(renv_pre[w].name == renv_lock@[v].name);
                        if !has_name(r0, renv_pre[w].name) {
                            assert(vis_pre.contains(renv_pre[w].name));
                            lemma_prefix_contains(
                                vis_pre,
                                visited.deep_view(),
                                renv_pre[w].name,
                            );
                        }
                    }
                }
                assert forall|v: int|
                    0 <= v < visited.deep_view().len() implies reqs_visited(
                    index,
                    visited.deep_view(),
                    #[trigger] visited.deep_view()[v],
                ) by {
                    if v < vis_pre.len() {
                        assert(visited.deep_view()[v] == vis_pre[v]) by {
                            assert(vis_pre[v] == visited.deep_view().subrange(
                                0,
                                vis_pre.len() as int,
                            )[v]);
                        }
                        assert(reqs_visited(index, vis_pre, vis_pre[v]));
                        assert forall|j2: int|
                            0 <= j2 < record_of(index, vis_pre[v]).requirements.len() && has_name(
                                index,
                                #[trigger] record_of(index, vis_pre[v]).requirements[j2],
                            ) implies visited.deep_view().contains(
                            record_of(index, vis_pre[v]).requirements[j2],
                        ) by {
                            lemma_prefix_contains(
                                vis_pre,
                                visited.deep_view(),
                                record_of(index, vis_pre[v]).requirements[j2],
                            );
                        }
                    }
                }
                assert forall|idx: int, j: int|
                    0 <= idx < i + 1 && 0 <= j < r0[idx].requirements.len() && has_name(
                        index,
                        #[trigger] r0[idx].requirements[j],
                    ) implies visited.deep_view().contains(r0[idx].requirements[j]) by {
                    if idx < i {
                        lemma_prefix_contains(
                            vis_pre,
                            visited.deep_view(),
                            r0[idx].requirements[j],
                        );
                    }
                }
                if closed(r0, index) {
                    assert(renv_pre == r0);
                    assert(has_name(r0, root@.name)) by {
                        assert(r0[i as int].name == root@.name);
                    }
                    assert(root@ == record_of(index, root@.name)) by {
                        assert(r0[i as int] == record_of(index, r0[i as int].name));
                    }
                    assert(renv_lock@ == r0);
                }
            }
            i += 1;
        }
        proof {
            assert forall|pi: int| 0 <= pi < renv_lock@.len() implies req_in(
                renv_lock@,
                index,
                #[trigger] renv_lock@[pi],
            ) by {
                let p = renv_lock@[pi];
                assert forall|j: int|
                    0 <= j < p.requirements.len() && has_name(
                        index,
                        #[trigger] p.requirements[j],
                    ) implies has_name(renv_lock@, p.requirements[j]) by {
                    if has_name(r0, p.name) {
                        let ri = idx_of(r0, p.name);
                        assert(r0[ri].name == p.name);
                        assert(r0[ri] == record_of(index, r0[ri].name));
                        assert(p == record_of(index, p.name));
                        assert(p == r0[ri]);
                        assert(visited.deep_view().contains(r0[ri].requirements[j]));
                        let v = choose|v: int|
                            0 <= v < visited.deep_view().len() && visited.deep_view()[v] == p.requirements[j];
                        assert(has_name(renv_lock@, visited.deep_view()[v]));
                    } else {
                        assert(visited.deep_view().contains(p.name));
                        let v = choose|v: int|
                            0 <= v < visited.deep_view().len() && visited.deep_view()[v] == p.name;
                        assert(reqs_visited(index, visited.deep_view(), p.name));
                        assert(p == record_of(index, p.name));
                        assert(visited.deep_view().contains(p.requirements[j]));
                        let w = choose|w: int|
                            0 <= w < visited.deep_view().len() && visited.deep_view()[w] == p.requirements[j];
                        assert(has_name(renv_lock@, visited.deep_view()[w]));
                    }
                }
            }
        }
    }

    /// Resolution: the replace pass, then the closure pass.
    ///
    /// Every result is sound (each remaining record is the index's record,
    /// under the index's version) and transitively closed; records the
    /// index does not offer are dropped, with one diagnostic line each.
    /// A set that is already sound and closed is a fixed point, so running
    /// resolution on its own output changes nothing.
    pub fn sync_renv(&self, renv_lock: &mut RenvLock) -> (diags: Vec<String>)
        requires
            self.wf(),
            old(renv_lock).wf(),
        ensures
            final(renv_lock).wf(),
            sound(final(renv_lock)@, self@),
            closed(final(renv_lock)@, self@),
            forall|i: int|
                0 <= i < replace_spec(old(renv_lock)@, self@).len() ==> has_name(
                    final(renv_lock)@,
                    (#[trigger] replace_spec(old(renv_lock)@, self@)[i]).name,
                ),
            forall|i: int|
                0 <= i < old(renv_lock)@.len() && has_name(
                    self@,
                    (#[trigger] old(renv_lock)@[i]).name,
                ) ==> has_name(final(renv_lock)@, old(renv_lock)@[i].name),
            diags.deep_view() == dropped_diags(old(renv_lock)@, self@),
            (sound(old(renv_lock)@, self@) && closed(old(renv_lock)@, self@))
                ==> (final(renv_lock)@ == old(renv_lock)@ && diags.deep_view() == Seq::<
                Seq<char>,
            >::empty()),
    {
        let diags = self.replace_libraries(renv_lock);
        let ghost mid = renv_lock@;
        self.insert_depends(renv_lock);
        proof {
            assert forall|i: int|
                0 <= i < old(renv_lock)@.len() && has_name(
                    self@,
                    (#[trigger] old(renv_lock)@[i]).name,
                ) implies has_name(renv_lock@, old(renv_lock)@[i].name) by {
                lemma_replace_has_name(old(renv_lock)@, self@, old(renv_lock)@[i].name);
                assert(has_name(old(renv_lock)@, old(renv_lock)@[i].name));
                assert(has_name(mid, old(renv_lock)@[i].name));
            }
            assert forall|i: int|
                0 <= i < replace_spec(old(renv_lock)@, self@).len() implies has_name(
                renv_lock@,
                (#[trigger] replace_spec(old(renv_lock)@, self@)[i]).name,
            ) by {
                assert(has_name(mid, mid[i].name));
            }
        }
        diags
    }
}


/// A dependency token is kept when it is the runtime name itself or a
/// runtime-prefixed marker.
pub open spec fn keep_dep(t: Seq<char>) -> bool {
    t == seq!['R'] || (t.len() >= 2 && t[0] == 'R' && t[1] == '.')
}

/// Folds the comma-separated dependency field `s` into `acc`: each
/// segment's first whitespace-delimited word is kept when the runtime
/// rule admits it and it is not yet present, placed at its ordered
/// position.
pub open spec fn dep_fold(s: Seq<char>, acc: Seq<Seq<char>>) -> Seq<Seq<char>>
    decreases s.len(),
    via dep_fold_dec
{
    let f = find_char(s, ',');
    let t = first_token(s.subrange(0, f));
    let acc2 = if keep_dep(t) && !acc.contains(t) {
        acc.insert(num_lt_str(acc, t), t)
    } else {
        acc
    };
    if f >= s.len() {
        acc2
    } else {
        dep_fold(s.subrange(f + 1, s.len() as int), acc2)
    }
}

#[via_fn]
proof fn dep_fold_dec(s: Seq<char>, acc: Seq<Seq<char>>) {
    lemma_find_char(s, ',');
}

/// One header line's contribution to the dependency set: the field value
/// counts only under a `Depends:` or `Imports:` key.
pub open spec fn line_deps(line: Seq<char>, acc: Seq<Seq<char>>) -> Seq<Seq<char>> {
    let ci = find_char(line, ':');
    if ci >= line.len() {
        acc
    } else {
        let key = line.subrange(0, ci);
        if key == "Depends"@ || key == "Imports"@ {
            dep_fold(line.subrange(ci + 1, line.len() as int), acc)
        } else {
            acc
        }
    }
}

/// Folds every line of `s` through `line_deps`.
pub open spec fn dep_lines_fold(s: Seq<char>, acc: Seq<Seq<char>>) -> Seq<Seq<char>>
    decreases s.len(),
    via dep_lines_fold_dec
{
    if s.len() == 0 {
        acc
    } else {
        let e = find_char(s, '\n');
        let acc2 = line_deps(s.subrange(0, e), acc);
        if e >= s.len() {
            acc2
        } else {
            dep_lines_fold(s.subrange(e + 1, s.len() as int), acc2)
        }
    }
}

#[via_fn]
proof fn dep_lines_fold_dec(s: Seq<char>, acc: Seq<Seq<char>>) {
    lemma_find_char(s, '\n');
}

/// Parses one index block: the first line's last token is the package
/// name, the second line's last token its version, and the remaining
/// lines contribute dependencies. A block without both leading lines (or
/// without a token on one of them) does not parse.
pub open spec fn parse_block(b: Seq<char>) -> Option<PackageView> {
    let l1e = find_char(b, '\n');
    let name = last_token(b.subrange(0, l1e));
    if l1e >= b.len() {
        None
    } else {
        let rest1 = b.subrange(l1e + 1, b.len() as int);
        if rest1.len() == 0 {
            None
        } else {
            let l2e = find_char(rest1, '\n');
            let version = last_token(rest1.subrange(0, l2e));
            if name.len() == 0 || version.len() == 0 {
                None
            } else {
                let reqs = if l2e >= rest1.len() {
                    Seq::<Seq<char>>::empty()
                } else {
                    dep_lines_fold(
                        rest1.subrange(l2e + 1, rest1.len() as int),
                        Seq::<Seq<char>>::empty(),
                    )
                };
                Some(
                    PackageView {
                        name,
                        version,
                        hash: Seq::<char>::empty(),
                        requirements: reqs,
                    },
                )
            }
        }
    }
}

/// Position of the first blank-line separator in `s`, or `s.len()`.
pub open spec fn find_sep(s: Seq<char>) -> int
    decreases s.len(),
{
    if s.len() < 2 {
        s.len() as int
    } else if s[0] == '\n' && s[1] == '\n' {
        0
    } else {
        1 + find_sep(s.drop_first())
    }
}

/// What `find_sep` returns: the first separator position, or the length.
pub proof fn lemma_find_sep(s: Seq<char>)
    ensures
        0 <= find_sep(s) <= s.len(),
        forall|k: int|
            0 <= k < find_sep(s) && k + 1 < s.len() ==> !((#[trigger] s[k]) == '\n' && s[k + 1]
                == '\n'),
        find_sep(s) < s.len() ==> find_sep(s) + 1 < s.len() && s[find_sep(s)] == '\n'
            && s[find_sep(s) + 1] == '\n',
    decreases s.len(),
{
    if s.len() >= 2 && !(s[0] == '\n' && s[1] == '\n') {
        lemma_find_sep(s.drop_first());
        let f = find_sep(s);
        assert forall|k: int|
            0 <= k < f && k + 1 < s.len() implies !((#[trigger] s[k]) == '\n' && s[k + 1]
            == '\n') by {
            if k > 0 {
                assert(s.drop_first()[k - 1] == s[k]);
                assert(s.drop_first()[k] == s[k + 1]);
            }
        }
        if f < s.len() {
            assert(s.drop_first()[f - 1] == s[f]);
            assert(s.drop_first()[f] == s[f + 1]);
        }
    }
}

/// Any position with the first-separator properties is `find_sep`.
pub proof fn lemma_find_sep_unique(s: Seq<char>, j: int)
    requires
        0 <= j <= s.len(),
        forall|k: int|
            0 <= k < j && k + 1 < s.len() ==> !((#[trigger] s[k]) == '\n' && s[k + 1] == '\n'),
        j < s.len() ==> j + 1 < s.len() && s[j] == '\n' && s[j + 1] == '\n',
    ensures
        find_sep(s) == j,
{
    lemma_find_sep(s);
    let f = find_sep(s);
    if f < j {
        assert(!(s[f] == '\n' && s[f + 1] == '\n'));
    }
    if j < f {
        assert(!(s[j] == '\n' && s[j + 1] == '\n'));
    }
}

/// Folds the blank-line-separated blocks of `s` into the name-keyed
/// accumulator; any unparsable block spoils the whole index.
pub open spec fn parse_blocks(s: Seq<char>, acc: Seq<PackageView>) -> Option<Seq<PackageView>>
    decreases s.len(),
    via parse_blocks_dec
{
    let f = find_sep(s);
    match parse_block(s.subrange(0, f)) {
        None => None,
        Some(p) => {
            let acc2 = upsert_spec(acc, p);
            if f >= s.len() {
                Some(acc2)
            } else {
                parse_blocks(s.subrange(f + 2, s.len() as int), acc2)
            }
        },
    }
}

#[via_fn]
proof fn parse_blocks_dec(s: Seq<char>, acc: Seq<PackageView>) {
    lemma_find_sep(s);
}

/// The whole remote index text, parsed.
pub open spec fn parse_index(s: Seq<char>) -> Option<Seq<PackageView>> {
    parse_blocks(s, Seq::<PackageView>::empty())
}

/// Executable test for `keep_dep`.
fn keep_dep_exec(t: &str) -> (r: bool)
    ensures
        r == keep_dep(t@),
{
    let n = t.unicode_len();
    if n == 0 {
        proof {
            assert(t@ != seq!['R']) by {
                assert(seq!['R'].len() == 1);
            }
        }
        return false;
    }
    let c0 = t.get_char(0);
    if n == 1 {
        if c0 == 'R' {
            proof {
                assert(t@ =~= seq!['R']);
            }
            true
        } else {
            proof {
                if t@ == seq!['R'] {
                    assert(t@[0] == 'R');
                }
            }
            false
        }
    } else {
        let c1 = t.get_char(1);
        if c0 == 'R' && c1 == '.' {
            true
        } else {
            proof {
                if t@ == seq!['R'] {
                    assert(t@.len() == 1);
                }
            }
            false
        }
    }
}

/// Folds one comma-separated dependency field into `acc`, keeping only
/// runtime-marker tokens not yet present.
fn parse_depends_into(raw: &str, acc: &mut Vec<String>)
    requires
        old(acc).deep_view().no_duplicates(),
        strings_sorted(old(acc).deep_view()),
    ensures
        final(acc).deep_view() == dep_fold(raw@, old(acc).deep_view()),
        final(acc).deep_view().no_duplicates(),
        strings_sorted(final(acc).deep_view()),
{
    let ghost a0 = acc.deep_view();
    let n = raw.unicode_len();
    let mut pos: usize = 0;
    proof {
        assert(raw@.subrange(0, n as int) =~= raw@);
    }
    loop
        invariant_except_break
            dep_fold(raw@, a0) == dep_fold(raw@.subrange(pos as int, n as int), acc.deep_view()),
        invariant
            a0 == old(acc).deep_view(),
            n == raw@.len(),
            pos <= n,
            acc.deep_view().no_duplicates(),
            strings_sorted(acc.deep_view()),
        ensures
            acc.deep_view() == dep_fold(raw@, a0),
            acc.deep_view().no_duplicates(),
            strings_sorted(acc.deep_view()),
        decreases n - pos,
    {
        let ghost s = raw@.subrange(pos as int, n as int);
        let ghost acc_pre = acc.deep_view();
        let c = find_char_from(raw, pos, ',');
        proof {
            assert forall|k: int| 0 <= k < c - pos implies s[k] != ',' by {
                assert(s[k] == raw@[pos + k]);
            }
            if c < n {
                assert(s[c - pos] == raw@[c as int]);
            }
            lemma_find_char_unique(s, ',', c as int - pos as int);
            assert(s.subrange(0, c as int - pos as int) =~= raw@.subrange(pos as int, c as int));
        }
        let seg = raw.substring_char(pos, c);
        let tok = first_token_of(seg);
        if keep_dep_exec(tok.as_str()) && !vec_contains_str(acc, tok.as_str()) {
            let ghost t = tok@;
            let an = acc.len();
            let mut j: usize = 0;
            while j < an && crate::text::str_lt(acc[j].as_str(), tok.as_str())
                invariant
                    an == acc.len(),
                    j <= an,
                    acc_pre == acc.deep_view(),
                    t == tok@,
                    forall|k: int| 0 <= k < j ==> crate::text::lex_lt(#[trigger] acc_pre[k], t),
                decreases an - j,
            {
                proof {
                    assert(acc_pre[j as int] == acc@[j as int]@);
                }
                j += 1;
            }
            proof {
                assert forall|k: int|
                    j <= k < an implies !crate::text::lex_lt(#[trigger] acc_pre[k], t) by {
                    if k > j as int && crate::text::lex_lt(acc_pre[k], t) {
                        crate::text::lemma_lex_trans(acc_pre[j as int], acc_pre[k], t);
                        if acc_pre[j as int] == t {
                            assert(acc_pre.contains(t));
                        }
                    }
                }
                lemma_strings_insert(acc_pre, t, j as int);
            }
            let ghost shallow = acc@;
            let ghost elem = tok;
            acc.insert(j, tok);
            proof {
                let t2 = acc_pre.insert(j as int, t);
                acc_pre.insert_ensures(j as int, t);
                shallow.insert_ensures(j as int, elem);
                assert forall|k: int|
                    0 <= k < acc.deep_view().len() implies acc.deep_view()[k] == t2[k] by {
                    if k < j {
                        assert(acc@[k] == shallow[k]);
                    } else if k == j {
                        assert(acc@[k] == elem);
                    } else {
                        assert(acc@[k] == shallow[k - 1]);
                    }
                }
                assert(acc.deep_view() =~= t2);
            }
        }
        proof {
            if c < n {
                assert(s.subrange(c as int - pos as int + 1, s.len() as int) =~= raw@.subrange(
                    c as int + 1,
                    n as int,
                ));
            }
        }
        if c == n {
            break ;
        }
        pos = c + 1;
    }
}

/// Parses one dependency field: split on commas, take each segment's
/// first whitespace-delimited word, keep the runtime markers, first
/// occurrence only.
pub fn parse_depends(raw: &str) -> (r: Vec<String>)
    ensures
        r.deep_view() == dep_fold(raw@, Seq::<Seq<char>>::empty()),
        r.deep_view().no_duplicates(),
        strings_sorted(r.deep_view()),
{
    let mut acc: Vec<String> = Vec::new();
    proof {
        assert(acc.deep_view() =~= Seq::<Seq<char>>::empty());
    }
    parse_depends_into(raw, &mut acc);
    acc
}

/// Parses one block of the remote index into a package record.
fn parse_block_exec(b: &str) -> (r: Result<Package, Error>)
    ensures
        match r {
            Ok(p) => parse_block(b@) == Some(p@) && p@.wf(),
            Err(e) => parse_block(b@) is None && e is IndexParse,
        },
{
    let n = b.unicode_len();
    let l1e = find_char_from(b, 0, '\n');
    proof {
        lemma_find_char_unique(b@, '\n', l1e as int);
    }
    let name = last_token_of(b.substring_char(0, l1e));
    if l1e == n {
        return Err(Error::IndexParse);
    }
    if l1e + 1 == n {
        proof {
            assert(b@.subrange(l1e as int + 1, n as int).len() == 0);
        }
        return Err(Error::IndexParse);
    }
    let ghost rest1 = b@.subrange(l1e as int + 1, n as int);
    let l2e = find_char_from(b, l1e + 1, '\n');
    proof {
        assert forall|k: int| 0 <= k < l2e - l1e - 1 implies rest1[k] != '\n' by {
            assert(rest1[k] == b@[l1e + 1 + k]);
        }
        if l2e < n {
            assert(rest1[l2e - l1e - 1] == b@[l2e as int]);
        }
        lemma_find_char_unique(rest1, '\n', l2e as int - l1e as int - 1);
        assert(rest1.subrange(0, l2e as int - l1e as int - 1) =~= b@.subrange(
            l1e as int + 1,
            l2e as int,
        ));
    }
    let version = last_token_of(b.substring_char(l1e + 1, l2e));
    if name.unicode_len() == 0 || version.unicode_len() == 0 {
        return Err(Error::IndexParse);
    }
    let mut reqs: Vec<String> = Vec::new();
    proof {
        assert(reqs.deep_view() =~= Seq::<Seq<char>>::empty());
    }
    let ghost rest2 = if l2e as int >= rest1.len() + l1e + 1 {
        Seq::<char>::empty()
    } else {
        b@.subrange(l2e as int + 1, n as int)
    };
    if l2e < n {
        let mut pos: usize = l2e + 1;
        proof {
            assert(rest2 =~= b@.subrange(l2e as int + 1, n as int));
        }
        loop
            invariant_except_break
                dep_lines_fold(rest2, Seq::<Seq<char>>::empty()) == dep_lines_fold(
                    b@.subrange(pos as int, n as int),
                    reqs.deep_view(),
                ),
            invariant
                n == b@.len(),
                l2e < n,
                l2e as int + 1 <= pos <= n,
                rest2 == b@.subrange(l2e as int + 1, n as int),
                reqs.deep_view().no_duplicates(),
                strings_sorted(reqs.deep_view()),
            ensures
                reqs.deep_view() == dep_lines_fold(rest2, Seq::<Seq<char>>::empty()),
                reqs.deep_view().no_duplicates(),
                strings_sorted(reqs.deep_view()),
            decreases n - pos,
        {
            let ghost s = b@.subrange(pos as int, n as int);
            if pos == n {
                proof {
                    assert(s.len() == 0);
                }
                break ;
            }
            let e = find_char_from(b, pos, '\n');
            proof {
                assert forall|k: int| 0 <= k < e - pos implies s[k] != '\n' by {
                    assert(s[k] == b@[pos + k]);
                }
                if e < n {
                    assert(s[e - pos] == b@[e as int]);
                }
                lemma_find_char_unique(s, '\n', e as int - pos as int);
                assert(s.subrange(0, e as int - pos as int) =~= b@.subrange(pos as int, e as int));
            }
            let line = b.substring_char(pos, e);
            let ghost reqs_pre = reqs.deep_view();
            let lcount = line.unicode_len();
            let ci = find_char_from(line, 0, ':');
            proof {
                lemma_find_char_unique(line@, ':', ci as int);
            }
            if ci < lcount {
                let key = line.substring_char(0, ci);
                if str_eq(key, "Depends") || str_eq(key, "Imports") {
                    let value = line.substring_char(ci + 1, lcount);
                    parse_depends_into(value, &mut reqs);
                }
            }
            proof {
                assert(line_deps(line@, reqs_pre) == reqs.deep_view());
                if e < n {
                    assert(s.subrange(e as int - pos as int + 1, s.len() as int) =~= b@.subrange(
                        e as int + 1,
                        n as int,
                    ));
                }
            }
            if e == n {
                break ;
            }
            pos = e + 1;
        }
    }
    let p = Package::from_parts(name.as_str(), version.as_str(), "", reqs);
    proof {
        reveal_strlit("");
        assert(""@ =~= Seq::<char>::empty());
        let rest1_s = b@.subrange(l1e as int + 1, n as int);
        let l2e_s = find_char(rest1_s, '\n');
        assert(l2e_s == l2e as int - l1e as int - 1);
        assert(name@ == last_token(b@.subrange(0, l1e as int)));
        assert(version@ == last_token(rest1_s.subrange(0, l2e_s)));
        if l2e < n {
            assert(rest1_s.subrange(l2e_s + 1, rest1_s.len() as int) =~= b@.subrange(
                l2e as int + 1,
                n as int,
            ));
        } else {
            assert(l2e_s >= rest1_s.len());
        }
        assert(parse_block(b@) == Some(p@));
    }
    Ok(p)
}

/// Parses the whole remote index text: blocks separated by blank lines,
/// keyed by package name, later blocks overriding earlier ones.
pub fn parse_available_packages(raw: &str) -> (r: Result<Vec<Package>, Error>)
    ensures
        match r {
            Ok(v) => parse_index(raw@) == Some(v.deep_view()) && unique_names(v.deep_view())
                && names_sorted(v.deep_view()),
            Err(e) => parse_index(raw@) is None && e is IndexParse,
        },
{
    let n = raw.unicode_len();
    let mut acc: Vec<Package> = Vec::new();
    proof {
        assert(acc.deep_view() =~= Seq::<PackageView>::empty());
        assert(raw@.subrange(0, n as int) =~= raw@);
    }
    let mut pos: usize = 0;
    loop
        invariant_except_break
            parse_index(raw@) == parse_blocks(
                raw@.subrange(pos as int, n as int),
                acc.deep_view(),
            ),
        invariant
            n == raw@.len(),
            pos <= n,
            unique_names(acc.deep_view()),
            names_sorted(acc.deep_view()),
        ensures
            parse_index(raw@) == Some(acc.deep_view()),
            unique_names(acc.deep_view()),
            names_sorted(acc.deep_view()),
        decreases n - pos,
    {
        let ghost s = raw@.subrange(pos as int, n as int);
        let f = find_sep_from(raw, pos);
        proof {
            assert forall|k: int|
                0 <= k < f - pos && k + 1 < s.len() implies !((#[trigger] s[k]) == '\n' && s[k
                + 1] == '\n') by {
                assert(s[k] == raw@[pos + k]);
                assert(s[k + 1] == raw@[pos + k + 1]);
            }
            if f < n {
                assert(s[f - pos] == raw@[f as int]);
                assert(s[f - pos + 1] == raw@[f as int + 1]);
            }
            lemma_find_sep_unique(s, f as int - pos as int);
            assert(s.subrange(0, f as int - pos as int) =~= raw@.subrange(pos as int, f as int));
        }
        let block = raw.substring_char(pos, f);
        let ghost acc_pre = acc.deep_view();
        match parse_block_exec(block) {
            Err(e) => {
                return Err(e);
            },
            Ok(p) => {
                upsert(&mut acc, p);
                proof {
                    if f < n {
                        assert(s.subrange(f as int - pos as int + 2, s.len() as int)
                            =~= raw@.subrange(f as int + 2, n as int));
                    }
                }
                if f == n {
                    break ;
                }
                pos = f + 2;
            },
        }
    }
    Ok(acc)
}

/// Scans for a blank-line separator from position `from` on.
fn find_sep_from(s: &str, from: usize) -> (r: usize)
    requires
        from <= s@.len(),
    ensures
        from <= r <= s@.len(),
        forall|k: int|
            from <= k < r && k + 1 < s@.len() ==> !((#[trigger] s@[k]) == '\n' && s@[k + 1]
                == '\n'),
        r < s@.len() ==> r + 1 < s@.len() && s@[r as int] == '\n' && s@[r as int + 1] == '\n',
{
    let n = s.unicode_len();
    let mut i = from;
    while i < n && i + 1 < n && !(s.get_char(i) == '\n' && s.get_char(i + 1) == '\n')
        invariant
            n == s@.len(),
            from <= i,
            i <= n,
            forall|k: int|
                from <= k < i && k + 1 < n ==> !((#[trigger] s@[k]) == '\n' && s@[k + 1] == '\n'),
        decreases n - i,
    {
        i += 1;
    }
    if i < n && i + 1 < n {
        i
    } else {
        n
    }
}

/// The result of decompressing a gzip stream into text: `Some` of the
/// text when the bytes are a well-formed gzip stream of UTF-8, `None`
/// otherwise — in either case a function of the compressed bytes alone.
pub uninterp spec fn inflated(bytes: Seq<u8>) -> Option<Seq<char>>;

/// Relies on flate2's `bufread::GzDecoder` together with
/// `std::io::Read::read_to_string`: whether an in-memory gzip stream
/// decompresses to text, and to what text, depends on the input bytes
/// alone; a corrupt stream or invalid UTF-8 reports as `None`.
#[verifier::external_body]
fn gunzip_to_string(bytes: &Vec<u8>) -> (r: Option<String>)
    ensures
        match r {
            Some(s) => inflated(bytes@) == Some(s@),
            None => inflated(bytes@) is None,
        },
{
    let mut decoder = flate2::bufread::GzDecoder::new(bytes.as_slice());
    let mut buffer = String::new();
    match std::io::Read::read_to_string(&mut decoder, &mut buffer) {
        Ok(_) => Some(buffer),
        Err(_) => None,
    }
}

/// Decodes the fetched remote index: decompress the gzip bytes, then
/// parse the block format into availability records. Decoding fails
/// exactly on bytes that are no gzip stream of text, parsing exactly on
/// a malformed block of the decompressed text.
pub fn available_packages(gz: &Vec<u8>) -> (r: Result<Vec<Package>, Error>)
    ensures
        match r {
            Ok(v) => inflated(gz@) matches Some(t) && parse_index(t) == Some(v.deep_view())
                && unique_names(v.deep_view()) && names_sorted(v.deep_view()),
            Err(e) => match e {
                Error::Decode => inflated(gz@) is None,
                Error::IndexParse => inflated(gz@) matches Some(t) && parse_index(t) is None,
                _ => false,
            },
        },
{
    match gunzip_to_string(gz) {
        None => Err(Error::Decode),
        Some(text) => parse_available_packages(text.as_str()),
    }
}

/// Where the remote index for the bundled runtime and target lives.
pub fn get_packages_available_url() -> (r: String)
    ensures
        r@ == "https://repo.r-wasm.org/bin/emscripten/contrib/4.3/PACKAGES.gz"@,
{
    "https://repo.r-wasm.org/bin/emscripten/contrib/4.3/PACKAGES.gz".to_owned()
}

} // verus!
