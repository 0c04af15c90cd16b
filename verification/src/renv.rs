//! Lockfile model: immutable package records and the mutable package set
//! that the resolver reconciles against the remote index.

use vstd::prelude::*;

use crate::text::{lemma_lex_trans, lex_le, lex_lt, str_eq, str_lt};

verus! {

/// Mathematical view of one package record.
pub ghost struct PackageView {
    pub name: Seq<char>,
    pub version: Seq<char>,
    pub hash: Seq<char>,
    pub requirements: Seq<Seq<char>>,
}

impl PackageView {
    /// A record is well formed when its declared dependency names are
    /// free of duplicates and ascend in code-point order (set
    /// semantics with the canonical iteration order).
    pub open spec fn wf(self) -> bool {
        self.requirements.no_duplicates() && strings_sorted(self.requirements)
    }
}

/// The strings ascend in code-point order.
pub open spec fn strings_sorted(s: Seq<Seq<char>>) -> bool {
    forall|i: int, j: int| 0 <= i < j < s.len() ==> lex_le(#[trigger] s[i], #[trigger] s[j])
}

/// How many of the strings are strictly before `t`.
pub open spec fn num_lt_str(s: Seq<Seq<char>>, t: Seq<char>) -> int
    decreases s.len(),
{
    if s.len() == 0 {
        0
    } else {
        num_lt_str(s.drop_last(), t) + if lex_lt(s.last(), t) {
            1int
        } else {
            0int
        }
    }
}

/// Any split of the strings into a strictly-smaller prefix and a
/// not-smaller suffix sits exactly at the count.
pub proof fn lemma_num_lt_str_at(s: Seq<Seq<char>>, t: Seq<char>, j: int)
    requires
        0 <= j <= s.len(),
        forall|k: int| 0 <= k < j ==> lex_lt(#[trigger] s[k], t),
        forall|k: int| j <= k < s.len() ==> !lex_lt(#[trigger] s[k], t),
    ensures
        num_lt_str(s, t) == j,
    decreases s.len(),
{
    if s.len() > 0 {
        if j == s.len() {
            lemma_num_lt_str_at(s.drop_last(), t, j - 1);
        } else {
            assert(!lex_lt(s.last(), t)) by {
                assert(s[s.len() - 1] == s.last());
            }
            lemma_num_lt_str_at(s.drop_last(), t, j);
        }
    }
}

/// Inserting a fresh string at the split position keeps the list a
/// sorted set.
pub proof fn lemma_strings_insert(s: Seq<Seq<char>>, t: Seq<char>, j: int)
    requires
        s.no_duplicates(),
        strings_sorted(s),
        !s.contains(t),
        0 <= j <= s.len(),
        forall|k: int| 0 <= k < j ==> lex_lt(#[trigger] s[k], t),
        forall|k: int| j <= k < s.len() ==> !lex_lt(#[trigger] s[k], t),
    ensures
        num_lt_str(s, t) == j,
        s.insert(j, t).no_duplicates(),
        strings_sorted(s.insert(j, t)),
{
    lemma_num_lt_str_at(s, t, j);
    let w = s.insert(j, t);
    s.insert_ensures(j, t);
    assert forall|a: int, b: int|
        0 <= a < b < w.len() implies lex_le(#[trigger] w[a], #[trigger] w[b]) by {
        if b < j {
        } else if a < j && b == j {
            assert(lex_lt(s[a], t));
        } else if a < j && b > j {
            assert(w[b] == s[b - 1]);
        } else if a == j {
            assert(w[b] == s[b - 1]);
            assert(!lex_lt(s[b - 1], t));
            crate::text::lemma_lex_total(t, s[b - 1]);
        } else {
            assert(w[a] == s[a - 1]);
            assert(w[b] == s[b - 1]);
        }
    }
    assert forall|a: int, b: int|
        0 <= a < w.len() && 0 <= b < w.len() && a != b implies w[a] != w[b] by {
        if a == j || b == j {
            let o = if a == j {
                b
            } else {
                a
            };
            let oo = if o < j {
                o
            } else {
                o - 1
            };
            assert(w[o] == s[oo]);
            if s[oo] == t {
                assert(s.contains(t));
            }
        } else {
            let aa = if a < j {
                a
            } else {
                a - 1
            };
            let bb = if b < j {
                b
            } else {
                b - 1
            };
            assert(w[a] == s[aa]);
            assert(w[b] == s[bb]);
        }
    }
}

/// `t` placed among sorted strings: unchanged when present, else
/// inserted at its ordered position.
pub open spec fn insert_str_spec(s: Seq<Seq<char>>, t: Seq<char>) -> Seq<Seq<char>> {
    if s.contains(t) {
        s
    } else {
        s.insert(num_lt_str(s, t), t)
    }
}

/// One package: identity, opaque version, informational content hash and
/// the set of dependency names declared for it.
#[derive(Debug)]
pub struct Package {
    package: String,
    requirements: Vec<String>,
    version: String,
    hash: String,
}

impl View for Package {
    type V = PackageView;

    closed spec fn view(&self) -> PackageView {
        PackageView {
            name: self.package@,
            version: self.version@,
            hash: self.hash@,
            requirements: self.requirements.deep_view(),
        }
    }
}

impl DeepView for Package {
    type V = PackageView;

    open spec fn deep_view(&self) -> PackageView {
        self.view()
    }
}

impl Clone for Package {
    fn clone(&self) -> (res: Self)
        ensures
            res@ == self@,
    {
        let requirements = self.requirements.clone();
        proof {
            assert forall|k: int| 0 <= k < self.requirements@.len() implies requirements@[k]
                == self.requirements@[k] by {
                assert(cloned::<String>(self.requirements[k], requirements[k]));
            }
            assert(requirements@ =~= self.requirements@);
        }
        let res = Package {
            package: self.package.clone(),
            requirements,
            version: self.version.clone(),
            hash: self.hash.clone(),
        };
        res
    }
}

impl Package {
    /// Builds a fresh record with no declared dependencies.
    pub fn new(package: &str, version: &str, hash: &str) -> (r: Self)
        ensures
            r@.name == package@,
            r@.version == version@,
            r@.hash == hash@,
            r@.requirements == Seq::<Seq<char>>::empty(),
            r@.wf(),
    {
        let r = Package {
            package: package.to_owned(),
            requirements: Vec::new(),
            version: version.to_owned(),
            hash: hash.to_owned(),
        };
        proof {
            assert(r@.requirements =~= Seq::<Seq<char>>::empty());
        }
        r
    }

    /// Identity of the record: its name and version.
    pub fn get_package(&self) -> (r: (&str, &str))
        ensures
            r.0@ == self@.name,
            r.1@ == self@.version,
    {
        (self.package.as_str(), self.version.as_str())
    }

    /// Adds a dependency name at its ordered place; a name already
    /// present is not added again.
    #[verifier::rlimit(60)]
    pub fn add_requirement(&mut self, requirement: &str)
        requires
            old(self)@.wf(),
        ensures
            final(self)@.name == old(self)@.name,
            final(self)@.version == old(self)@.version,
            final(self)@.hash == old(self)@.hash,
            final(self)@.requirements == insert_str_spec(old(self)@.requirements, requirement@),
            final(self)@.wf(),
    {
        let ghost s0 = self.requirements.deep_view();
        let mut i: usize = 0;
        let n = self.requirements.len();
        while i < n
            invariant
                self == old(self),
                old(self)@.wf(),
                s0 == self.requirements.deep_view(),
                n == self.requirements.len(),
                i <= n,
                forall|k: int| 0 <= k < i ==> self.requirements.deep_view()[k] != requirement@,
            decreases n - i,
        {
            if str_eq(self.requirements[i].as_str(), requirement) {
                assert(self@.requirements.contains(requirement@)) by {
                    assert(self.requirements.deep_view()[i as int] == requirement@);
                }
                return ;
            }
            i += 1;
        }
        assert(!old(self)@.requirements.contains(requirement@));
        let mut j: usize = 0;
        while j < n && str_lt(self.requirements[j].as_str(), requirement)
            invariant
                n == self.requirements.len(),
                j <= n,
                s0 == self.requirements.deep_view(),
                forall|k: int| 0 <= k < j ==> lex_lt(#[trigger] s0[k], requirement@),
            decreases n - j,
        {
            j += 1;
        }
        proof {
            assert forall|k: int| j <= k < n implies !lex_lt(#[trigger] s0[k], requirement@) by {
                if k > j as int && lex_lt(s0[k], requirement@) {
                    lemma_lex_trans(s0[j as int], s0[k], requirement@);
                    assert(s0.contains(requirement@) || s0[j as int] != requirement@) by {
                        if s0[j as int] == requirement@ {
                            assert(s0.contains(requirement@));
                        }
                    }
                }
            }
            lemma_strings_insert(s0, requirement@, j as int);
        }
        let ghost shallow = self.requirements@;
        let new_req = requirement.to_owned();
        let ghost elem = new_req;
        self.requirements.insert(j, new_req);
        proof {
            let t = s0.insert(j as int, requirement@);
            s0.insert_ensures(j as int, requirement@);
            shallow.insert_ensures(j as int, elem);
            assert forall|k: int| 0 <= k < self.requirements.deep_view().len() implies
                self.requirements.deep_view()[k] == t[k] by {
                if k < j {
                    assert(self.requirements@[k] == shallow[k]);
                } else if k == j {
                    assert(self.requirements@[k] == elem);
                } else {
                    assert(self.requirements@[k] == shallow[k - 1]);
                }
            }
            assert(self.requirements.deep_view() =~= t);
        }
    }

    /// Builds a record wholesale from already-ordered dependency names.
    pub(crate) fn from_parts(
        package: &str,
        version: &str,
        hash: &str,
        requirements: Vec<String>,
    ) -> (r: Self)
        requires
            requirements.deep_view().no_duplicates(),
            strings_sorted(requirements.deep_view()),
        ensures
            r@.name == package@,
            r@.version == version@,
            r@.hash == hash@,
            r@.requirements == requirements.deep_view(),
            r@.wf(),
    {
        Package {
            package: package.to_owned(),
            requirements,
            version: version.to_owned(),
            hash: hash.to_owned(),
        }
    }

    /// The declared dependency names.
    pub fn get_requirements(&self) -> (r: &Vec<String>)
        ensures
            r.deep_view() == self@.requirements,
    {
        &self.requirements
    }
}

/// True when `s` holds a record named `n`.
pub open spec fn has_name(s: Seq<PackageView>, n: Seq<char>) -> bool {
    exists|i: int| 0 <= i < s.len() && s[i].name == n
}

/// The index of the record named `n` (meaningful under `has_name`).
pub open spec fn idx_of(s: Seq<PackageView>, n: Seq<char>) -> int {
    choose|i: int| 0 <= i < s.len() && s[i].name == n
}

/// The record named `n` (meaningful under `has_name`).
pub open spec fn record_of(s: Seq<PackageView>, n: Seq<char>) -> PackageView {
    s[idx_of(s, n)]
}

/// No two records share a name.
pub open spec fn unique_names(s: Seq<PackageView>) -> bool {
    forall|i: int, j: int| 0 <= i < j < s.len() ==> s[i].name != s[j].name
}

/// The record names ascend in code-point order: the canonical iteration
/// order of a package set.
pub open spec fn names_sorted(s: Seq<PackageView>) -> bool {
    forall|i: int, j: int|
        0 <= i < j < s.len() ==> lex_le((#[trigger] s[i]).name, (#[trigger] s[j]).name)
}

/// How many records' names are strictly before `n`.
pub open spec fn num_lt_name(s: Seq<PackageView>, n: Seq<char>) -> int
    decreases s.len(),
{
    if s.len() == 0 {
        0
    } else {
        num_lt_name(s.drop_last(), n) + if lex_lt(s.last().name, n) {
            1int
        } else {
            0int
        }
    }
}

/// Any split of the records into a strictly-smaller prefix and a
/// not-smaller suffix sits exactly at the count.
pub proof fn lemma_num_lt_name_at(s: Seq<PackageView>, n: Seq<char>, j: int)
    requires
        0 <= j <= s.len(),
        forall|k: int| 0 <= k < j ==> lex_lt((#[trigger] s[k]).name, n),
        forall|k: int| j <= k < s.len() ==> !lex_lt((#[trigger] s[k]).name, n),
    ensures
        num_lt_name(s, n) == j,
    decreases s.len(),
{
    if s.len() > 0 {
        if j == s.len() {
            lemma_num_lt_name_at(s.drop_last(), n, j - 1);
        } else {
            assert(!lex_lt(s.last().name, n)) by {
                assert(s[s.len() - 1] == s.last());
            }
            lemma_num_lt_name_at(s.drop_last(), n, j);
        }
    }
}

/// Under unique names, any position holding name `n` is the position
/// `idx_of` picks.
pub proof fn lemma_idx_unique(s: Seq<PackageView>, n: Seq<char>, j: int)
    requires
        unique_names(s),
        0 <= j < s.len(),
        s[j].name == n,
    ensures
        has_name(s, n),
        idx_of(s, n) == j,
        record_of(s, n) == s[j],
{
    assert(has_name(s, n));
    let i = idx_of(s, n);
    if i != j {
        if i < j {
            assert(s[i].name != s[j].name);
        } else {
            assert(s[j].name != s[i].name);
        }
    }
}

/// The count of strictly-smaller names is a position in the list.
pub proof fn lemma_num_lt_name_bounds(s: Seq<PackageView>, n: Seq<char>)
    ensures
        0 <= num_lt_name(s, n) <= s.len(),
    decreases s.len(),
{
    if s.len() > 0 {
        lemma_num_lt_name_bounds(s.drop_last(), n);
    }
}

/// Inserting a fresh record at the split position keeps the set sorted
/// with unique names.
pub proof fn lemma_names_insert(s: Seq<PackageView>, p: PackageView, j: int)
    requires
        unique_names(s),
        names_sorted(s),
        !has_name(s, p.name),
        0 <= j <= s.len(),
        forall|k: int| 0 <= k < j ==> lex_lt((#[trigger] s[k]).name, p.name),
        forall|k: int| j <= k < s.len() ==> !lex_lt((#[trigger] s[k]).name, p.name),
    ensures
        num_lt_name(s, p.name) == j,
        unique_names(s.insert(j, p)),
        names_sorted(s.insert(j, p)),
{
    lemma_num_lt_name_at(s, p.name, j);
    let w = s.insert(j, p);
    s.insert_ensures(j, p);
    assert forall|a: int, b: int|
        0 <= a < b < w.len() implies lex_le((#[trigger] w[a]).name, (#[trigger] w[b]).name) by {
        if b < j {
        } else if a < j && b == j {
            assert(lex_lt(s[a].name, p.name));
        } else if a < j && b > j {
            assert(w[b] == s[b - 1]);
        } else if a == j {
            assert(w[b] == s[b - 1]);
            assert(!lex_lt(s[b - 1].name, p.name));
            crate::text::lemma_lex_total(p.name, s[b - 1].name);
        } else {
            assert(w[a] == s[a - 1]);
            assert(w[b] == s[b - 1]);
        }
    }
    assert forall|a: int, b: int|
        0 <= a < b < w.len() implies (#[trigger] w[a]).name != (#[trigger] w[b]).name by {
        if a == j || b == j {
            let o = if a == j {
                b
            } else {
                a
            };
            let oo = if o < j {
                o
            } else {
                o - 1
            };
            assert(w[o] == s[oo]);
            if s[oo].name == p.name {
                assert(has_name(s, p.name));
            }
        } else {
            let aa = if a < j {
                a
            } else {
                a - 1
            };
            let bb = if b < j {
                b
            } else {
                b - 1
            };
            assert(w[a] == s[aa]);
            assert(w[b] == s[bb]);
            if aa < bb {
                assert(s[aa].name != s[bb].name);
            } else {
                assert(s[bb].name != s[aa].name);
            }
        }
    }
}

/// `s` with the record named `p.name` replaced by `p`, or `p` inserted
/// at its ordered position when the name is absent.
pub open spec fn upsert_spec(s: Seq<PackageView>, p: PackageView) -> Seq<PackageView> {
    if has_name(s, p.name) {
        s.update(idx_of(s, p.name), p)
    } else {
        s.insert(num_lt_name(s, p.name), p)
    }
}

/// `s` without the record named `n`; unchanged when the name is absent.
pub open spec fn remove_spec(s: Seq<PackageView>, n: Seq<char>) -> Seq<PackageView> {
    if has_name(s, n) {
        s.remove(idx_of(s, n))
    } else {
        s
    }
}

/// The package set of a lockfile: a name-keyed collection of records.
#[derive(Debug)]
pub struct RenvLock {
    packages: Vec<Package>,
}

impl View for RenvLock {
    type V = Seq<PackageView>;

    closed spec fn view(&self) -> Seq<PackageView> {
        self.packages.deep_view()
    }
}

impl RenvLock {
    /// The set is well formed when its record names are pairwise
    /// distinct and ascend in code-point order: the canonical iteration
    /// order of the data model.
    pub open spec fn wf(&self) -> bool {
        unique_names(self@) && names_sorted(self@)
    }

    /// An empty package set.
    pub fn new() -> (r: Self)
        ensures
            r@ == Seq::<PackageView>::empty(),
            r.wf(),
    {
        let r = RenvLock { packages: Vec::new() };
        proof {
            assert(r@ =~= Seq::<PackageView>::empty());
        }
        r
    }

    /// The records, in the set's deterministic order.
    pub fn packages(&self) -> (r: &Vec<Package>)
        ensures
            r.deep_view() == self@,
    {
        &self.packages
    }

    /// How many records the set holds.
    pub fn len(&self) -> (r: usize)
        ensures
            r == self@.len(),
    {
        self.packages.len()
    }

    /// Borrows the record at position `i`.
    pub fn package_at(&self, i: usize) -> (r: &Package)
        requires
            i < self@.len(),
        ensures
            r@ == self@[i as int],
    {
        &self.packages[i]
    }

    /// True when a record named `package` is present.
    pub fn contains(&self, package: &str) -> (r: bool)
        ensures
            r == has_name(self@, package@),
    {
        match find_package(&self.packages, package) {
            Some(_) => true,
            None => false,
        }
    }

    /// Inserts `p` keyed by its name, replacing any record of that name.
    pub fn insert(&mut self, p: Package)
        requires
            old(self).wf(),
        ensures
            final(self)@ == upsert_spec(old(self)@, p@),
            final(self).wf(),
    {
        upsert(&mut self.packages, p);
    }

    /// Removes the record named `package`; absent names leave the set unchanged.
    pub fn remove(&mut self, package: &str)
        requires
            old(self).wf(),
        ensures
            final(self)@ == remove_spec(old(self)@, package@),
            final(self).wf(),
    {
        remove_name(&mut self.packages, package);
    }

    /// Replaces the whole record list.
    pub fn set_packages(&mut self, v: Vec<Package>)
        requires
            unique_names(v.deep_view()),
            names_sorted(v.deep_view()),
        ensures
            final(self)@ == v.deep_view(),
            final(self).wf(),
    {
        self.packages = v;
    }
}

/// Linear search for a record by name.
pub fn find_package(v: &Vec<Package>, name: &str) -> (r: Option<usize>)
    ensures
        match r {
            Some(j) => j < v.deep_view().len() && v.deep_view()[j as int].name == name@
                && has_name(v.deep_view(), name@),
            None => !has_name(v.deep_view(), name@),
        },
{
    let mut i: usize = 0;
    let n = v.len();
    while i < n
        invariant
            n == v.len(),
            i <= n,
            v.deep_view().len() == n,
            forall|k: int| 0 <= k < i ==> v.deep_view()[k].name != name@,
        decreases n - i,
    {
        if str_eq(v[i].package.as_str(), name) {
            assert(v.deep_view()[i as int].name == name@);
            return Some(i);
        }
        i += 1;
    }
    None
}

/// Inserts `p` keyed by its name into a sorted unique-name list,
/// keeping the order.
#[verifier::rlimit(80)]
pub fn upsert(v: &mut Vec<Package>, p: Package)
    requires
        unique_names(old(v).deep_view()),
        names_sorted(old(v).deep_view()),
    ensures
        final(v).deep_view() == upsert_spec(old(v).deep_view(), p@),
        unique_names(final(v).deep_view()),
        names_sorted(final(v).deep_view()),
{
    let ghost s = v.deep_view();
    match find_package(v, p.package.as_str()) {
        Some(j) => {
            proof {
                lemma_idx_unique(s, p@.name, j as int);
            }
            v.set(j, p);
            proof {
                assert(v.deep_view() =~= s.update(j as int, p@));
                assert forall|a: int, b: int|
                    0 <= a < b < v.deep_view().len() implies lex_le(
                    (#[trigger] v.deep_view()[a]).name,
                    (#[trigger] v.deep_view()[b]).name,
                ) by {
                    assert(v.deep_view()[a].name == s[a].name);
                    assert(v.deep_view()[b].name == s[b].name);
                }
            }
        },
        None => {
            let n = v.len();
            let mut j: usize = 0;
            while j < n && str_lt(v[j].package.as_str(), p.package.as_str())
                invariant
                    n == v.len(),
                    j <= n,
                    s == v.deep_view(),
                    forall|k: int| 0 <= k < j ==> lex_lt((#[trigger] s[k]).name, p@.name),
                decreases n - j,
            {
                proof {
                    assert(s[j as int].name == v.deep_view()[j as int].name);
                }
                j += 1;
            }
            proof {
                assert forall|k: int|
                    j <= k < n implies !lex_lt((#[trigger] s[k]).name, p@.name) by {
                    if k > j as int && lex_lt(s[k].name, p@.name) {
                        lemma_lex_trans(s[j as int].name, s[k].name, p@.name);
                        if s[j as int].name == p@.name {
                            assert(has_name(s, p@.name));
                        }
                    }
                }
                lemma_names_insert(s, p@, j as int);
            }
            let ghost shallow = v@;
            let ghost pv = p@;
            let ghost pk = p;
            v.insert(j, p);
            proof {
                let t = s.insert(j as int, pv);
                s.insert_ensures(j as int, pv);
                shallow.insert_ensures(j as int, pk);
                assert forall|k: int|
                    0 <= k < v.deep_view().len() implies v.deep_view()[k] == t[k] by {
                    if k < j {
                        assert(v@[k] == shallow[k]);
                    } else if k == j {
                        assert(v@[k] == pk);
                    } else {
                        assert(v@[k] == shallow[k - 1]);
                    }
                }
                assert(v.deep_view() =~= t);
            }
        },
    }
}

/// Removes the record named `name` from a sorted unique-name list.
pub fn remove_name(v: &mut Vec<Package>, name: &str)
    requires
        unique_names(old(v).deep_view()),
        names_sorted(old(v).deep_view()),
    ensures
        final(v).deep_view() == remove_spec(old(v).deep_view(), name@),
        unique_names(final(v).deep_view()),
        names_sorted(final(v).deep_view()),
{
    let ghost s = v.deep_view();
    match find_package(v, name) {
        Some(j) => {
            proof {
                lemma_idx_unique(s, name@, j as int);
            }
            v.remove(j);
            proof {
                assert(v.deep_view() =~= s.remove(j as int));
            }
        },
        None => {},
    }
}

} // verus!
