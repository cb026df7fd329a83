use vstd::prelude::*;

use crate::debversion::{cmp_debversion_with_op, relation_holds, version_cmp};
use crate::packages::{
    AltModel, Dependency, PackageError, PackageModel, Packages, clause_model, clauses_wf, deps_model,
    id_of,
};

verus! {

/// Every alternative of the clause names a package of the registry.
pub open spec fn clause_in_range(c: Seq<AltModel>, n: int) -> bool {
    forall|j: int| 0 <= j < c.len() ==> 0 <= (#[trigger] c[j]).package < n
}

/// The alternative's package is installed, at a version that meets the
/// constraint if there is one.
pub open spec fn alt_satisfied(m: Seq<PackageModel>, a: AltModel) -> bool {
    match m[a.package].installed {
        Some(iv) => match a.constraint {
            None => true,
            Some((op, v)) => relation_holds(op, version_cmp(iv, v)),
        },
        None => false,
    }
}

/// The alternative's package is installed, at a version that fails the
/// constraint.
pub open spec fn alt_wrong_version(m: Seq<PackageModel>, a: AltModel) -> bool {
    match m[a.package].installed {
        Some(iv) => match a.constraint {
            None => false,
            Some((op, v)) => !relation_holds(op, version_cmp(iv, v)),
        },
        None => false,
    }
}

/// Position of the first satisfied alternative of `c` at or after `i`.
pub open spec fn first_satisfied_from(m: Seq<PackageModel>, c: Seq<AltModel>, i: int) -> Option<
    int,
>
    decreases c.len() - i,
{
    if i < 0 || i >= c.len() {
        None
    } else if alt_satisfied(m, c[i]) {
        Some(i)
    } else {
        first_satisfied_from(m, c, i + 1)
    }
}

/// Position of the first satisfied alternative of the clause, in the order
/// the alternatives are written.
pub open spec fn first_satisfied(m: Seq<PackageModel>, c: Seq<AltModel>) -> Option<int> {
    first_satisfied_from(m, c, 0)
}

/// The packages among the first `k` alternatives of `c` that are installed
/// at a version failing the constraint, in clause order.
pub open spec fn wrong_version_upto(m: Seq<PackageModel>, c: Seq<AltModel>, k: int) -> Seq<int>
    decreases k,
{
    if k <= 0 || k > c.len() {
        seq![]
    } else {
        wrong_version_upto(m, c, k - 1) + if alt_wrong_version(m, c[k - 1]) {
            seq![c[k - 1].package]
        } else {
            seq![]
        }
    }
}

pub open spec fn wrong_version(m: Seq<PackageModel>, c: Seq<AltModel>) -> Seq<int> {
    wrong_version_upto(m, c, c.len() as int)
}

proof fn lemma_wrong_version_in_range(m: Seq<PackageModel>, c: Seq<AltModel>, k: int)
    requires
        clause_in_range(c, m.len() as int),
        0 <= k <= c.len(),
    ensures
        forall|j: int|
            0 <= j < wrong_version_upto(m, c, k).len() ==> 0 <= #[trigger] wrong_version_upto(
                m,
                c,
                k,
            )[j] < m.len(),
    decreases k,
{
    if k > 0 {
        lemma_wrong_version_in_range(m, c, k - 1);
        assert(0 <= c[k - 1].package < m.len());
        let prev = wrong_version_upto(m, c, k - 1);
        let w = wrong_version_upto(m, c, k);
        assert forall|j: int| 0 <= j < w.len() implies 0 <= #[trigger] w[j] < m.len() by {
            if j < prev.len() {
                assert(w[j] == prev[j]);
            }
        }
    }
}

impl Packages {
    /// Position of the first alternative of `dd` that the installed packages
    /// satisfy.
    pub(crate) fn first_satisfied_index(&self, dd: &Dependency) -> (r: Option<usize>)
        requires
            self.wf(),
            clause_in_range(clause_model(dd@), self.model().len() as int),
        ensures
            match first_satisfied(self.model(), clause_model(dd@)) {
                Some(k) => 0 <= k < dd@.len() && r == Some(k as usize),
                None => r is None,
            },
            r matches Some(k) ==> k < dd@.len(),
    {
        let ghost c = clause_model(dd@);
        let ghost m = self.model();
        let mut i: usize = 0;
        while i < dd.len()
            invariant
                i <= dd.len(),
                c == clause_model(dd@),
                m == self.model(),
                clause_in_range(c, m.len() as int),
                first_satisfied(m, c) == first_satisfied_from(m, c, i as int),
            decreases dd.len() - i,
        {
            let alt = &dd[i];
            assert(c[i as int].package == alt.package_num);
            let p = alt.package_num;
            match &self.packages[p].installed {
                Some(iv) => {
                    match &alt.rel_version {
                        None => {
                            return Some(i);
                        },
                        Some((op, v)) => {
                            if cmp_debversion_with_op(op, iv, v) {
                                return Some(i);
                            }
                        },
                    }
                },
                None => {},
            }
            i = i + 1;
        }
        None
    }

    /// The package of the first alternative of `dd` that the installed
    /// packages satisfy: installed, and at a version meeting the constraint
    /// if there is one. The order of the alternatives decides.
    pub fn dep_is_satisfied(&self, dd: &Dependency) -> (r: Option<&str>)
        requires
            self.wf(),
            clause_in_range(clause_model(dd@), self.model().len() as int),
        ensures
            match first_satisfied(self.model(), clause_model(dd@)) {
                Some(k) => r matches Some(n) && n@ == self.model()[clause_model(
                    dd@,
                )[k].package].name,
                None => r is None,
            },
    {
        match self.first_satisfied_index(dd) {
            Some(k) => {
                assert(clause_model(dd@)[k as int].package == dd@[k as int].package_num);
                // the index fits in a usize, so it is the one the spec names
                assert(k < dd.len());
                Some(self.get_package_name(dd[k].package_num))
            },
            None => None,
        }
    }

    /// The ids of the alternatives of `dd` whose package is installed at a
    /// version that fails the constraint, in clause order.
    pub(crate) fn wrong_version_ids(&self, dd: &Dependency) -> (r: Vec<usize>)
        requires
            self.wf(),
            clause_in_range(clause_model(dd@), self.model().len() as int),
        ensures
            r@.map_values(|x: usize| x as int) == wrong_version(self.model(), clause_model(dd@)),
    {
        let ghost c = clause_model(dd@);
        let ghost m = self.model();
        let mut out: Vec<usize> = Vec::new();
        let mut i: usize = 0;
        while i < dd.len()
            invariant
                i <= dd.len(),
                c == clause_model(dd@),
                m == self.model(),
                clause_in_range(c, m.len() as int),
                out@.map_values(|x: usize| x as int) == wrong_version_upto(m, c, i as int),
            decreases dd.len() - i,
        {
            let alt = &dd[i];
            assert(c[i as int].package == alt.package_num);
            let p = alt.package_num;
            let ghost before = out@;
            match &self.packages[p].installed {
                Some(iv) => {
                    match &alt.rel_version {
                        None => {},
                        Some((op, v)) => {
                            if !cmp_debversion_with_op(op, iv, v) {
                                out.push(p);
                            }
                        },
                    }
                },
                None => {},
            }
            proof {
                assert(out@.map_values(|x: usize| x as int) =~= wrong_version_upto(
                    m,
                    c,
                    i + 1,
                ));
            }
            i = i + 1;
        }
        out
    }

    /// The packages of the alternatives of `dd` that are installed, but at a
    /// version that fails the constraint, in clause order.
    pub fn dep_satisfied_by_wrong_version(&self, dd: &Dependency) -> (r: Vec<&str>)
        requires
            self.wf(),
            clause_in_range(clause_model(dd@), self.model().len() as int),
        ensures
            r@.len() == wrong_version(self.model(), clause_model(dd@)).len(),
            forall|j: int|
                0 <= j < r@.len() ==> (#[trigger] r@[j])@ == self.model()[wrong_version(
                    self.model(),
                    clause_model(dd@),
                )[j]].name,
    {
        let ids = self.wrong_version_ids(dd);
        proof {
            lemma_wrong_version_in_range(self.model(), clause_model(dd@), dd@.len() as int);
        }
        let ghost w = wrong_version(self.model(), clause_model(dd@));
        let mut out: Vec<&str> = Vec::new();
        let mut i: usize = 0;
        while i < ids.len()
            invariant
                i <= ids.len(),
                w == wrong_version(self.model(), clause_model(dd@)),
                ids@.map_values(|x: usize| x as int) == w,
                forall|j: int| 0 <= j < w.len() ==> 0 <= #[trigger] w[j] < self.model().len(),
                out@.len() == i,
                forall|j: int| 0 <= j < i ==> (#[trigger] out@[j])@ == self.model()[w[j]].name,
            decreases ids.len() - i,
        {
            assert(w[i as int] == ids@[i as int]);
            out.push(self.get_package_name(ids[i]));
            i = i + 1;
        }
        out
    }

    /// For each dependency clause of `package_name`, in order, the package
    /// that satisfies it, if any. `NotFound` for an unknown name.
    pub fn deps_available(&self, package_name: &str) -> (r: Result<Vec<Option<&str>>, PackageError>)
        requires
            self.wf(),
        ensures
            match id_of(self.model(), package_name@) {
                None => r matches Err(e) && e == PackageError::NotFound,
                Some(i) => r matches Ok(v) && {
                    let ds = self.model()[i].deps;
                    &&& v@.len() == ds.len()
                    &&& forall|k: int|
                        0 <= k < ds.len() ==> match first_satisfied(self.model(), ds[k]) {
                            Some(j) => (#[trigger] v@[k]) matches Some(n) && n@ == self.model()[ds[k][j].package].name,
                            None => v@[k] is None,
                        }
                },
            },
    {
        let i = match self.find(package_name) {
            Some(i) => i,
            None => {
                return Err(PackageError::NotFound);
            },
        };
        let ghost m = self.model();
        let deps = &self.packages[i].dependencies;
        assert(clauses_wf(m[i as int].deps, m.len() as int));
        let mut out: Vec<Option<&str>> = Vec::new();
        let mut k: usize = 0;
        while k < deps.len()
            invariant
                m == self.model(),
                self.wf(),
                i < m.len(),
                deps == &self.packages@[i as int].dependencies,
                m[i as int].deps == deps_model(deps@),
                clauses_wf(m[i as int].deps, m.len() as int),
                k <= deps.len(),
                out@.len() == k,
                forall|t: int|
                    0 <= t < k ==> match first_satisfied(m, m[i as int].deps[t]) {
                        Some(j) => (#[trigger] out@[t]) matches Some(n) && n@ == m[m[i as int].deps[t][j].package].name,
                        None => out@[t] is None,
                    },
            decreases deps.len() - k,
        {
            assert(m[i as int].deps[k as int] == clause_model(deps@[k as int]@));
            out.push(self.dep_is_satisfied(&deps[k]));
            k = k + 1;
        }
        Ok(out)
    }
}

} // verus!
