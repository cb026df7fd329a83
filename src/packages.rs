use vstd::prelude::*;

use crate::debversion::{
    DebianVersionNum, VersionModel, VersionRelation, chars_of, relation_text, string_of,
    version_text,
};

pub mod async_fns;
pub mod deps_available;
pub mod parsers;
pub mod solvers;

verus! {

/// Why a registry operation failed.
#[derive(Debug, PartialEq, Eq, Structural, Clone, Copy)]
pub enum PackageError {
    /// The name, or the id, was never seen by the registry.
    NotFound,
    /// The package has no available version to verify.
    NoVersion,
    /// A version text that does not read as a version.
    MalformedVersion,
    /// The registry holds as many packages as an id can count.
    Full,
    /// A dependency clause without alternatives, or one that names an id the
    /// registry never gave out.
    MalformedClause,
}

/// One alternative of a dependency clause: a package, and maybe a
/// constraint on its version.
pub struct RelVersionedPackageNum {
    pub package_num: usize,
    pub rel_version: Option<(VersionRelation, DebianVersionNum)>,
}

/// A dependency clause: satisfied when one of its alternatives is.
pub type Dependency = Vec<RelVersionedPackageNum>;

/// What an alternative holds.
pub struct AltModel {
    pub package: int,
    pub constraint: Option<(VersionRelation, VersionModel)>,
}

pub open spec fn alt_model(a: RelVersionedPackageNum) -> AltModel {
    AltModel {
        package: a.package_num as int,
        constraint: match a.rel_version {
            Some((op, v)) => Some((op, v@)),
            None => None,
        },
    }
}

pub open spec fn clause_model(d: Seq<RelVersionedPackageNum>) -> Seq<AltModel> {
    d.map_values(|a: RelVersionedPackageNum| alt_model(a))
}

pub open spec fn deps_model(ds: Seq<Dependency>) -> Seq<Seq<AltModel>> {
    ds.map_values(|d: Dependency| clause_model(d@))
}

/// What the registry knows of one package.
pub struct PackageModel {
    pub name: Seq<char>,
    pub available: Option<VersionModel>,
    pub installed: Option<VersionModel>,
    pub md5sum: Option<Seq<char>>,
    pub deps: Seq<Seq<AltModel>>,
}

pub(crate) struct PackageRecord {
    pub(crate) name: String,
    pub(crate) available: Option<DebianVersionNum>,
    pub(crate) installed: Option<DebianVersionNum>,
    pub(crate) md5sum: Option<String>,
    pub(crate) dependencies: Vec<Dependency>,
}

pub open spec fn opt_version(v: Option<DebianVersionNum>) -> Option<VersionModel> {
    match v {
        Some(x) => Some(x@),
        None => None,
    }
}

pub open spec fn opt_text(v: Option<String>) -> Option<Seq<char>> {
    match v {
        Some(x) => Some(x@),
        None => None,
    }
}

pub(crate) open spec fn record_model(r: PackageRecord) -> PackageModel {
    PackageModel {
        name: r.name@,
        available: opt_version(r.available),
        installed: opt_version(r.installed),
        md5sum: opt_text(r.md5sum),
        deps: deps_model(r.dependencies@),
    }
}

/// The clauses are well formed over `n` packages: none is empty, and each
/// alternative names an id below `n`.
pub open spec fn clauses_wf(deps: Seq<Seq<AltModel>>, n: int) -> bool {
    forall|k: int|
        0 <= k < deps.len() ==> {
            &&& (#[trigger] deps[k]).len() > 0
            &&& forall|j: int| 0 <= j < deps[k].len() ==> 0 <= (#[trigger] deps[k][j]).package < n
        }
}

/// The registry's invariant: ids are the positions `0..n`, names are unique,
/// and every clause is well formed.
pub open spec fn registry_wf(m: Seq<PackageModel>) -> bool {
    &&& forall|i: int, j: int|
        0 <= i < m.len() && 0 <= j < m.len() && i != j ==> (#[trigger] m[i]).name != (
        #[trigger] m[j]).name
    &&& forall|i: int| 0 <= i < m.len() ==> clauses_wf((#[trigger] m[i]).deps, m.len() as int)
}

/// The id of `name`, if the registry has seen it.
pub open spec fn id_of(m: Seq<PackageModel>, name: Seq<char>) -> Option<int> {
    if exists|i: int| 0 <= i < m.len() && (#[trigger] m[i]).name == name {
        Some(choose|i: int| 0 <= i < m.len() && (#[trigger] m[i]).name == name)
    } else {
        None
    }
}

pub open spec fn opt_version_ref(v: Option<&DebianVersionNum>) -> Option<VersionModel> {
    match v {
        Some(x) => Some(x@),
        None => None,
    }
}

pub open spec fn opt_str(v: Option<&str>) -> Option<Seq<char>> {
    match v {
        Some(x) => Some(x@),
        None => None,
    }
}

/// The package registry: every package the catalog, the installed list or a
/// dependency has named, under a dense id given on first sight.
pub struct Packages {
    pub(crate) packages: Vec<PackageRecord>,
    pub(crate) async_state: crate::packages::async_fns::AsyncState,
}

impl Packages {
    /// The packages, by id.
    pub open(crate) spec fn model(&self) -> Seq<PackageModel> {
        self.packages@.map_values(|r: PackageRecord| record_model(r))
    }

    pub open spec fn wf(&self) -> bool {
        registry_wf(self.model())
    }

    proof fn lemma_update_keeps_wf(&self, before: Seq<PackageModel>, k: int)
        requires
            registry_wf(before),
            0 <= k < before.len(),
            self.model().len() == before.len(),
            forall|i: int| 0 <= i < before.len() && i != k ==> self.model()[i] == before[i],
            self.model()[k].name == before[k].name,
            clauses_wf(self.model()[k].deps, before.len() as int),
        ensures
            self.wf(),
    {
        let m = self.model();
        assert forall|i: int, j: int|
            0 <= i < m.len() && 0 <= j < m.len() && i != j implies (#[trigger] m[i]).name != (
            #[trigger] m[j]).name by {
            assert(before[i].name != before[j].name);
        }
        assert forall|i: int| 0 <= i < m.len() implies clauses_wf(
            (#[trigger] m[i]).deps,
            m.len() as int,
        ) by {
            if i != k {
                assert(clauses_wf(before[i].deps, before.len() as int));
            }
        }
    }

    pub fn new() -> (r: Packages)
        ensures
            r.wf(),
            r.model().len() == 0,
            r.queue().len() == 0,
            r.server() == crate::packages::async_fns::default_server(),
    {
        let r = Packages { packages: Vec::new(), async_state: crate::packages::async_fns::AsyncState::new() };
        assert(r.model() =~= Seq::<PackageModel>::empty());
        r
    }

    fn find(&self, name: &str) -> (r: Option<usize>)
        requires
            self.wf(),
        ensures
            match r {
                Some(i) => i < self.model().len() && self.model()[i as int].name == name@,
                None => forall|i: int|
                    0 <= i < self.model().len() ==> (#[trigger] self.model()[i]).name != name@,
            },
            r matches Some(i) ==> id_of(self.model(), name@) == Some(i as int),
            r is None ==> id_of(self.model(), name@) is None,
    {
        let key = name.to_owned();
        let mut i: usize = 0;
        while i < self.packages.len()
            invariant
                i <= self.packages.len(),
                self.wf(),
                key@ == name@,
                forall|j: int| 0 <= j < i ==> (#[trigger] self.model()[j]).name != name@,
            decreases self.packages.len() - i,
        {
            if self.packages[i].name == key {
                proof {
                    let m = self.model();
                    assert(m[i as int].name == name@);
                    assert(exists|j: int| 0 <= j < m.len() && (#[trigger] m[j]).name == name@);
                    let c = choose|j: int| 0 <= j < m.len() && (#[trigger] m[j]).name == name@;
                    if c != i {
                        assert(m[c].name != m[i as int].name);
                    }
                }
                return Some(i);
            }
            i = i + 1;
        }
        None
    }

    /// The names of all packages, by id.
    pub fn get_package_names(&self) -> (r: Vec<&str>)
        ensures
            r@.len() == self.model().len(),
            forall|i: int| 0 <= i < r@.len() ==> (#[trigger] r@[i])@ == self.model()[i].name,
    {
        let mut out: Vec<&str> = Vec::new();
        let mut i: usize = 0;
        while i < self.packages.len()
            invariant
                i <= self.packages.len(),
                out@.len() == i,
                forall|j: int| 0 <= j < i ==> (#[trigger] out@[j])@ == self.model()[j].name,
            decreases self.packages.len() - i,
        {
            out.push(self.packages[i].name.as_str());
            i = i + 1;
        }
        out
    }

    /// The name of the package with id `package_num`.
    pub fn get_package_name(&self, package_num: usize) -> (r: &str)
        requires
            package_num < self.model().len(),
        ensures
            r@ == self.model()[package_num as int].name,
    {
        self.packages[package_num].name.as_str()
    }

    /// The id of `package_name`; `NotFound` when the registry never saw it.
    pub fn get_package_num(&self, package_name: &str) -> (r: Result<usize, PackageError>)
        requires
            self.wf(),
        ensures
            match id_of(self.model(), package_name@) {
                Some(i) => r == Ok::<usize, PackageError>(i as usize),
                None => r == Err::<usize, PackageError>(PackageError::NotFound),
            },
    {
        match self.find(package_name) {
            Some(i) => Ok(i),
            None => Err(PackageError::NotFound),
        }
    }

    /// The id of `package_name`, given now, with no versions and no
    /// dependencies, when the registry has not seen it yet.
    pub fn get_package_num_inserting(&mut self, package_name: &str) -> (r: usize)
        requires
            old(self).wf(),
            old(self).model().len() < usize::MAX,
        ensures
            final(self).wf(),
            final(self).queue() == old(self).queue(),
            final(self).server() == old(self).server(),
            match id_of(old(self).model(), package_name@) {
                Some(i) => r == i && final(self).model() == old(self).model(),
                None => {
                    &&& r == old(self).model().len()
                    &&& final(self).model() == old(self).model().push(
                        PackageModel {
                            name: package_name@,
                            available: None,
                            installed: None,
                            md5sum: None,
                            deps: seq![],
                        },
                    )
                },
            },
    {
        match self.find(package_name) {
            Some(i) => i,
            None => {
                let n = self.packages.len();
                let rec = PackageRecord {
                    name: package_name.to_owned(),
                    available: None,
                    installed: None,
                    md5sum: None,
                    dependencies: Vec::new(),
                };
                self.packages.push(rec);
                proof {
                    assert(deps_model(Seq::<Dependency>::empty()) =~= Seq::<Seq<AltModel>>::empty());
                    assert(self.model() =~= old(self).model().push(
                        PackageModel {
                            name: package_name@,
                            available: None,
                            installed: None,
                            md5sum: None,
                            deps: seq![],
                        },
                    ));
                    let m = self.model();
                    assert forall|i: int| 0 <= i < m.len() implies clauses_wf(
                        (#[trigger] m[i]).deps,
                        m.len() as int,
                    ) by {
                        if i < n {
                            assert(clauses_wf(old(self).model()[i].deps, n as int));
                        }
                    }
                }
                n
            },
        }
    }

    /// The available version of `package_name`, if one was set.
    pub fn get_available_debver(&self, package_name: &str) -> (r: Result<
        Option<&DebianVersionNum>,
        PackageError,
    >)
        requires
            self.wf(),
        ensures
            match id_of(self.model(), package_name@) {
                Some(i) => r matches Ok(o) && opt_version_ref(o) == self.model()[i].available,
                None => r matches Err(e) && e == PackageError::NotFound,
            },
    {
        match self.find(package_name) {
            Some(i) => Ok(self.packages[i].available.as_ref()),
            None => Err(PackageError::NotFound),
        }
    }

    /// The installed version of `package_name`, if one was set.
    pub fn get_installed_debver(&self, package_name: &str) -> (r: Result<
        Option<&DebianVersionNum>,
        PackageError,
    >)
        requires
            self.wf(),
        ensures
            match id_of(self.model(), package_name@) {
                Some(i) => r matches Ok(o) && opt_version_ref(o) == self.model()[i].installed,
                None => r matches Err(e) && e == PackageError::NotFound,
            },
    {
        match self.find(package_name) {
            Some(i) => Ok(self.packages[i].installed.as_ref()),
            None => Err(PackageError::NotFound),
        }
    }

    /// The checksum recorded for `package_name`, if one was set.
    pub fn get_md5sum(&self, package_name: &str) -> (r: Result<Option<&str>, PackageError>)
        requires
            self.wf(),
        ensures
            match id_of(self.model(), package_name@) {
                Some(i) => r matches Ok(o) && opt_str(o) == self.model()[i].md5sum,
                None => r matches Err(e) && e == PackageError::NotFound,
            },
    {
        match self.find(package_name) {
            Some(i) => match &self.packages[i].md5sum {
                Some(m) => Ok(Some(m.as_str())),
                None => Ok(None),
            },
            None => Err(PackageError::NotFound),
        }
    }

    /// The dependency clauses of `package_name`, in the order given.
    pub fn get_dependencies(&self, package_name: &str) -> (r: Result<
        &Vec<Dependency>,
        PackageError,
    >)
        requires
            self.wf(),
        ensures
            match id_of(self.model(), package_name@) {
                Some(i) => r matches Ok(d) && deps_model(d@) == self.model()[i].deps,
                None => r matches Err(e) && e == PackageError::NotFound,
            },
    {
        match self.find(package_name) {
            Some(i) => Ok(&self.packages[i].dependencies),
            None => Err(PackageError::NotFound),
        }
    }

    /// Replaces the available version of package `package_num`.
    pub fn set_available_debver(&mut self, package_num: usize, v: DebianVersionNum) -> (r: Result<
        (),
        PackageError,
    >)
        requires
            old(self).wf(),
        ensures
            final(self).wf(),
            final(self).queue() == old(self).queue(),
            final(self).server() == old(self).server(),
            package_num < old(self).model().len() ==> r is Ok && final(self).model() == old(
                self,
            ).model().update(
                package_num as int,
                PackageModel { available: Some(v@), ..old(self).model()[package_num as int] },
            ),
            package_num >= old(self).model().len() ==> r == Err::<(), PackageError>(
                PackageError::NotFound,
            ) && final(self).model() == old(self).model(),
    {
        if package_num >= self.packages.len() {
            return Err(PackageError::NotFound);
        }
        self.packages[package_num].available = Some(v);
        proof {
            self.lemma_update_keeps_wf(old(self).model(), package_num as int);
        }
        Ok(())
    }

    /// Replaces the installed version of package `package_num`.
    pub fn set_installed_debver(&mut self, package_num: usize, v: DebianVersionNum) -> (r: Result<
        (),
        PackageError,
    >)
        requires
            old(self).wf(),
        ensures
            final(self).wf(),
            final(self).queue() == old(self).queue(),
            final(self).server() == old(self).server(),
            package_num < old(self).model().len() ==> r is Ok && final(self).model() == old(
                self,
            ).model().update(
                package_num as int,
                PackageModel { installed: Some(v@), ..old(self).model()[package_num as int] },
            ),
            package_num >= old(self).model().len() ==> r == Err::<(), PackageError>(
                PackageError::NotFound,
            ) && final(self).model() == old(self).model(),
    {
        if package_num >= self.packages.len() {
            return Err(PackageError::NotFound);
        }
        self.packages[package_num].installed = Some(v);
        proof {
            self.lemma_update_keeps_wf(old(self).model(), package_num as int);
        }
        Ok(())
    }

    /// Replaces the checksum of package `package_num`.
    pub fn set_md5sum(&mut self, package_num: usize, md5sum: String) -> (r: Result<
        (),
        PackageError,
    >)
        requires
            old(self).wf(),
        ensures
            final(self).wf(),
            final(self).queue() == old(self).queue(),
            final(self).server() == old(self).server(),
            package_num < old(self).model().len() ==> r is Ok && final(self).model() == old(
                self,
            ).model().update(
                package_num as int,
                PackageModel { md5sum: Some(md5sum@), ..old(self).model()[package_num as int] },
            ),
            package_num >= old(self).model().len() ==> r == Err::<(), PackageError>(
                PackageError::NotFound,
            ) && final(self).model() == old(self).model(),
    {
        if package_num >= self.packages.len() {
            return Err(PackageError::NotFound);
        }
        self.packages[package_num].md5sum = Some(md5sum);
        proof {
            self.lemma_update_keeps_wf(old(self).model(), package_num as int);
        }
        Ok(())
    }

    /// Replaces the dependency clauses of package `package_num`. Refused,
    /// with nothing changed, when a clause is empty or names an unknown id.
    pub fn set_dependencies(&mut self, package_num: usize, deps: Vec<Dependency>) -> (r: Result<
        (),
        PackageError,
    >)
        requires
            old(self).wf(),
        ensures
            final(self).wf(),
            final(self).queue() == old(self).queue(),
            final(self).server() == old(self).server(),
            package_num >= old(self).model().len() ==> r == Err::<(), PackageError>(
                PackageError::NotFound,
            ),
            package_num < old(self).model().len() && !clauses_wf(
                deps_model(deps@),
                old(self).model().len() as int,
            ) ==> r == Err::<(), PackageError>(PackageError::MalformedClause),
            package_num < old(self).model().len() && clauses_wf(
                deps_model(deps@),
                old(self).model().len() as int,
            ) ==> r is Ok && final(self).model() == old(self).model().update(
                package_num as int,
                PackageModel { deps: deps_model(deps@), ..old(self).model()[package_num as int] },
            ),
            r is Err ==> final(self).model() == old(self).model(),
    {
        if package_num >= self.packages.len() {
            return Err(PackageError::NotFound);
        }
        let n = self.packages.len();
        let mut k: usize = 0;
        while k < deps.len()
            invariant
                n == old(self).model().len(),
                package_num < n,
                *self == *old(self),
                self.wf(),
                k <= deps.len(),
                clauses_wf(deps_model(deps@).subrange(0, k as int), n as int),
            decreases deps.len() - k,
        {
            let clause = &deps[k];
            if clause.len() == 0 {
                proof {
                    assert(deps_model(deps@)[k as int].len() == 0);
                }
                return Err(PackageError::MalformedClause);
            }
            let mut j: usize = 0;
            while j < clause.len()
                invariant
                    n == old(self).model().len(),
                    package_num < n,
                    *self == *old(self),
                    self.wf(),
                    k < deps.len(),
                    clause == &deps@[k as int],
                    j <= clause.len(),
                    forall|t: int| 0 <= t < j ==> (#[trigger] clause@[t]).package_num < n,
                decreases clause.len() - j,
            {
                if clause[j].package_num >= n {
                    proof {
                        assert(deps_model(deps@)[k as int][j as int].package >= n);
                    }
                    return Err(PackageError::MalformedClause);
                }
                j = j + 1;
            }
            proof {
                let dm = deps_model(deps@);
                assert forall|q: int| 0 <= q < k + 1 implies {
                    &&& (#[trigger] dm.subrange(0, k + 1)[q]).len() > 0
                    &&& forall|t: int|
                        0 <= t < dm.subrange(0, k + 1)[q].len() ==> 0 <= (
                        #[trigger] dm.subrange(0, k + 1)[q][t]).package < n
                } by {
                    if q < k {
                        assert(dm.subrange(0, k + 1)[q] == dm.subrange(0, k as int)[q]);
                    }
                }
            }
            k = k + 1;
        }
        proof {
            assert(deps_model(deps@).subrange(0, deps@.len() as int) =~= deps_model(deps@));
        }
        self.packages[package_num].dependencies = deps;
        proof {
            self.lemma_update_keeps_wf(old(self).model(), package_num as int);
        }
        Ok(())
    }

    pub fn package_exists(&self, package_name: &str) -> (r: bool)
        requires
            self.wf(),
        ensures
            r == id_of(self.model(), package_name@) is Some,
    {
        self.find(package_name).is_some()
    }
}

/// `parts` joined with `sep` between each two.
pub open spec fn joined(parts: Seq<Seq<char>>, sep: Seq<char>) -> Seq<char>
    decreases parts.len(),
{
    if parts.len() == 0 {
        seq![]
    } else if parts.len() == 1 {
        parts[0]
    } else {
        joined(parts.drop_last(), sep) + sep + parts.last()
    }
}

/// An alternative as written in a catalog: `name` or `name (op version)`.
pub open spec fn alt_text(m: Seq<PackageModel>, a: AltModel) -> Seq<char> {
    match a.constraint {
        None => m[a.package].name,
        Some((op, v)) => m[a.package].name + " ("@ + relation_text(op) + " "@ + version_text(v)
            + ")"@,
    }
}

/// A clause as written in a catalog: its alternatives joined by ` | `.
pub open spec fn clause_text(m: Seq<PackageModel>, c: Seq<AltModel>) -> Seq<char> {
    joined(c.map_values(|a: AltModel| alt_text(m, a)), " | "@)
}

/// A list of clauses as written in a catalog, joined by `, `.
pub open spec fn deps_text(m: Seq<PackageModel>, ds: Seq<Seq<AltModel>>) -> Seq<char> {
    joined(ds.map_values(|c: Seq<AltModel>| clause_text(m, c)), ", "@)
}

/// One line of the checksum list for package `p`, if it has both an
/// available version and a checksum.
pub open spec fn md5_row(p: PackageModel) -> Seq<char> {
    match (p.available, p.md5sum) {
        (Some(v), Some(sum)) => p.name + ","@ + version_text(v) + ","@ + sum + "\n"@,
        _ => seq![],
    }
}

/// The lines of the checksum list for the first `k` packages, by id.
pub open spec fn md5_rows(m: Seq<PackageModel>, k: int) -> Seq<char>
    decreases k,
{
    if k <= 0 || k > m.len() {
        seq![]
    } else {
        md5_rows(m, k - 1) + md5_row(m[k - 1])
    }
}

/// The checksum list: a header, then one line per package that has both an
/// available version and a checksum, by id.
pub open spec fn md5s_text(m: Seq<PackageModel>) -> Seq<char> {
    "name,version,hash\n"@ + md5_rows(m, m.len() as int)
}

/// Appends the characters of `s` to `out`.
pub(crate) fn push_str(out: &mut Vec<char>, s: &str)
    ensures
        final(out)@ == old(out)@ + s@,
{
    let t = chars_of(s);
    let ghost start = out@;
    let mut i: usize = 0;
    while i < t.len()
        invariant
            i <= t.len(),
            out@ == start + t@.subrange(0, i as int),
        decreases t.len() - i,
    {
        out.push(t[i]);
        proof {
            assert(out@ =~= start + t@.subrange(0, i + 1));
        }
        i = i + 1;
    }
    proof {
        assert(t@.subrange(0, t@.len() as int) =~= t@);
    }
}

impl Packages {
    fn push_alt(&self, out: &mut Vec<char>, a: &RelVersionedPackageNum)
        requires
            a.package_num < self.model().len(),
        ensures
            final(out)@ == old(out)@ + alt_text(self.model(), alt_model(*a)),
    {
        push_str(out, self.packages[a.package_num].name.as_str());
        match &a.rel_version {
            None => {},
            Some((op, v)) => {
                push_str(out, " (");
                push_str(out, op.to_string().as_str());
                push_str(out, " ");
                push_str(out, v.to_string().as_str());
                push_str(out, ")");
            },
        }
        proof {
            assert(final(out)@ =~= old(out)@ + alt_text(self.model(), alt_model(*a)));
        }
    }

    fn push_clause(&self, out: &mut Vec<char>, dep: &Dependency)
        requires
            crate::packages::deps_available::clause_in_range(
                clause_model(dep@),
                self.model().len() as int,
            ),
        ensures
            final(out)@ == old(out)@ + clause_text(self.model(), clause_model(dep@)),
    {
        let ghost m = self.model();
        let ghost parts = clause_model(dep@).map_values(|a: AltModel| alt_text(m, a));
        let ghost start = out@;
        let mut i: usize = 0;
        while i < dep.len()
            invariant
                m == self.model(),
                parts == clause_model(dep@).map_values(|a: AltModel| alt_text(m, a)),
                crate::packages::deps_available::clause_in_range(clause_model(dep@), m.len() as int),
                i <= dep.len(),
                out@ == start + joined(parts.subrange(0, i as int), " | "@),
            decreases dep.len() - i,
        {
            if i > 0 {
                push_str(out, " | ");
            }
            assert(clause_model(dep@)[i as int].package == dep@[i as int].package_num);
            self.push_alt(out, &dep[i]);
            proof {
                assert(parts.subrange(0, i + 1).drop_last() =~= parts.subrange(0, i as int));
                assert(out@ =~= start + joined(parts.subrange(0, i + 1), " | "@));
            }
            i = i + 1;
        }
        proof {
            assert(parts.subrange(0, dep@.len() as int) =~= parts);
        }
    }

    /// A clause as written in a catalog.
    pub fn dep2str(&self, dep: &Dependency) -> (r: String)
        requires
            crate::packages::deps_available::clause_in_range(
                clause_model(dep@),
                self.model().len() as int,
            ),
        ensures
            r@ == clause_text(self.model(), clause_model(dep@)),
    {
        let mut out: Vec<char> = Vec::new();
        self.push_clause(&mut out, dep);
        string_of(&out)
    }

    /// A list of clauses as written in a catalog.
    pub fn deps2str(&self, deps: &Vec<Dependency>) -> (r: String)
        requires
            clauses_wf(deps_model(deps@), self.model().len() as int),
        ensures
            r@ == deps_text(self.model(), deps_model(deps@)),
    {
        let ghost m = self.model();
        let ghost parts = deps_model(deps@).map_values(|c: Seq<AltModel>| clause_text(m, c));
        let mut out: Vec<char> = Vec::new();
        let mut i: usize = 0;
        while i < deps.len()
            invariant
                m == self.model(),
                parts == deps_model(deps@).map_values(|c: Seq<AltModel>| clause_text(m, c)),
                clauses_wf(deps_model(deps@), m.len() as int),
                i <= deps.len(),
                out@ == joined(parts.subrange(0, i as int), ", "@),
            decreases deps.len() - i,
        {
            if i > 0 {
                push_str(&mut out, ", ");
            }
            assert(deps_model(deps@)[i as int] == clause_model(deps@[i as int]@));
            self.push_clause(&mut out, &deps[i]);
            proof {
                assert(parts.subrange(0, i + 1).drop_last() =~= parts.subrange(0, i as int));
                assert(out@ =~= joined(parts.subrange(0, i + 1), ", "@));
            }
            i = i + 1;
        }
        proof {
            assert(parts.subrange(0, deps@.len() as int) =~= parts);
        }
        string_of(&out)
    }

    /// The checksum list, as a CSV text with the header
    /// `name,version,hash`.
    pub fn output_md5s(&self) -> (r: String)
        ensures
            r@ == md5s_text(self.model()),
    {
        let ghost m = self.model();
        let mut out: Vec<char> = Vec::new();
        push_str(&mut out, "name,version,hash\n");
        let mut i: usize = 0;
        while i < self.packages.len()
            invariant
                m == self.model(),
                i <= self.packages.len(),
                out@ == "name,version,hash\n"@ + md5_rows(m, i as int),
            decreases self.packages.len() - i,
        {
            let p = &self.packages[i];
            let ghost before = out@;
            match (&p.available, &p.md5sum) {
                (Some(v), Some(sum)) => {
                    push_str(&mut out, p.name.as_str());
                    push_str(&mut out, ",");
                    push_str(&mut out, v.to_string().as_str());
                    push_str(&mut out, ",");
                    push_str(&mut out, sum.as_str());
                    push_str(&mut out, "\n");
                },
                _ => {},
            }
            proof {
                assert(out@ =~= before + md5_row(m[i as int]));
                assert(out@ =~= "name,version,hash\n"@ + md5_rows(m, i + 1));
            }
            i = i + 1;
        }
        string_of(&out)
    }
}

} // verus!
