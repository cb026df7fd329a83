use vstd::prelude::*;
use vstd::set_lib::{lemma_int_range, lemma_len_subset, set_int_range};

use crate::debversion::version_cmp;
use crate::packages::deps_available::{
    clause_in_range, first_satisfied, wrong_version, wrong_version_upto, alt_wrong_version,
};
use crate::packages::{
    AltModel, Dependency, PackageModel, Packages, clause_model, clauses_wf, deps_model, id_of,
    registry_wf,
};

verus! {

pub open spec fn ids(v: Seq<usize>) -> Seq<int> {
    v.map_values(|x: usize| x as int)
}

/// `q` is the first alternative of one of `p`'s clauses.
pub open spec fn first_alt_edge(m: Seq<PackageModel>, p: int, q: int) -> bool {
    exists|k: int| 0 <= k < m[p].deps.len() && (#[trigger] m[p].deps[k])[0].package == q
}

/// Each step of `path` goes from a package to the first alternative of one
/// of its clauses.
pub open spec fn is_first_alt_path(m: Seq<PackageModel>, path: Seq<int>) -> bool {
    &&& path.len() >= 2
    &&& forall|i: int| 0 <= i < path.len() - 1 ==> first_alt_edge(m, #[trigger] path[i], path[i + 1])
}

/// `q` is reached from `root` in one or more steps along first alternatives.
pub open spec fn first_alt_reachable(m: Seq<PackageModel>, root: int, q: int) -> bool {
    exists|path: Seq<int>|
        #[trigger] is_first_alt_path(m, path) && path[0] == root && path.last() == q
}

/// No id twice, and every id below `n`.
pub open spec fn distinct_below(s: Seq<int>, n: int) -> bool {
    &&& s.no_duplicates()
    &&& forall|j: int| 0 <= j < s.len() ==> 0 <= #[trigger] s[j] < n
}

pub proof fn lemma_distinct_below_len(s: Seq<int>, n: int)
    requires
        distinct_below(s, n),
        n >= 0,
    ensures
        s.len() <= n,
{
    s.unique_seq_to_set();
    lemma_int_range(0, n);
    assert(s.to_set().subset_of(set_int_range(0, n)));
    lemma_len_subset(s.to_set(), set_int_range(0, n));
}

fn contains_id(v: &Vec<usize>, x: usize) -> (b: bool)
    ensures
        b == ids(v@).contains(x as int),
{
    let mut i: usize = 0;
    while i < v.len()
        invariant
            i <= v.len(),
            forall|j: int| 0 <= j < i ==> v@[j] != x,
        decreases v.len() - i,
    {
        if v[i] == x {
            assert(ids(v@)[i as int] == x as int);
            return true;
        }
        i = i + 1;
    }
    proof {
        if ids(v@).contains(x as int) {
            let j = choose|j: int| 0 <= j < ids(v@).len() && ids(v@)[j] == x as int;
            assert(v@[j] == x);
        }
    }
    false
}

impl Packages {
    /// Adds the first alternative of each clause of `p` to `res`, unless it
    /// is there already.
    fn add_first_alternatives(&self, p: usize, res: &mut Vec<usize>, Ghost(root): Ghost<int>)
        requires
            self.wf(),
            p < self.model().len(),
            distinct_below(ids(old(res)@), self.model().len() as int),
            forall|j: int|
                0 <= j < old(res)@.len() ==> first_alt_reachable(self.model(), root, #[trigger] ids(old(res)@)[j]),
            p == root || first_alt_reachable(self.model(), root, p as int),
        ensures
            distinct_below(ids(final(res)@), self.model().len() as int),
            forall|j: int|
                0 <= j < final(res)@.len() ==> first_alt_reachable(self.model(), root, #[trigger] ids(final(res)@)[j]),
            ids(old(res)@).is_prefix_of(ids(final(res)@)),
            forall|k: int|
                0 <= k < self.model()[p as int].deps.len() ==> ids(final(res)@).contains(
                    (#[trigger] self.model()[p as int].deps[k])[0].package,
                ),
    {
        let ghost m = self.model();
        let deps = &self.packages[p].dependencies;
        assert(clauses_wf(m[p as int].deps, m.len() as int));
        let mut k: usize = 0;
        while k < deps.len()
            invariant
                m == self.model(),
                registry_wf(m),
                p < m.len(),
                deps == &self.packages@[p as int].dependencies,
                m[p as int].deps == crate::packages::deps_model(deps@),
                clauses_wf(m[p as int].deps, m.len() as int),
                p == root || first_alt_reachable(m, root, p as int),
                k <= deps.len(),
                distinct_below(ids(res@), m.len() as int),
                forall|j: int|
                    0 <= j < res@.len() ==> first_alt_reachable(m, root, #[trigger] ids(res@)[j]),
                ids(old(res)@).is_prefix_of(ids(res@)),
                forall|t: int| 0 <= t < k ==> ids(res@).contains((#[trigger] m[p as int].deps[t])[0].package),
            decreases deps.len() - k,
        {
            assert(m[p as int].deps[k as int].len() > 0);
            let q = deps[k][0].package_num;
            assert(m[p as int].deps[k as int][0].package == q);
            if !contains_id(res, q) {
                let ghost before = ids(res@);
                res.push(q);
                proof {
                    assert(ids(res@) =~= before.push(q as int));
                    assert(first_alt_edge(m, p as int, q as int));
                    if p == root {
                        let path = seq![root, q as int];
                        assert(is_first_alt_path(m, path));
                    } else {
                        let path0 = choose|path: Seq<int>|
                            #[trigger] is_first_alt_path(m, path) && path[0] == root && path.last() == p;
                        let path = path0.push(q as int);
                        assert forall|i: int| 0 <= i < path.len() - 1 implies first_alt_edge(m, #[trigger] path[i], path[i + 1]) by {
                            if i < path0.len() - 1 {
                                assert(path[i] == path0[i] && path[i + 1] == path0[i + 1]);
                            }
                        }
                        assert(is_first_alt_path(m, path));
                    }
                    assert forall|t: int| 0 <= t < k + 1 implies ids(res@).contains((#[trigger] m[p as int].deps[t])[0].package) by {
                        if t < k {
                            let w = choose|w: int| 0 <= w < before.len() && before[w] == m[p as int].deps[t][0].package;
                            assert(ids(res@)[w] == before[w]);
                        } else {
                            assert(ids(res@)[before.len() as int] == q);
                        }
                    }
                    assert(ids(old(res)@).is_prefix_of(ids(res@)));
                }
            }
            k = k + 1;
        }
    }

    /// The packages that `package_name` pulls in when every clause is
    /// resolved by its first alternative, installed or not; each once. Empty
    /// for an unknown name.
    pub fn transitive_dep_solution(&self, package_name: &str) -> (r: Vec<usize>)
        requires
            self.wf(),
        ensures
            id_of(self.model(), package_name@) is None ==> r@.len() == 0,
            id_of(self.model(), package_name@) matches Some(root) ==> {
                &&& distinct_below(ids(r@), self.model().len() as int)
                &&& forall|q: int| #[trigger] ids(r@).contains(q) <==> first_alt_reachable(self.model(), root, q)
            },
    {
        let root = match self.find(package_name) {
            Some(i) => i,
            None => {
                return Vec::new();
            },
        };
        let ghost m = self.model();
        let mut res: Vec<usize> = Vec::new();
        proof {
            assert(distinct_below(ids(res@), m.len() as int));
        }
        self.add_first_alternatives(root, &mut res, Ghost(root as int));
        let mut i: usize = 0;
        while i < res.len()
            invariant
                m == self.model(),
                self.wf(),
                root < m.len(),
                i <= res.len(),
                distinct_below(ids(res@), m.len() as int),
                forall|j: int|
                    0 <= j < res@.len() ==> first_alt_reachable(m, root as int, #[trigger] ids(res@)[j]),
                forall|k: int|
                    0 <= k < m[root as int].deps.len() ==> ids(res@).contains(
                        (#[trigger] m[root as int].deps[k])[0].package,
                    ),
                forall|j: int, k: int|
                    0 <= j < i && 0 <= k < m[res@[j] as int].deps.len() ==> ids(res@).contains(
                        (#[trigger] m[res@[j] as int].deps[k])[0].package,
                    ),
            decreases m.len() - i,
        {
            proof {
                lemma_distinct_below_len(ids(res@), m.len() as int);
            }
            let p = res[i];
            let ghost before = ids(res@);
            assert(before[i as int] == p);
            self.add_first_alternatives(p, &mut res, Ghost(root as int));
            proof {
                assert forall|x: int| before.contains(x) implies ids(res@).contains(x) by {
                    let w = choose|w: int| 0 <= w < before.len() && before[w] == x;
                    assert(ids(res@)[w] == before[w]);
                }
                assert forall|j: int, k: int|
                    0 <= j < i + 1 && 0 <= k < m[res@[j] as int].deps.len() implies ids(res@).contains(
                        (#[trigger] m[res@[j] as int].deps[k])[0].package,
                    ) by {
                    assert(res@[j] as int == before[j]);
                    if j < i {
                        assert(before.contains(m[before[j]].deps[k][0].package));
                    }
                }
                assert forall|k: int|
                    0 <= k < m[root as int].deps.len() implies ids(res@).contains(
                        (#[trigger] m[root as int].deps[k])[0].package,
                    ) by {
                    assert(before.contains(m[root as int].deps[k][0].package));
                }
            }
            i = i + 1;
        }
        proof {
            let r = ids(res@);
            assert forall|q: int| #[trigger] r.contains(q) <==> first_alt_reachable(m, root as int, q) by {
                if r.contains(q) {
                    let w = choose|w: int| 0 <= w < r.len() && r[w] == q;
                    assert(first_alt_reachable(m, root as int, r[w]));
                }
                if first_alt_reachable(m, root as int, q) {
                    let path = choose|path: Seq<int>|
                        #[trigger] is_first_alt_path(m, path) && path[0] == root && path.last() == q;
                    lemma_closed_contains_path(m, r, res@, root as int, path, path.len() - 1);
                }
            }
        }
        res
    }
}

/// A set that holds the first alternatives of `root` and of each of its
/// members holds every package on a first-alternative path from `root`.
proof fn lemma_closed_contains_path(
    m: Seq<PackageModel>,
    r: Seq<int>,
    rv: Seq<usize>,
    root: int,
    path: Seq<int>,
    t: int,
)
    requires
        r == ids(rv),
        is_first_alt_path(m, path),
        path[0] == root,
        1 <= t < path.len(),
        forall|k: int|
            0 <= k < m[root].deps.len() ==> r.contains((#[trigger] m[root].deps[k])[0].package),
        forall|j: int, k: int|
            0 <= j < rv.len() && 0 <= k < m[rv[j] as int].deps.len() ==> r.contains(
                (#[trigger] m[rv[j] as int].deps[k])[0].package,
            ),
    ensures
        r.contains(path[t]),
    decreases t,
{
    assert(first_alt_edge(m, path[t - 1], path[t]));
    let k = choose|k: int| 0 <= k < m[path[t - 1]].deps.len() && (#[trigger] m[path[t - 1]].deps[k])[0].package == path[t];
    if t == 1 {
        assert(r.contains(m[root].deps[k][0].package));
    } else {
        lemma_closed_contains_path(m, r, rv, root, path, t - 1);
        let w = choose|w: int| 0 <= w < r.len() && r[w] == path[t - 1];
        assert(rv[w] as int == path[t - 1]);
        assert(r.contains(m[rv[w] as int].deps[k][0].package));
    }
}

/// Between two packages installed at the wrong version, `x` is preferred to
/// `b` when its installed version is higher, or equal with a higher id.
pub open spec fn installed_beats(m: Seq<PackageModel>, x: int, b: int) -> bool {
    let c = version_cmp(m[x].installed->Some_0, m[b].installed->Some_0);
    c > 0 || (c == 0 && x >= b)
}

/// The preferred package among the first `k` of `w`.
pub open spec fn best_installed(m: Seq<PackageModel>, w: Seq<int>, k: int) -> int
    decreases k,
{
    if k <= 1 {
        w[0]
    } else {
        let b = best_installed(m, w, k - 1);
        if installed_beats(m, w[k - 1], b) {
            w[k - 1]
        } else {
            b
        }
    }
}

/// Alternative `a` is preferred to `b` when both carry a constraint and the
/// version of `a`'s is at least that of `b`'s, or when only `a` carries one.
pub open spec fn constraint_beats(a: AltModel, b: AltModel) -> bool {
    match (a.constraint, b.constraint) {
        (Some((_, va)), Some((_, vb))) => version_cmp(va, vb) >= 0,
        (Some(_), None) => true,
        _ => false,
    }
}

/// Position of the preferred alternative among the first `k` of `c`.
pub open spec fn best_constraint(c: Seq<AltModel>, k: int) -> int
    decreases k,
{
    if k <= 1 {
        0
    } else {
        let b = best_constraint(c, k - 1);
        if constraint_beats(c[k - 1], c[b]) {
            k - 1
        } else {
            b
        }
    }
}

/// The package the planner adds for clause `c`: none when it is satisfied;
/// else the preferred one among those installed at the wrong version; else,
/// when nothing of it is installed, the package of the alternative with the
/// highest constraint version.
pub open spec fn chosen(m: Seq<PackageModel>, c: Seq<AltModel>) -> Option<int> {
    if first_satisfied(m, c) is Some {
        None
    } else if wrong_version(m, c).len() > 0 {
        Some(best_installed(m, wrong_version(m, c), wrong_version(m, c).len() as int))
    } else {
        Some(c[best_constraint(c, c.len() as int)].package)
    }
}

/// The clauses are not empty and name packages of the registry.
pub open spec fn queue_ok(q: Seq<Seq<AltModel>>, n: int) -> bool {
    forall|i: int| 0 <= i < q.len() ==> (#[trigger] q[i]).len() > 0 && clause_in_range(q[i], n)
}

pub open spec fn plan_ok(m: Seq<PackageModel>, q: Seq<Seq<AltModel>>, res: Seq<int>) -> bool {
    &&& registry_wf(m)
    &&& distinct_below(res, m.len() as int)
    &&& queue_ok(q, m.len() as int)
}

/// The planner from a queue of clauses and the packages chosen so far: it
/// takes the clauses in turn; a chosen package not yet in the plan is
/// appended to it and its own clauses to the queue.
pub open spec fn plan_run(m: Seq<PackageModel>, q: Seq<Seq<AltModel>>, res: Seq<int>) -> Seq<int>
    decreases m.len() - res.len(), q.len()
        when plan_ok(m, q, res)
{
    if q.len() == 0 {
        res
    } else {
        match chosen(m, q[0]) {
            None => plan_run(m, q.drop_first(), res),
            Some(p) => if res.contains(p) {
                plan_run(m, q.drop_first(), res)
            } else {
                proof {
                    lemma_chosen_in_range(m, q[0]);
                    assert(distinct_below(res.push(p), m.len() as int)) by {
                        assert forall|j: int| 0 <= j < res.push(p).len() implies 0 <= #[trigger] res.push(p)[j] < m.len() by {
                            if j < res.len() {
                                assert(res.push(p)[j] == res[j]);
                            }
                        }
                    }
                    lemma_distinct_below_len(res.push(p), m.len() as int);
                }
                plan_run(m, q.drop_first() + m[p].deps, res.push(p))
            },
        }
    }
}

/// The install plan for `name`: empty for an unknown name.
pub open spec fn install_plan(m: Seq<PackageModel>, name: Seq<char>) -> Seq<int> {
    match id_of(m, name) {
        Some(root) => plan_run(m, m[root].deps, seq![]),
        None => seq![],
    }
}

proof fn lemma_best_installed_in(m: Seq<PackageModel>, w: Seq<int>, k: int)
    requires
        1 <= k <= w.len(),
    ensures
        exists|j: int| 0 <= j < k && w[j] == best_installed(m, w, k),
    decreases k,
{
    if k > 1 {
        lemma_best_installed_in(m, w, k - 1);
        let b = best_installed(m, w, k - 1);
        if !installed_beats(m, w[k - 1], b) {
            let j = choose|j: int| 0 <= j < k - 1 && w[j] == b;
            assert(w[j] == best_installed(m, w, k));
        } else {
            assert(w[k - 1] == best_installed(m, w, k));
        }
    } else {
        assert(w[0] == best_installed(m, w, k));
    }
}

proof fn lemma_best_constraint_in(c: Seq<AltModel>, k: int)
    requires
        1 <= k,
    ensures
        0 <= best_constraint(c, k) < k,
    decreases k,
{
    if k > 1 {
        lemma_best_constraint_in(c, k - 1);
    }
}

proof fn lemma_wrong_version_facts(m: Seq<PackageModel>, c: Seq<AltModel>, k: int)
    requires
        clause_in_range(c, m.len() as int),
        0 <= k <= c.len(),
    ensures
        forall|j: int|
            0 <= j < wrong_version_upto(m, c, k).len() ==> {
                &&& 0 <= #[trigger] wrong_version_upto(m, c, k)[j] < m.len()
                &&& m[wrong_version_upto(m, c, k)[j]].installed is Some
            },
    decreases k,
{
    if k > 0 {
        lemma_wrong_version_facts(m, c, k - 1);
        assert(0 <= c[k - 1].package < m.len());
        let prev = wrong_version_upto(m, c, k - 1);
        let w = wrong_version_upto(m, c, k);
        assert forall|j: int| 0 <= j < w.len() implies {
            &&& 0 <= #[trigger] w[j] < m.len()
            &&& m[w[j]].installed is Some
        } by {
            if j < prev.len() {
                assert(w[j] == prev[j]);
            }
        }
    }
}

pub proof fn lemma_chosen_in_range(m: Seq<PackageModel>, c: Seq<AltModel>)
    requires
        c.len() > 0,
        clause_in_range(c, m.len() as int),
    ensures
        chosen(m, c) matches Some(p) ==> 0 <= p < m.len(),
{
    let w = wrong_version(m, c);
    lemma_wrong_version_facts(m, c, c.len() as int);
    if w.len() > 0 {
        lemma_best_installed_in(m, w, w.len() as int);
        let j = choose|j: int| 0 <= j < w.len() && w[j] == best_installed(m, w, w.len() as int);
        assert(0 <= w[j] < m.len());
    }
    lemma_best_constraint_in(c, c.len() as int);
}

/// Planning twice on an unchanged registry gives the same plan.
pub proof fn lemma_plan_repeatable(
    m: Seq<PackageModel>,
    name: Seq<char>,
    first: Seq<int>,
    second: Seq<int>,
)
    requires
        first == install_plan(m, name),
        second == install_plan(m, name),
    ensures
        first == second,
{
}

pub open spec fn queue_model(qv: Seq<&Dependency>, h: int) -> Seq<Seq<AltModel>> {
    qv.subrange(h, qv.len() as int).map_values(|d: &Dependency| clause_model(d@))
}

impl Packages {
    /// The package the planner adds for clause `dd`, if any.
    fn choose_for(&self, dd: &Dependency) -> (r: Option<usize>)
        requires
            self.wf(),
            dd@.len() > 0,
            clause_in_range(clause_model(dd@), self.model().len() as int),
        ensures
            match chosen(self.model(), clause_model(dd@)) {
                Some(p) => r == Some(p as usize),
                None => r is None,
            },
    {
        let ghost m = self.model();
        let ghost c = clause_model(dd@);
        proof {
            lemma_chosen_in_range(m, c);
        }
        if self.first_satisfied_index(dd).is_some() {
            return None;
        }
        let w = self.wrong_version_ids(dd);
        let ghost wi = wrong_version(m, c);
        proof {
            lemma_wrong_version_facts(m, c, c.len() as int);
        }
        if w.len() > 0 {
            let mut best: usize = w[0];
            let mut k: usize = 1;
            while k < w.len()
                invariant
                    m == self.model(),
                    1 <= k <= w.len(),
                    ids(w@) == wi,
                    forall|j: int|
                        0 <= j < wi.len() ==> {
                            &&& 0 <= #[trigger] wi[j] < m.len()
                            &&& m[wi[j]].installed is Some
                        },
                    best as int == best_installed(m, wi, k as int),
                    best < m.len(),
                decreases w.len() - k,
            {
                let x = w[k];
                assert(wi[k as int] == x as int);
                let vx = match &self.packages[x].installed {
                    Some(v) => v,
                    None => {
                        assert(false);
                        return None;
                    },
                };
                let vb = match &self.packages[best].installed {
                    Some(v) => v,
                    None => {
                        proof {
                            lemma_best_installed_in(m, wi, k as int);
                        }
                        assert(false);
                        return None;
                    },
                };
                let cmp = vx.compare(vb);
                if cmp > 0 || (cmp == 0 && x >= best) {
                    best = x;
                }
                k = k + 1;
            }
            assert(wi.len() == w.len());
            return Some(best);
        }
        let mut b: usize = 0;
        let mut k: usize = 1;
        while k < dd.len()
            invariant
                1 <= k <= dd.len(),
                c == clause_model(dd@),
                b as int == best_constraint(c, k as int),
                b < k,
            decreases dd.len() - k,
        {
            let beats = match (&dd[k].rel_version, &dd[b].rel_version) {
                (Some((_, va)), Some((_, vb))) => va.compare(vb) >= 0,
                (Some(_), None) => true,
                _ => false,
            };
            assert(beats == constraint_beats(c[k as int], c[b as int]));
            if beats {
                b = k;
            }
            k = k + 1;
        }
        assert(c[b as int].package == dd@[b as int].package_num);
        Some(dd[b].package_num)
    }

    /// The packages to install so that `package_name`'s clauses hold against
    /// what is installed, in the order the planner finds them, each once.
    /// Empty for an unknown name.
    pub fn compute_how_to_install(&self, package_name: &str) -> (r: Vec<usize>)
        requires
            self.wf(),
        ensures
            ids(r@) == install_plan(self.model(), package_name@),
            distinct_below(ids(r@), self.model().len() as int),
    {
        let ghost m = self.model();
        let root = match self.find(package_name) {
            Some(i) => i,
            None => {
                proof {
                    assert(ids(Seq::<usize>::empty()) =~= Seq::<int>::empty());
                }
                return Vec::new();
            },
        };
        let mut res: Vec<usize> = Vec::new();
        let mut qv: Vec<&Dependency> = Vec::new();
        let deps = &self.packages[root].dependencies;
        let mut k: usize = 0;
        while k < deps.len()
            invariant
                m == self.model(),
                root < m.len(),
                deps == &self.packages@[root as int].dependencies,
                k <= deps.len(),
                qv@.len() == k,
                forall|j: int| 0 <= j < k ==> #[trigger] qv@[j] == &deps@[j],
            decreases deps.len() - k,
        {
            qv.push(&deps[k]);
            k = k + 1;
        }
        let mut h: usize = 0;
        proof {
            assert(queue_model(qv@, 0) =~= m[root as int].deps);
            assert(ids(res@) =~= Seq::<int>::empty());
            assert(clauses_wf(m[root as int].deps, m.len() as int));
        }
        let ghost target = plan_run(m, m[root as int].deps, seq![]);
        let n = self.packages.len();
        while h < qv.len()
            invariant
                m == self.model(),
                n == m.len(),
                self.wf(),
                h <= qv.len(),
                plan_ok(m, queue_model(qv@, h as int), ids(res@)),
                plan_run(m, queue_model(qv@, h as int), ids(res@)) == target,
            decreases m.len() - res.len(), qv.len() - h,
        {
            let ghost q = queue_model(qv@, h as int);
            let ghost r0 = ids(res@);
            let dd = qv[h];
            assert(q[0] == clause_model(dd@));
            proof {
                lemma_chosen_in_range(m, q[0]);
                assert(queue_model(qv@, h + 1) =~= q.drop_first());
                lemma_distinct_below_len(r0, m.len() as int);
            }
            h = h + 1;
            match self.choose_for(dd) {
                None => {
                    assert(plan_run(m, q, r0) == plan_run(m, q.drop_first(), r0));
                },
                Some(p) => {
                    proof {
                        let p0 = chosen(m, q[0])->Some_0;
                        assert(0 <= p0 < m.len());
                        assert(p0 == p);
                    }
                    if !contains_id(&res, p) {
                        res.push(p);
                        let pd = &self.packages[p].dependencies;
                        let ghost qv0 = qv@;
                        let mut k: usize = 0;
                        while k < pd.len()
                            invariant
                                m == self.model(),
                                p < m.len(),
                                pd == &self.packages@[p as int].dependencies,
                                k <= pd.len(),
                                h <= qv0.len(),
                                qv@.len() == qv0.len() + k,
                                forall|j: int| 0 <= j < qv0.len() ==> #[trigger] qv@[j] == qv0[j],
                                forall|j: int| 0 <= j < k ==> qv@[qv0.len() + j] == &pd@[j],
                            decreases pd.len() - k,
                        {
                            qv.push(&pd[k]);
                            k = k + 1;
                        }
                        proof {
                            assert(ids(res@) =~= r0.push(p as int));
                            assert(queue_model(qv@, h as int) =~= q.drop_first() + m[p as int].deps);
                            assert(clauses_wf(m[p as int].deps, m.len() as int));
                            assert forall|j: int| 0 <= j < ids(res@).len() implies 0 <= #[trigger] ids(res@)[j] < m.len() by {
                                if j < r0.len() {
                                    assert(ids(res@)[j] == r0[j]);
                                }
                            }
                            lemma_distinct_below_len(ids(res@), m.len() as int);
                            assert(!r0.contains(p as int));
                            assert(plan_run(m, q, r0) == plan_run(m, q.drop_first() + m[p as int].deps, r0.push(p as int)));
                        }
                    } else {
                        assert(ids(res@) == r0);
                        assert(plan_run(m, q, r0) == plan_run(m, q.drop_first(), r0));
                    }
                },
            }
        }
        proof {
            assert(queue_model(qv@, h as int).len() == 0);
        }
        res
    }
}

} // verus!
