use rpkg::debversion::{DebianVersionNum, VersionRelation};
use rpkg::packages::{Dependency, PackageError, Packages, RelVersionedPackageNum};

fn v(s: &str) -> DebianVersionNum {
    DebianVersionNum::parse(s).unwrap()
}

fn alt(p: usize) -> RelVersionedPackageNum {
    RelVersionedPackageNum { package_num: p, rel_version: None }
}

fn alt_rel(p: usize, op: &str, ver: &str) -> RelVersionedPackageNum {
    RelVersionedPackageNum {
        package_num: p,
        rel_version: Some((VersionRelation::parse(op).unwrap(), v(ver))),
    }
}

fn names(reg: &Packages, ids: &[usize]) -> Vec<String> {
    ids.iter().map(|i| reg.get_package_name(*i).to_string()).collect()
}

#[test]
fn ids_are_dense_and_stable() {
    let mut reg = Packages::new();
    assert_eq!(reg.get_package_num_inserting("a"), 0);
    assert_eq!(reg.get_package_num_inserting("b"), 1);
    assert_eq!(reg.get_package_num_inserting("a"), 0);
    assert_eq!(reg.get_package_num("b"), Ok(1));
    assert_eq!(reg.get_package_num("c"), Err(PackageError::NotFound));
    assert!(reg.package_exists("a"));
    assert!(!reg.package_exists("c"));
    assert_eq!(reg.get_package_names(), vec!["a", "b"]);
    assert_eq!(reg.get_package_name(1), "b");
}

#[test]
fn accessors_report_absent_and_unknown() {
    let mut reg = Packages::new();
    let a = reg.get_package_num_inserting("a");
    assert!(matches!(reg.get_available_debver("a"), Ok(None)));
    assert!(matches!(reg.get_installed_debver("a"), Ok(None)));
    assert!(matches!(reg.get_md5sum("a"), Ok(None)));
    assert!(matches!(reg.get_available_debver("zz"), Err(PackageError::NotFound)));
    assert!(matches!(reg.get_md5sum("zz"), Err(PackageError::NotFound)));
    assert!(matches!(reg.get_dependencies("zz"), Err(PackageError::NotFound)));
    reg.set_available_debver(a, v("1.0")).unwrap();
    reg.set_available_debver(a, v("2.0")).unwrap();
    reg.set_installed_debver(a, v("1.5")).unwrap();
    reg.set_md5sum(a, "abc".to_string()).unwrap();
    assert_eq!(reg.get_available_debver("a").unwrap().unwrap().to_string(), "2.0");
    assert_eq!(reg.get_installed_debver("a").unwrap().unwrap().to_string(), "1.5");
    assert_eq!(reg.get_md5sum("a"), Ok(Some("abc")));
    assert_eq!(reg.set_available_debver(7, v("1.0")), Err(PackageError::NotFound));
}

#[test]
fn malformed_clauses_are_rejected() {
    let mut reg = Packages::new();
    let a = reg.get_package_num_inserting("a");
    let empty: Vec<Dependency> = vec![vec![]];
    assert_eq!(reg.set_dependencies(a, empty), Err(PackageError::MalformedClause));
    assert_eq!(reg.set_dependencies(a, vec![vec![alt(5)]]), Err(PackageError::MalformedClause));
    assert_eq!(reg.set_dependencies(9, vec![vec![alt(0)]]), Err(PackageError::NotFound));
    assert_eq!(reg.set_dependencies(a, vec![vec![alt(0)]]), Ok(()));
    assert_eq!(reg.get_dependencies("a").unwrap().len(), 1);
}

#[test]
fn first_satisfied_alternative_wins() {
    let mut reg = Packages::new();
    let a = reg.get_package_num_inserting("A");
    let b = reg.get_package_num_inserting("B");
    reg.set_installed_debver(b, v("1.0")).unwrap();
    let clause = vec![alt(a), alt(b)];
    assert_eq!(reg.dep_is_satisfied(&clause), Some("B"));
    reg.set_installed_debver(a, v("1.0")).unwrap();
    assert_eq!(reg.dep_is_satisfied(&clause), Some("A"));
}

#[test]
fn constraint_decides_satisfaction() {
    let mut reg = Packages::new();
    let a = reg.get_package_num_inserting("A");
    let b = reg.get_package_num_inserting("B");
    reg.set_installed_debver(a, v("1.0")).unwrap();
    reg.set_installed_debver(b, v("3.0")).unwrap();
    let clause = vec![alt_rel(a, ">=", "2.0"), alt_rel(b, ">>", "2.0")];
    assert_eq!(reg.dep_is_satisfied(&clause), Some("B"));
    let clause = vec![alt_rel(a, ">=", "2.0"), alt_rel(b, "<<", "2.0")];
    assert_eq!(reg.dep_is_satisfied(&clause), None);
    assert_eq!(reg.dep_satisfied_by_wrong_version(&clause), vec!["A", "B"]);
    let clause = vec![alt(a), alt_rel(b, "=", "3.0")];
    assert_eq!(reg.dep_satisfied_by_wrong_version(&clause), Vec::<&str>::new());
}

#[test]
fn closure_follows_first_alternatives() {
    let mut reg = Packages::new();
    let a = reg.get_package_num_inserting("A");
    let b = reg.get_package_num_inserting("B");
    let c = reg.get_package_num_inserting("C");
    let d = reg.get_package_num_inserting("D");
    reg.set_installed_debver(c, v("1.0")).unwrap();
    reg.set_dependencies(a, vec![vec![alt(b), alt(c)]]).unwrap();
    reg.set_dependencies(b, vec![vec![alt(d)]]).unwrap();
    let mut r = names(&reg, &reg.transitive_dep_solution("A"));
    r.sort();
    assert_eq!(r, vec!["B", "D"]);
    assert!(reg.transitive_dep_solution("nope").is_empty());
}

#[test]
fn closure_handles_cycles() {
    let mut reg = Packages::new();
    let a = reg.get_package_num_inserting("A");
    let b = reg.get_package_num_inserting("B");
    reg.set_dependencies(a, vec![vec![alt(b)]]).unwrap();
    reg.set_dependencies(b, vec![vec![alt(a)]]).unwrap();
    let mut r = names(&reg, &reg.transitive_dep_solution("A"));
    r.sort();
    assert_eq!(r, vec!["A", "B"]);
}

#[test]
fn wrong_version_prefers_highest_installed() {
    let mut reg = Packages::new();
    let root = reg.get_package_num_inserting("R");
    let x = reg.get_package_num_inserting("X");
    let y = reg.get_package_num_inserting("Y");
    reg.set_installed_debver(x, v("1.0")).unwrap();
    reg.set_installed_debver(y, v("1.5")).unwrap();
    reg.set_dependencies(root, vec![vec![alt_rel(x, ">=", "2.0"), alt_rel(y, ">=", "2.0")]])
        .unwrap();
    assert_eq!(names(&reg, &reg.compute_how_to_install("R")), vec!["Y"]);
}

#[test]
fn end_to_end_plan() {
    let mut reg = Packages::new();
    let top = reg.get_package_num_inserting("top");
    let lib = reg.get_package_num_inserting("lib");
    let _other = reg.get_package_num_inserting("other");
    reg.set_dependencies(top, vec![vec![alt_rel(lib, ">=", "1.0")]]).unwrap();
    reg.set_installed_debver(lib, v("0.9")).unwrap();
    assert_eq!(reg.compute_how_to_install("top"), vec![lib]);
}

#[test]
fn plan_is_repeatable() {
    let mut reg = Packages::new();
    let a = reg.get_package_num_inserting("A");
    let b = reg.get_package_num_inserting("B");
    let c = reg.get_package_num_inserting("C");
    reg.set_dependencies(a, vec![vec![alt(b)], vec![alt(c)]]).unwrap();
    reg.set_dependencies(b, vec![vec![alt(c)]]).unwrap();
    let first = reg.compute_how_to_install("A");
    let second = reg.compute_how_to_install("A");
    assert_eq!(first, second);
    assert_eq!(first, vec![b, c]);
}

#[test]
fn nothing_installed_prefers_highest_constraint() {
    let mut reg = Packages::new();
    let root = reg.get_package_num_inserting("R");
    let x = reg.get_package_num_inserting("X");
    let y = reg.get_package_num_inserting("Y");
    let z = reg.get_package_num_inserting("Z");
    reg.set_dependencies(
        root,
        vec![vec![alt_rel(x, ">=", "1.0"), alt_rel(y, ">=", "3.0"), alt_rel(z, ">=", "2.0")]],
    )
    .unwrap();
    assert_eq!(reg.compute_how_to_install("R"), vec![y]);
}

#[test]
fn satisfied_clauses_add_nothing() {
    let mut reg = Packages::new();
    let root = reg.get_package_num_inserting("R");
    let x = reg.get_package_num_inserting("X");
    reg.set_installed_debver(x, v("2.0")).unwrap();
    reg.set_dependencies(root, vec![vec![alt_rel(x, ">=", "2.0")]]).unwrap();
    assert!(reg.compute_how_to_install("R").is_empty());
    assert!(reg.compute_how_to_install("unknown").is_empty());
}

#[test]
fn satisfaction_status_per_clause() {
    let mut reg = Packages::new();
    let a = reg.get_package_num_inserting("A");
    let b = reg.get_package_num_inserting("B");
    let c = reg.get_package_num_inserting("C");
    reg.set_installed_debver(b, v("1.0")).unwrap();
    reg.set_dependencies(a, vec![vec![alt(c), alt(b)], vec![alt(c)], vec![alt_rel(b, ">>", "1.0")]])
        .unwrap();
    assert_eq!(reg.deps_available("A"), Ok(vec![Some("B"), None, None]));
    assert_eq!(reg.deps_available("B"), Ok(vec![]));
    assert_eq!(reg.deps_available("Z"), Err(PackageError::NotFound));
}
