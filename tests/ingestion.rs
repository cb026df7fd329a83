use rpkg::packages::parsers::split_key_value;
use rpkg::packages::{PackageError, Packages};

fn load_catalog(reg: &mut Packages, text: &str) {
    let mut current = None;
    for line in text.lines() {
        current = reg.parse_packages_line(current, line).unwrap();
    }
}

fn load_installed(reg: &mut Packages, text: &str) {
    let mut current = None;
    for line in text.lines() {
        current = reg.parse_installed_line(current, line).unwrap();
    }
}

const CATALOG: &str = "Package: app\n\
Version: 1:2.0-1\n\
MD5sum: 0123abcd\n\
Depends: libc6 (>= 2.2), libfoo | libbar (<< 3.0~rc1)\n\
\n\
Package: libc6\n\
Version: 2.31-13\n\
MD5sum: feedbeef\n";

#[test]
fn key_value_lines_split() {
    assert_eq!(
        split_key_value("Package: foo"),
        Some(("Package".to_string(), "foo".to_string()))
    );
    assert_eq!(
        split_key_value("Pre-Depends: a: b"),
        Some(("Pre-Depends".to_string(), "a: b".to_string()))
    );
    assert_eq!(split_key_value("Package:foo"), None);
    assert_eq!(split_key_value("Package: "), None);
    assert_eq!(split_key_value(" Package: foo"), None);
    assert_eq!(split_key_value(""), None);
}

#[test]
fn catalog_stanzas_fill_registry() {
    let mut reg = Packages::new();
    load_catalog(&mut reg, CATALOG);
    assert_eq!(reg.get_package_names(), vec!["app", "libc6", "libfoo", "libbar"]);
    assert_eq!(reg.get_available_debver("app").unwrap().unwrap().to_string(), "1:2.0-1");
    assert_eq!(reg.get_md5sum("app"), Ok(Some("0123abcd")));
    assert_eq!(reg.get_available_debver("libc6").unwrap().unwrap().to_string(), "2.31-13");
    let deps = reg.get_dependencies("app").unwrap();
    assert_eq!(deps.len(), 2);
    assert_eq!(reg.dep2str(&deps[0]), "libc6 (>= 2.2)");
    assert_eq!(reg.dep2str(&deps[1]), "libfoo | libbar (<< 3.0~rc1)");
    assert_eq!(
        reg.deps2str(deps),
        "libc6 (>= 2.2), libfoo | libbar (<< 3.0~rc1)"
    );
    assert_eq!(reg.deps2str(reg.get_dependencies("libc6").unwrap()), "");
}

#[test]
fn installed_list_sets_installed_versions() {
    let mut reg = Packages::new();
    load_catalog(&mut reg, CATALOG);
    load_installed(&mut reg, "Package: libc6\nStatus: install ok installed\nVersion: 2.28-10 \n\nPackage: libbar\nVersion: 2.0\n");
    assert_eq!(reg.get_installed_debver("libc6").unwrap().unwrap().to_string(), "2.28-10");
    assert_eq!(reg.get_installed_debver("libbar").unwrap().unwrap().to_string(), "2.0");
    let deps = reg.get_dependencies("app").unwrap();
    assert_eq!(reg.dep_is_satisfied(&deps[0]), Some("libc6"));
    assert_eq!(reg.dep_is_satisfied(&deps[1]), Some("libbar"));
}

#[test]
fn bad_lines_are_reported() {
    let mut reg = Packages::new();
    let cur = reg.parse_packages_line(None, "Package: a").unwrap();
    assert_eq!(cur, Some(0));
    assert_eq!(reg.parse_packages_line(cur, "Version: x:1"), Err(PackageError::MalformedVersion));
    assert_eq!(reg.parse_packages_line(cur, "Depends: b (=> 1.0)"), Err(PackageError::MalformedClause));
    assert_eq!(reg.parse_packages_line(cur, "Depends: b (>= )"), Err(PackageError::MalformedClause));
    assert_eq!(reg.parse_packages_line(cur, "Depends: (>= 1.0)"), Err(PackageError::MalformedClause));
    assert_eq!(reg.parse_packages_line(cur, "Depends: b,"), Err(PackageError::MalformedClause));
    assert_eq!(reg.parse_packages_line(Some(9), "Version: 1.0"), Err(PackageError::NotFound));
    assert_eq!(reg.parse_packages_line(None, "Version: 1.0"), Ok(None));
    assert_eq!(reg.parse_packages_line(cur, "Description: x"), Ok(cur));
    assert_eq!(reg.parse_packages_line(cur, "not a field"), Ok(cur));
}

#[test]
fn constraint_without_closing_parenthesis_is_ignored() {
    let mut reg = Packages::new();
    let cur = reg.parse_packages_line(None, "Package: a").unwrap();
    reg.parse_packages_line(cur, "Depends: b (>= 1.0").unwrap();
    let deps = reg.get_dependencies("a").unwrap();
    assert_eq!(reg.dep2str(&deps[0]), "b");
    reg.parse_packages_line(cur, "Depends: c (~> 1.0)").unwrap();
    let deps = reg.get_dependencies("a").unwrap();
    assert_eq!(reg.dep2str(&deps[0]), "c");
}

#[test]
fn csv_rows_and_checksum_list() {
    let mut reg = Packages::new();
    assert_eq!(reg.add_csv_row("b", "1.0", "bbb"), Ok(0));
    assert_eq!(reg.add_csv_row("a", "2:3.0-1", "aaa"), Ok(1));
    assert_eq!(reg.add_csv_row("c", "", "ccc"), Err(PackageError::MalformedVersion));
    reg.get_package_num_inserting("d");
    assert_eq!(reg.add_csv_row("b", "1.1", "bbc"), Ok(0));
    assert_eq!(
        reg.output_md5s(),
        "name,version,hash\nb,1.1,bbc\na,2:3.0-1,aaa\n"
    );
    assert_eq!(Packages::new().output_md5s(), "name,version,hash\n");
}

#[test]
fn whitespace_around_alternatives_is_trimmed() {
    let mut reg = Packages::new();
    let cur = reg.parse_packages_line(None, "Package: a").unwrap();
    reg.parse_packages_line(cur, "Depends:  b  |\tc (= 1.0) ,d").unwrap();
    let deps = reg.get_dependencies("a").unwrap();
    assert_eq!(reg.deps2str(deps), "b | c (= 1.0), d");
}
