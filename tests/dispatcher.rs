use rpkg::debversion::DebianVersionNum;
use rpkg::packages::async_fns::{Response, VerifyOutcome};
use rpkg::packages::{PackageError, Packages};

fn registry() -> Packages {
    let mut reg = Packages::new();
    let a = reg.get_package_num_inserting("a");
    let b = reg.get_package_num_inserting("b");
    reg.set_available_debver(a, DebianVersionNum::parse("1:1.0-2").unwrap()).unwrap();
    reg.set_md5sum(a, "abc".to_string()).unwrap();
    reg.set_available_debver(b, DebianVersionNum::parse("2.0").unwrap()).unwrap();
    reg.set_md5sum(b, "def".to_string()).unwrap();
    reg
}

#[test]
fn outcomes_follow_enqueue_order() {
    let mut reg = registry();
    reg.enq_verify("a").unwrap();
    reg.enq_verify_with_version("b", "2.0");
    let urls: Vec<String> = reg.pending_requests().iter().map(|r| r.url.clone()).collect();
    assert_eq!(
        urls,
        vec![
            "http://ece459.patricklam.ca:4590/rest/v1/checksums/a/1:1.0-2",
            "http://ece459.patricklam.ca:4590/rest/v1/checksums/b/2.0",
        ]
    );
    let out = reg.execute(vec![
        Response::Http { code: 200, body: "abc".to_string() },
        Response::Http { code: 404, body: String::new() },
    ]);
    assert_eq!(out.len(), 2);
    assert!(matches!(&out[0], VerifyOutcome::Verified { package_name, matches: true, .. } if package_name == "a"));
    assert!(matches!(&out[1], VerifyOutcome::HttpError { package_name, code: 404, .. } if package_name == "b"));
    assert!(reg.pending_requests().is_empty());
}

#[test]
fn mismatch_and_transport_error() {
    let mut reg = registry();
    reg.enq_verify("b").unwrap();
    reg.enq_verify("b").unwrap();
    reg.enq_verify("a").unwrap();
    let out = reg.execute(vec![
        Response::Http { code: 204, body: "xyz".to_string() },
        Response::Transport { message: "refused".to_string() },
        Response::Http { code: 200, body: "abc".to_string() },
    ]);
    assert!(matches!(&out[0], VerifyOutcome::Verified { matches: false, .. }));
    assert!(matches!(&out[1], VerifyOutcome::TransportError { message, .. } if message == "refused"));
    assert!(matches!(&out[2], VerifyOutcome::Verified { matches: true, .. }));
}

#[test]
fn server_change_applies_to_later_requests() {
    let mut reg = registry();
    reg.enq_verify_with_version("a", "1.0");
    reg.set_server("localhost:8000");
    reg.enq_verify_with_version("a", "1.0");
    let q = reg.pending_requests();
    assert_eq!(q[0].url, "http://ece459.patricklam.ca:4590/rest/v1/checksums/a/1.0");
    assert_eq!(q[1].url, "http://localhost:8000/rest/v1/checksums/a/1.0");
    assert_eq!(q[1].package_name, "a");
    assert_eq!(q[1].version, "1.0");
}

#[test]
fn enqueue_latest_reports_missing() {
    let mut reg = registry();
    assert_eq!(reg.enq_verify("nope"), Err(PackageError::NotFound));
    reg.get_package_num_inserting("c");
    assert_eq!(reg.enq_verify("c"), Err(PackageError::NoVersion));
    assert!(reg.pending_requests().is_empty());
    assert!(reg.execute(vec![]).is_empty());
}
