//! Sequential behavior of the secure resolver against the double.

use safe_open::mockfs::{initialize_mockfs, FileType, AT_FDCWD, O_NOFOLLOW, O_RDONLY, O_RDWR};
use safe_open::path::{parse_path, path_eq};
use safe_open::policy::{Decision, Policy};
use safe_open::resolver::{safe_open, OpenError};

fn protected_policy() -> Policy {
    Policy::new(vec![parse_path("/protected")])
}

#[test]
fn resolves_symlink_to_public_file() {
    let mut fs = initialize_mockfs();
    let policy = protected_policy();
    let r = safe_open(&mut fs, &policy, "/link", O_RDONLY);
    let fd = r.unwrap_or_else(|_| panic!("expected a descriptor"));
    let p = fs.resolve_descriptor_to_absolute_path(fd).unwrap();
    assert!(path_eq(&p, &parse_path("/public")));
}

#[test]
fn denies_protected_path_directly() {
    let mut fs = initialize_mockfs();
    let policy = protected_policy();
    match safe_open(&mut fs, &policy, "/protected", O_RDONLY) {
        Err(OpenError::AccessDenied) => {}
        _ => panic!("expected denial"),
    }
}

#[test]
fn denies_protected_path_for_every_mode() {
    for mode in [O_RDONLY, O_RDWR, O_NOFOLLOW] {
        let mut fs = initialize_mockfs();
        let policy = protected_policy();
        match safe_open(&mut fs, &policy, "/protected", mode) {
            Err(OpenError::AccessDenied) => {}
            _ => panic!("expected denial regardless of mode"),
        }
    }
}

#[test]
fn denies_symlink_whose_target_is_protected() {
    let mut fs = initialize_mockfs();
    let policy = protected_policy();
    assert!(fs.remove("/link"));
    assert!(fs.link("/protected", "/link"));
    match safe_open(&mut fs, &policy, "/link", O_RDONLY) {
        Err(OpenError::AccessDenied) => {}
        _ => panic!("expected denial through the link"),
    }
}

#[test]
fn missing_entry_is_an_open_error() {
    let mut fs = initialize_mockfs();
    let policy = protected_policy();
    match safe_open(&mut fs, &policy, "/absent", O_RDONLY) {
        Err(OpenError::OpenError) => {}
        _ => panic!("expected an open error"),
    }
}

#[test]
fn symlink_chain_fails_closed() {
    // A link to a link is refused by the no-follow open of the second hop.
    let mut fs = initialize_mockfs();
    let policy = protected_policy();
    let _ = fs.create("/indirect", FileType::Symlink(String::from("/link")));
    match safe_open(&mut fs, &policy, "/indirect", O_RDONLY) {
        Err(OpenError::OpenError) => {}
        _ => panic!("expected the chained link to be refused"),
    }
}

#[test]
fn symlink_cycle_terminates_with_open_error() {
    let mut fs = initialize_mockfs();
    let policy = protected_policy();
    let _ = fs.create("/a", FileType::Symlink(String::from("/b")));
    let _ = fs.create("/b", FileType::Symlink(String::from("/a")));
    match safe_open(&mut fs, &policy, "/a", O_RDONLY) {
        Err(OpenError::OpenError) => {}
        _ => panic!("expected the cycle to fail closed"),
    }
}

#[test]
fn symlink_cycle_in_openat_terminates() {
    // The double's own resolution is bounded: a cyclic chain runs out of
    // hops and fails instead of looping.
    let mut fs = initialize_mockfs();
    let _ = fs.create("/a", FileType::Symlink(String::from("/b")));
    let _ = fs.create("/b", FileType::Symlink(String::from("/a")));
    assert!(fs.openat(AT_FDCWD, "/a", O_RDONLY).is_none());
}

#[test]
fn relative_path_resolves_from_current_directory() {
    let mut fs = initialize_mockfs();
    let policy = protected_policy();
    let _ = fs.create("/d/x", FileType::Regular(String::from("x content")));
    fs.set_current_dir("/d");
    let fd = safe_open(&mut fs, &policy, "x", O_RDONLY).unwrap_or_else(|_| panic!("expected ok"));
    let p = fs.resolve_descriptor_to_absolute_path(fd).unwrap();
    assert!(path_eq(&p, &parse_path("/d/x")));
}

#[test]
fn absolute_symlink_target_restarts_from_root() {
    // The link sits deep in the tree; its absolute target must be resolved
    // from the root, ignoring the consumed prefix.
    let mut fs = initialize_mockfs();
    let policy = protected_policy();
    let _ = fs.create("/d/jump", FileType::Symlink(String::from("/public")));
    let fd = safe_open(&mut fs, &policy, "/d/jump", O_RDONLY)
        .unwrap_or_else(|_| panic!("expected ok"));
    let p = fs.resolve_descriptor_to_absolute_path(fd).unwrap();
    assert!(path_eq(&p, &parse_path("/public")));
}

#[test]
fn policy_is_idempotent_on_a_path() {
    let policy = protected_policy();
    let p = parse_path("/protected");
    let q = parse_path("/public");
    let d1 = policy.decide(&p);
    let d2 = policy.decide(&p);
    assert_eq!(d1, d2);
    assert_eq!(d1, Decision::Deny);
    let d3 = policy.decide(&q);
    let d4 = policy.decide(&q);
    assert_eq!(d3, d4);
    assert_eq!(d3, Decision::Allow);
}

#[test]
fn empty_policy_allows_everything() {
    let policy = Policy::new(vec![]);
    let mut fs = initialize_mockfs();
    assert!(safe_open(&mut fs, &policy, "/protected", O_RDONLY).is_ok());
}

#[test]
fn dot_components_resolve_through_safe_open() {
    let mut fs = initialize_mockfs();
    let policy = protected_policy();
    let fd = safe_open(&mut fs, &policy, "/./link", O_RDONLY)
        .unwrap_or_else(|_| panic!("expected ok"));
    let p = fs.resolve_descriptor_to_absolute_path(fd).unwrap();
    assert!(path_eq(&p, &parse_path("/public")));
}

#[test]
fn failed_resolution_releases_its_descriptors() {
    // Descriptor numbers start at 3; the failed call's anchor and hops are
    // all released, so nothing it opened still resolves.
    let mut fs = initialize_mockfs();
    let policy = protected_policy();
    match safe_open(&mut fs, &policy, "/absent", O_RDONLY) {
        Err(OpenError::OpenError) => {}
        _ => panic!("expected an open error"),
    }
    assert!(fs.resolve_descriptor_to_absolute_path(3).is_none());
    assert!(fs.resolve_descriptor_to_absolute_path(4).is_none());
}

#[test]
fn denied_resolution_releases_its_descriptors() {
    let mut fs = initialize_mockfs();
    let policy = protected_policy();
    match safe_open(&mut fs, &policy, "/protected", O_RDONLY) {
        Err(OpenError::AccessDenied) => {}
        _ => panic!("expected denial"),
    }
    assert!(fs.resolve_descriptor_to_absolute_path(3).is_none());
    assert!(fs.resolve_descriptor_to_absolute_path(4).is_none());
}

#[test]
fn success_transfers_exactly_one_descriptor() {
    let mut fs = initialize_mockfs();
    let policy = protected_policy();
    let fd = safe_open(&mut fs, &policy, "/link", O_RDONLY)
        .unwrap_or_else(|_| panic!("expected ok"));
    let mut g = 3;
    while g < fd {
        assert!(fs.resolve_descriptor_to_absolute_path(g).is_none());
        g += 1;
    }
    let p = fs.resolve_descriptor_to_absolute_path(fd).unwrap();
    assert!(path_eq(&p, &parse_path("/public")));
}
