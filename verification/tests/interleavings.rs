//! Exhaustive interleaving exploration: the resolver against a concurrent
//! mutator, one schedule per possible placement of the mutator's atomic
//! steps among the resolver's capability calls.

use safe_open::harness::{Mutator, MutatorAction};
use safe_open::mockfs::{initialize_mockfs, FileType, O_RDONLY};
use safe_open::path::{parse_path, path_eq};
use safe_open::policy::Policy;
use safe_open::resolver::safe_open_with_mutator;

const SCHEDULE_BOUND: usize = 10;

fn protected_policy() -> Policy {
    Policy::new(vec![parse_path("/protected")])
}

/// The mutator of the scenario: unlink a name, then relink the same name to
/// point at the protected resource.
fn swap_to_protected(name: &str) -> Vec<MutatorAction> {
    vec![
        MutatorAction::Remove(String::from(name)),
        MutatorAction::Link(String::from("/protected"), String::from(name)),
    ]
}

#[test]
fn test_safe_open() {
    // The resolver races a mutator that swaps the opened file itself for a
    // link to the protected resource.  For every interleaving, a successful
    // open must be bound to the original public file, never to the
    // protected one.
    let protected = parse_path("/protected");
    let public = parse_path("/public");
    for s1 in 0..SCHEDULE_BOUND {
        for s2 in s1..SCHEDULE_BOUND {
            let mut fs = initialize_mockfs();
            let policy = protected_policy();
            let mut intr = Mutator::new(swap_to_protected("/public"), vec![s1, s2]);
            let r = safe_open_with_mutator(&mut fs, &policy, "/public", O_RDONLY, &mut intr);
            if let Ok(fd) = r {
                let p = fs.resolve_descriptor_to_absolute_path(fd).unwrap();
                assert!(!path_eq(&p, &protected));
                assert!(path_eq(&p, &public));
            }
        }
    }
}

#[test]
fn swapping_the_link_target_never_yields_protected() {
    // The scenario tree: /protected (regular, protected), /link (symlink to
    // /public), /public (regular).  The mutator swaps /link to point at
    // /protected between the resolver's steps.  Every interleaving must end
    // in denial, an open error, or a descriptor bound to an allowed object.
    let protected = parse_path("/protected");
    for s1 in 0..SCHEDULE_BOUND {
        for s2 in s1..SCHEDULE_BOUND {
            let mut fs = initialize_mockfs();
            let policy = protected_policy();
            let mut intr = Mutator::new(swap_to_protected("/link"), vec![s1, s2]);
            let r = safe_open_with_mutator(&mut fs, &policy, "/link", O_RDONLY, &mut intr);
            if let Ok(fd) = r {
                let p = fs.resolve_descriptor_to_absolute_path(fd).unwrap();
                assert!(!path_eq(&p, &protected));
            }
        }
    }
}

#[test]
fn unmutated_run_still_succeeds() {
    // A schedule that never fires leaves the sequential outcome intact.
    let mut fs = initialize_mockfs();
    let policy = protected_policy();
    let mut intr = Mutator::new(vec![], vec![]);
    let r = safe_open_with_mutator(&mut fs, &policy, "/link", O_RDONLY, &mut intr);
    let fd = r.unwrap_or_else(|_| panic!("expected a descriptor"));
    let p = fs.resolve_descriptor_to_absolute_path(fd).unwrap();
    assert!(path_eq(&p, &parse_path("/public")));
}

#[test]
fn test_unsafe_open() {
    // The pattern the resolver exists to replace: read the link, check the
    // target text, then open by that text, letting the open follow links.
    // Some interleaving of the same mutator drives it onto the protected
    // resource — the race is real, and the check below finds a schedule
    // that loses it.
    let protected = parse_path("/protected");
    let mut raced = false;
    for s1 in 0..SCHEDULE_BOUND {
        for s2 in s1..SCHEDULE_BOUND {
            let mut fs = initialize_mockfs();
            let mut intr = Mutator::new(swap_to_protected("/public"), vec![s1, s2]);
            intr.apply(&mut fs);
            let target = match fs.read_link("/link") {
                Some(t) => t,
                None => String::from("/link"),
            };
            if target != "/protected" {
                intr.apply(&mut fs);
                if let Some(fd) = fs.open(target.as_str(), O_RDONLY) {
                    let p = fs.resolve_descriptor_to_absolute_path(fd).unwrap();
                    if path_eq(&p, &protected) {
                        raced = true;
                    }
                }
            }
        }
    }
    assert!(raced);
}

#[test]
fn recreating_the_name_as_a_fresh_file_never_yields_protected() {
    // A mutator that removes the public file and puts a fresh regular file
    // under the same name: the resolver may open either object or fail, but
    // never the protected one.
    let protected = parse_path("/protected");
    for s1 in 0..SCHEDULE_BOUND {
        for s2 in s1..SCHEDULE_BOUND {
            let mut fs = initialize_mockfs();
            let policy = protected_policy();
            let actions = vec![
                MutatorAction::Remove(String::from("/public")),
                MutatorAction::Create(
                    String::from("/public"),
                    FileType::Regular(String::from("fresh content")),
                ),
            ];
            let mut intr = Mutator::new(actions, vec![s1, s2]);
            let r = safe_open_with_mutator(&mut fs, &policy, "/link", O_RDONLY, &mut intr);
            if let Ok(fd) = r {
                let p = fs.resolve_descriptor_to_absolute_path(fd).unwrap();
                assert!(!path_eq(&p, &protected));
            }
        }
    }
}
