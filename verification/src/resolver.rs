//! The secure path resolver.
//!
//! `safe_open` walks a textual path one component at a time.  For each
//! component it re-reads the symbolic link through the currently trusted
//! directory descriptor, computes the hop's fully resolved absolute location
//! from the descriptor's own binding — never from path text assembled
//! earlier — re-evaluates the policy on it, and then opens each name of the
//! hop relative to the descriptor with symlink-following disabled.  An entry
//! swapped for a symbolic link between the check and the open therefore
//! fails the open instead of being silently followed.
//!
//! Descriptors are owned for exactly one traversal frame: every open that
//! advances the walk supersedes the previous descriptor, which is released
//! at once, and on any denial or failure the last live descriptor is
//! released before returning — on success exactly one descriptor, the
//! result, transfers to the caller.
//!
//! `safe_open_with_mutator` is the same algorithm with an explicit
//! interleaving point before every capability call, at which a scheduled
//! attacker mutates the shared tree.  Its contract holds for every attacker
//! and every schedule: a returned descriptor is always bound to a
//! policy-allowed path.

use crate::harness::Mutator;
use crate::mockfs::{
    follow_spec, spec_absolute_of, walk_spec, FileTypeView, MockFs, O_NOFOLLOW, O_RDONLY,
    MAX_SYMLINK_HOPS,
};
use crate::path::{
    clone_path, is_abs_chars, is_absolute, parse_path, path_concat_from, split_path,
};
use crate::policy::{Decision, Policy};
use crate::store::assoc_lookup;
use vstd::prelude::*;

verus! {

/// Why a resolution failed.
#[derive(Debug, PartialEq, Eq, Structural, Clone, Copy)]
pub enum OpenError {
    /// The policy rejected a resolved location met during traversal.
    AccessDenied,
    /// A capability call failed: a missing entry, a refused symbolic link,
    /// or descriptor exhaustion.
    OpenError,
}

/// The outcome of processing one component.
#[derive(Debug, PartialEq, Eq, Structural, Clone, Copy)]
pub enum HopResult {
    /// The descriptor advanced to the component's resolved location.
    Advanced,
    /// The policy rejected the component's resolved location.
    Denied,
    /// A capability call failed.
    Failed,
}

/// The outcome of one hop, in the mirror of the algorithm: denial, failure,
/// or the new location together with the new descriptor-allocation cursor.
pub enum HopOutcome {
    Denied,
    Failed,
    Advanced(Seq<Seq<char>>, int),
}

/// The outcome of a whole resolution in the mirror: denial, failure, or the
/// final location together with the final descriptor-allocation cursor.
pub enum OpenOutcome {
    Denied,
    Failed,
    Opened(Seq<Seq<char>>, int),
}

/// Opening each name of `sub` in turn under `base` with no-follow: each must
/// name an entry that is not a symbolic link, and each open binds one fresh
/// descriptor.  Yields the final location and cursor.
pub open spec fn chain_spec(
    t: Seq<(Seq<Seq<char>>, FileTypeView)>,
    base: Seq<Seq<char>>,
    sub: Seq<Seq<char>>,
    nfd: int,
) -> Option<(Seq<Seq<char>>, int)>
    decreases sub.len(),
{
    if sub.len() == 0 {
        Some((base, nfd))
    } else {
        match assoc_lookup(t, base.push(sub[0])) {
            Some(ft) => if ft is Symlink {
                None
            } else if nfd == i32::MAX {
                None
            } else {
                chain_spec(t, base.push(sub[0]), sub.drop_first(), nfd + 1)
            },
            None => None,
        }
    }
}

/// One hop of the resolver from the location `cur`: read the entry named
/// `comp` as a symbolic link, compute the hop's fully resolved absolute
/// location, evaluate the policy on it, re-anchor at the root when the
/// target is absolute, and open the target's names one at a time with
/// no-follow.
pub open spec fn hop_spec(
    t: Seq<(Seq<Seq<char>>, FileTypeView)>,
    pol: Policy,
    cur: Seq<Seq<char>>,
    comp: Seq<char>,
    nfd: int,
) -> HopOutcome {
    let pair = match assoc_lookup(t, cur.push(comp)) {
        Some(FileTypeView::Symlink(tg)) => (split_path(tg), is_abs_chars(tg)),
        _ => (seq![comp], false),
    };
    let tc = pair.0;
    let abs = pair.1;
    let full = if abs {
        tc
    } else {
        cur + tc
    };
    if pol.decision(full) is Deny {
        HopOutcome::Denied
    } else if abs {
        if nfd == i32::MAX {
            HopOutcome::Failed
        } else {
            match chain_spec(t, Seq::empty(), tc, nfd + 1) {
                Some(pr) => HopOutcome::Advanced(pr.0, pr.1),
                None => HopOutcome::Failed,
            }
        }
    } else {
        match chain_spec(t, cur, tc, nfd) {
            Some(pr) => HopOutcome::Advanced(pr.0, pr.1),
            None => HopOutcome::Failed,
        }
    }
}

/// The resolver's outer loop over the remaining components.
pub open spec fn resolve_components_spec(
    t: Seq<(Seq<Seq<char>>, FileTypeView)>,
    pol: Policy,
    cur: Seq<Seq<char>>,
    comps: Seq<Seq<char>>,
    nfd: int,
) -> OpenOutcome
    decreases comps.len(),
{
    if comps.len() == 0 {
        OpenOutcome::Opened(cur, nfd)
    } else {
        match hop_spec(t, pol, cur, comps[0], nfd) {
            HopOutcome::Denied => OpenOutcome::Denied,
            HopOutcome::Failed => OpenOutcome::Failed,
            HopOutcome::Advanced(p, n) => resolve_components_spec(
                t,
                pol,
                p,
                comps.drop_first(),
                n,
            ),
        }
    }
}

/// Opening the traversal anchor: the root for an absolute path, the current
/// directory otherwise, binding one fresh descriptor to the resolved anchor.
pub open spec fn anchor_spec(
    t: Seq<(Seq<Seq<char>>, FileTypeView)>,
    cwd: Seq<Seq<char>>,
    abs: bool,
    nofollow: bool,
    nfd: int,
) -> Option<(Seq<Seq<char>>, int)> {
    let comps = if abs {
        Seq::empty()
    } else {
        cwd
    };
    match follow_spec(t, comps, nofollow, MAX_SYMLINK_HOPS as nat) {
        Some(pair) => if nfd == i32::MAX {
            None
        } else {
            Some((pair.1, nfd + 1))
        },
        None => None,
    }
}

/// The whole resolution: open the anchor, evaluate the policy on its
/// resolved location, then process each component of the path in order.
pub open spec fn spec_safe_open(
    t: Seq<(Seq<Seq<char>>, FileTypeView)>,
    cwd: Seq<Seq<char>>,
    nfd: int,
    pol: Policy,
    path: Seq<char>,
    mode: i32,
) -> OpenOutcome {
    match anchor_spec(t, cwd, is_abs_chars(path), mode == O_NOFOLLOW, nfd) {
        None => OpenOutcome::Failed,
        Some(pr) => if pol.decision(pr.0) is Deny {
            OpenOutcome::Denied
        } else {
            resolve_components_spec(t, pol, pr.0, split_path(path), pr.1)
        },
    }
}

/// Processes one component against the current descriptor, with an
/// interleaving point before every capability call.  Whatever the mutator
/// does, an advance leaves the descriptor bound to a location the policy
/// allowed after the hop's symbolic link was read; with an inert mutator the
/// outcome is exactly `hop_spec`.
pub fn process_component(
    fs: &mut MockFs,
    policy: &Policy,
    component: &String,
    fd: &mut i32,
    intr: &mut Mutator,
) -> (r: HopResult)
    requires
        old(fs).wf(),
        assoc_lookup(old(fs).table(), *old(fd)) is Some,
    ensures
        final(fs).wf(),
        final(fs).cwd_spec() == old(fs).cwd_spec(),
        final(fs).fd_limit() >= old(fs).fd_limit(),
        // On denial or failure every descriptor the hop held or opened is
        // released: the table is as at the call, minus the input descriptor.
        (r == HopResult::Denied || r == HopResult::Failed) ==> forall|g: i32| #[trigger]
            assoc_lookup(final(fs).table(), g) == (if g == *old(fd) {
                None::<Seq<Seq<char>>>
            } else {
                assoc_lookup(old(fs).table(), g)
            }),
        // Denial happens before any open of the hop: the descriptor argument
        // is left as it was.
        r == HopResult::Denied ==> *final(fd) == *old(fd),
        // On an advance the input descriptor was superseded and released;
        // only the hop's final descriptor is newly bound, to a location the
        // policy allowed after the hop's symbolic link was read.
        r == HopResult::Advanced ==> ({
            &&& match assoc_lookup(final(fs).table(), *final(fd)) {
                Some(p) => policy.allows(p),
                None => false,
            }
            &&& (*final(fd) == *old(fd) || assoc_lookup(old(fs).table(), *final(fd)) is None)
            &&& forall|g: i32|
                g != *final(fd) ==> #[trigger] assoc_lookup(final(fs).table(), g) == (if g
                    == *old(fd) {
                    None::<Seq<Seq<char>>>
                } else {
                    assoc_lookup(old(fs).table(), g)
                })
        }),
        old(intr).is_inert() ==> final(intr).is_inert() && final(fs).tree() == old(fs).tree()
            && ({
            let cur = assoc_lookup(old(fs).table(), *old(fd)).unwrap();
            match hop_spec(old(fs).tree(), *policy, cur, component@, old(fs).fd_limit()) {
                HopOutcome::Denied => r == HopResult::Denied && final(fs).fd_limit() == old(
                    fs,
                ).fd_limit(),
                HopOutcome::Failed => r == HopResult::Failed,
                HopOutcome::Advanced(pth, n) => r == HopResult::Advanced && assoc_lookup(
                    final(fs).table(),
                    *final(fd),
                ) == Some(pth) && final(fs).fd_limit() == n,
            }
        }),
{
    let ghost t0 = fs.tree();
    let ghost nfd0 = fs.fd_limit();
    let ghost fd0 = *fd;
    let ghost tab0 = fs.table();
    let ghost cur0 = assoc_lookup(fs.table(), *fd).unwrap();
    let ghost inert = intr.is_inert();
    intr.apply(fs);
    // Read the component as a symbolic link through the current descriptor.
    let target_opt = fs.read_symlink_relative(*fd, component);
    // The descriptor's own resolved location, for the policy evaluation.
    let cur = match fs.resolve_descriptor_to_absolute_path(*fd) {
        Some(c) => c,
        None => {
            let _ = fs.close(*fd);
            return HopResult::Failed;
        },
    };
    let (target_comps, target_abs): (Vec<String>, bool) = match &target_opt {
        Some(tg) => (parse_path(tg.as_str()), is_absolute(tg.as_str())),
        None => {
            let mut v: Vec<String> = Vec::new();
            v.push(component.clone());
            proof {
                assert(v.deep_view() =~= seq![component@]);
            }
            (v, false)
        },
    };
    // The hop's fully resolved absolute location.
    let full = if target_abs {
        clone_path(&target_comps)
    } else {
        let f = path_concat_from(&cur, &target_comps, 0);
        proof {
            assert(target_comps.deep_view().skip(0) =~= target_comps.deep_view());
        }
        f
    };
    let ghost full_dv = full.deep_view();
    let ghost spec_pair: (Seq<Seq<char>>, bool) = match assoc_lookup(
        t0,
        cur0.push(component@),
    ) {
        Some(FileTypeView::Symlink(tg)) => (split_path(tg), is_abs_chars(tg)),
        _ => (seq![component@], false),
    };
    proof {
        if inert {
            assert(fs.tree() == t0);
            assert(assoc_lookup(fs.table(), *fd) == Some(cur0));
            assert(cur.deep_view() == cur0);
            if target_opt is Some {
                assert(assoc_lookup(t0, cur0.push(component@)) == Some(
                    FileTypeView::Symlink(target_opt.unwrap()@),
                ));
            }
            assert(target_comps.deep_view() == spec_pair.0);
            assert(target_abs == spec_pair.1);
            assert(full_dv == if spec_pair.1 {
                spec_pair.0
            } else {
                cur0 + spec_pair.0
            });
        }
    }
    // Policy, re-evaluated at this hop on the location just computed.
    match policy.decide(&full) {
        Decision::Deny => {
            // The hop is denied before any open: release the superseded
            // descriptor and leave the cursor untouched.
            let _ = fs.close(*fd);
            proof {
                if inert {
                    assert(hop_spec(t0, *policy, cur0, component@, nfd0)
                        == HopOutcome::Denied);
                    assert(fs.fd_limit() == old(fs).fd_limit());
                }
            }
            return HopResult::Denied;
        },
        Decision::Allow => {},
    }
    let ghost base_len: int = if target_abs {
        0
    } else {
        cur.deep_view().len() as int
    };
    // An absolute target restarts from a freshly opened root.
    if target_abs {
        intr.apply(fs);
        let ghost t_call = fs.tree();
        let ghost cwd_call = fs.cwd_spec();
        let ghost nfd_call = fs.fd_limit();
        proof {
            reveal_strlit("/");
            assert(is_abs_chars("/"@));
            assert(split_path("/"@) =~= Seq::<Seq<char>>::empty()) by {
                reveal_with_fuel(crate::path::split_rec, 3);
                assert("/"@.drop_first() =~= Seq::<char>::empty());
            }
            assert(spec_absolute_of(cwd_call, "/"@) == Seq::<Seq<char>>::empty());
            assert(walk_spec(t_call, Seq::empty(), Seq::<Seq<char>>::empty(),
                MAX_SYMLINK_HOPS as nat) == Some(
                (FileTypeView::Directory, Seq::<Seq<char>>::empty()),
            ));
            assert(follow_spec(t_call, Seq::<Seq<char>>::empty(), false,
                MAX_SYMLINK_HOPS as nat) == Some(
                (FileTypeView::Directory, Seq::<Seq<char>>::empty()),
            ));
        }
        let root_fd = match fs.open("/", O_RDONLY) {
            Some(f) => f,
            None => {
                let _ = fs.close(*fd);
                proof {
                    if inert {
                        assert(nfd_call == nfd0);
                        assert(hop_spec(t0, *policy, cur0, component@, nfd0)
                            == HopOutcome::Failed);
                    }
                }
                return HopResult::Failed;
            },
        };
        let prev = *fd;
        *fd = root_fd;
        let _ = fs.close(prev);
        proof {
            assert(root_fd != prev);
            assert(assoc_lookup(fs.table(), *fd) == Some(Seq::<Seq<char>>::empty()));
        }
    }
    proof {
        if target_abs {
            assert(full_dv.take(0) =~= Seq::<Seq<char>>::empty());
            assert(full_dv.skip(0) =~= full_dv);
            assert(target_comps.deep_view() == full_dv);
        } else {
            assert(full_dv.take(base_len) =~= cur.deep_view());
            assert(full_dv.skip(base_len) =~= target_comps.deep_view());
            assert(assoc_lookup(fs.table(), *fd) == Some(full_dv.take(base_len)));
        }
        if inert {
            assert(target_comps.deep_view().skip(0) =~= target_comps.deep_view());
            if target_abs {
                assert(fs.fd_limit() == nfd0 + 1);
                assert(nfd0 < i32::MAX);
                assert(hop_spec(t0, *policy, cur0, component@, nfd0) == (
                match chain_spec(t0, Seq::empty(), spec_pair.0, nfd0 + 1) {
                    Some(pr) => HopOutcome::Advanced(pr.0, pr.1),
                    None => HopOutcome::Failed,
                }));
                assert(full_dv.take(0) == Seq::<Seq<char>>::empty());
            } else {
                assert(fs.fd_limit() == nfd0);
                assert(hop_spec(t0, *policy, cur0, component@, nfd0) == (
                match chain_spec(t0, cur0, spec_pair.0, nfd0) {
                    Some(pr) => HopOutcome::Advanced(pr.0, pr.1),
                    None => HopOutcome::Failed,
                }));
                assert(full_dv.take(base_len) == cur0);
            }
        }
    }
    // Open the target's names one at a time, never following a symbolic
    // link: the no-dereference-after-check defense.
    let mut i: usize = 0;
    while i < target_comps.len()
        invariant
            fs.wf(),
            inert == old(intr).is_inert(),
            t0 == old(fs).tree(),
            nfd0 == old(fs).fd_limit(),
            fd0 == *old(fd),
            tab0 == old(fs).table(),
            assoc_lookup(old(fs).table(), *old(fd)) is Some,
            cur0 == assoc_lookup(old(fs).table(), *old(fd)).unwrap(),
            *fd == fd0 || assoc_lookup(tab0, *fd) is None,
            forall|g: i32|
                g != *fd ==> #[trigger] assoc_lookup(fs.table(), g) == (if g == fd0 {
                    None::<Seq<Seq<char>>>
                } else {
                    assoc_lookup(tab0, g)
                }),
            policy.allows(full_dv),
            i <= target_comps.len(),
            target_comps.len() == target_comps.deep_view().len(),
            full_dv.len() == base_len + target_comps.deep_view().len(),
            0 <= base_len,
            target_comps.deep_view() == full_dv.skip(base_len),
            assoc_lookup(fs.table(), *fd) == Some(full_dv.take(base_len + i)),
            fs.cwd_spec() == old(fs).cwd_spec(),
            fs.fd_limit() >= old(fs).fd_limit(),
            inert ==> intr.is_inert() && fs.tree() == t0 && hop_spec(
                t0,
                *policy,
                cur0,
                component@,
                nfd0,
            ) == (match chain_spec(
                t0,
                full_dv.take(base_len + i),
                target_comps.deep_view().skip(i as int),
                fs.fd_limit(),
            ) {
                Some(pr) => HopOutcome::Advanced(pr.0, pr.1),
                None => HopOutcome::Failed,
            }),
        decreases target_comps.len() - i,
    {
        intr.apply(fs);
        let ghost pre_path = full_dv.take(base_len + i);
        proof {
            assert(0 <= base_len + i < full_dv.len());
            assert(full_dv.skip(base_len)[i as int] == full_dv[base_len + i]);
            assert(target_comps.deep_view().skip(i as int)[0] == target_comps.deep_view()[
                i as int
            ]);
            assert(pre_path.push(target_comps.deep_view()[i as int]) =~= full_dv.take(
                base_len + i + 1,
            ));
            assert(target_comps@[i as int]@ == target_comps.deep_view()[i as int]);
        }
        let nf = match fs.open_relative_no_follow(*fd, &target_comps[i], O_NOFOLLOW) {
            Some(f) => f,
            None => {
                let _ = fs.close(*fd);
                proof {
                    if inert {
                        assert(hop_spec(t0, *policy, cur0, component@, nfd0)
                            == HopOutcome::Failed);
                    }
                }
                return HopResult::Failed;
            },
        };
        let prev = *fd;
        *fd = nf;
        let _ = fs.close(prev);
        proof {
            assert(nf != prev);
            assert(target_comps.deep_view().skip(i as int).drop_first()
                =~= target_comps.deep_view().skip(i as int + 1));
        }
        i += 1;
    }
    proof {
        assert(full_dv.take(base_len + target_comps.deep_view().len()) =~= full_dv);
        if inert {
            assert(target_comps.deep_view().skip(target_comps.deep_view().len() as int)
                =~= Seq::<Seq<char>>::empty());
            assert(hop_spec(t0, *policy, cur0, component@, nfd0) == HopOutcome::Advanced(
                full_dv,
                fs.fd_limit(),
            ));
        }
    }
    HopResult::Advanced
}

/// Resolves `pathname` and opens its target, with an interleaving point
/// before every capability call at which `intr` mutates the shared tree.
/// For every mutator and every schedule, a returned descriptor is bound to a
/// location the policy allowed after the last symbolic-link read on its
/// hop — never silently to a protected object.  With an inert mutator the
/// outcome is exactly `spec_safe_open`.
pub fn safe_open_with_mutator(
    fs: &mut MockFs,
    policy: &Policy,
    pathname: &str,
    mode: i32,
    intr: &mut Mutator,
) -> (r: Result<i32, OpenError>)
    requires
        old(fs).wf(),
    ensures
        final(fs).wf(),
        final(fs).cwd_spec() == old(fs).cwd_spec(),
        // On success exactly one descriptor — the returned one, freshly
        // bound to a policy-allowed location — transfers to the caller; on
        // failure every descriptor the call opened has been released, so
        // the table resolves as it did before the call.
        match r {
            Ok(fd) => ({
                &&& match assoc_lookup(final(fs).table(), fd) {
                    Some(p) => policy.allows(p),
                    None => false,
                }
                &&& assoc_lookup(old(fs).table(), fd) is None
                &&& forall|g: i32|
                    g != fd ==> #[trigger] assoc_lookup(final(fs).table(), g) == assoc_lookup(
                        old(fs).table(),
                        g,
                    )
            }),
            Err(_) => forall|g: i32| #[trigger]
                assoc_lookup(final(fs).table(), g) == assoc_lookup(old(fs).table(), g),
        },
        old(intr).is_inert() ==> final(intr).is_inert() && final(fs).tree() == old(fs).tree()
            && (match spec_safe_open(
            old(fs).tree(),
            old(fs).cwd_spec(),
            old(fs).fd_limit(),
            *policy,
            pathname@,
            mode,
        ) {
            OpenOutcome::Denied => r == Err::<i32, OpenError>(OpenError::AccessDenied),
            OpenOutcome::Failed => r == Err::<i32, OpenError>(OpenError::OpenError),
            OpenOutcome::Opened(p, n) => match r {
                Ok(fd) => assoc_lookup(final(fs).table(), fd) == Some(p) && final(fs).fd_limit() == n,
                Err(_) => false,
            },
        }),
{
    let ghost t0 = fs.tree();
    let ghost cwd0 = fs.cwd_spec();
    let ghost nfd0 = fs.fd_limit();
    let ghost inert = intr.is_inert();
    let ghost out = spec_safe_open(t0, cwd0, nfd0, *policy, pathname@, mode);
    let abs = is_absolute(pathname);
    intr.apply(fs);
    // Open the traversal anchor: root for an absolute path, the current
    // directory otherwise.
    let anchor = if abs {
        proof {
            reveal_strlit("/");
            assert(is_abs_chars("/"@));
            assert(split_path("/"@) =~= Seq::<Seq<char>>::empty()) by {
                reveal_with_fuel(crate::path::split_rec, 3);
                assert("/"@.drop_first() =~= Seq::<char>::empty());
            }
        }
        fs.open("/", mode)
    } else {
        proof {
            reveal_strlit(".");
            assert(!is_abs_chars("."@));
            assert(split_path("."@) =~= Seq::<Seq<char>>::empty()) by {
                reveal_with_fuel(crate::path::split_rec, 3);
                assert("."@.drop_first() =~= Seq::<char>::empty());
                assert(Seq::<char>::empty().push('.') =~= seq!['.']);
            }
            assert(fs.cwd_spec() + split_path("."@) =~= fs.cwd_spec());
        }
        fs.open(".", mode)
    };
    let mut fd = match anchor {
        Some(f) => f,
        None => {
            return Err(OpenError::OpenError);
        },
    };
    // The anchor is a resolved location too: evaluate the policy on it.
    let cur = match fs.resolve_descriptor_to_absolute_path(fd) {
        Some(c) => c,
        None => {
            let _ = fs.close(fd);
            return Err(OpenError::OpenError);
        },
    };
    match policy.decide(&cur) {
        Decision::Deny => {
            let _ = fs.close(fd);
            return Err(OpenError::AccessDenied);
        },
        Decision::Allow => {},
    }
    let comps = parse_path(pathname);
    proof {
        assert(comps.deep_view().skip(0) =~= comps.deep_view());
    }
    let mut i: usize = 0;
    while i < comps.len()
        invariant
            fs.wf(),
            i <= comps.len(),
            inert == old(intr).is_inert(),
            t0 == old(fs).tree(),
            cwd0 == old(fs).cwd_spec(),
            nfd0 == old(fs).fd_limit(),
            out == spec_safe_open(t0, cwd0, nfd0, *policy, pathname@, mode),
            fs.cwd_spec() == old(fs).cwd_spec(),
            comps.deep_view() == split_path(pathname@),
            assoc_lookup(old(fs).table(), fd) is None,
            forall|g: i32|
                g != fd ==> #[trigger] assoc_lookup(fs.table(), g) == assoc_lookup(
                    old(fs).table(),
                    g,
                ),
            match assoc_lookup(fs.table(), fd) {
                Some(p) => policy.allows(p),
                None => false,
            },
            inert ==> intr.is_inert() && fs.tree() == t0 && out == resolve_components_spec(
                t0,
                *policy,
                assoc_lookup(fs.table(), fd).unwrap(),
                comps.deep_view().skip(i as int),
                fs.fd_limit(),
            ),
        decreases comps.len() - i,
    {
        proof {
            assert(comps.deep_view().skip(i as int)[0] == comps.deep_view()[i as int]);
            assert(comps@[i as int]@ == comps.deep_view()[i as int]);
            assert(comps.deep_view().skip(i as int).drop_first() =~= comps.deep_view().skip(
                i as int + 1,
            ));
        }
        match process_component(fs, policy, &comps[i], &mut fd, intr) {
            HopResult::Advanced => {},
            HopResult::Denied => {
                return Err(OpenError::AccessDenied);
            },
            HopResult::Failed => {
                return Err(OpenError::OpenError);
            },
        }
        i += 1;
    }
    proof {
        if inert {
            assert(comps.deep_view().skip(comps.deep_view().len() as int) =~= Seq::<
                Seq<char>,
            >::empty());
        }
    }
    Ok(fd)
}

/// Resolves `pathname` against an unchanging filesystem and opens its
/// target.  The outcome is exactly `spec_safe_open`; a returned descriptor
/// is bound to a policy-allowed location.
pub fn safe_open(fs: &mut MockFs, policy: &Policy, pathname: &str, mode: i32) -> (r: Result<
    i32,
    OpenError,
>)
    requires
        old(fs).wf(),
    ensures
        final(fs).wf(),
        final(fs).tree() == old(fs).tree(),
        final(fs).cwd_spec() == old(fs).cwd_spec(),
        // On success exactly one descriptor — the returned one, freshly
        // bound to a policy-allowed location — transfers to the caller; on
        // failure every descriptor the call opened has been released.
        match r {
            Ok(fd) => ({
                &&& match assoc_lookup(final(fs).table(), fd) {
                    Some(p) => policy.allows(p),
                    None => false,
                }
                &&& assoc_lookup(old(fs).table(), fd) is None
                &&& forall|g: i32|
                    g != fd ==> #[trigger] assoc_lookup(final(fs).table(), g) == assoc_lookup(
                        old(fs).table(),
                        g,
                    )
            }),
            Err(_) => forall|g: i32| #[trigger]
                assoc_lookup(final(fs).table(), g) == assoc_lookup(old(fs).table(), g),
        },
        match spec_safe_open(
            old(fs).tree(),
            old(fs).cwd_spec(),
            old(fs).fd_limit(),
            *policy,
            pathname@,
            mode,
        ) {
            OpenOutcome::Denied => r == Err::<i32, OpenError>(OpenError::AccessDenied),
            OpenOutcome::Failed => r == Err::<i32, OpenError>(OpenError::OpenError),
            OpenOutcome::Opened(p, n) => match r {
                Ok(fd) => assoc_lookup(final(fs).table(), fd) == Some(p) && final(fs).fd_limit() == n,
                Err(_) => false,
            },
        },
{
    let mut intr = Mutator::inert();
    safe_open_with_mutator(fs, policy, pathname, mode, &mut intr)
}

/// A successful chain of no-follow opens lands exactly on `base` extended by
/// the names it opened.
pub proof fn lemma_chain_path(
    t: Seq<(Seq<Seq<char>>, FileTypeView)>,
    base: Seq<Seq<char>>,
    sub: Seq<Seq<char>>,
    nfd: int,
)
    ensures
        match chain_spec(t, base, sub, nfd) {
            Some(pr) => pr.0 == base + sub,
            None => true,
        },
    decreases sub.len(),
{
    if sub.len() == 0 {
        assert(base + sub =~= base);
    } else {
        match assoc_lookup(t, base.push(sub[0])) {
            Some(ft) => {
                if !(ft is Symlink) && nfd != i32::MAX {
                    lemma_chain_path(t, base.push(sub[0]), sub.drop_first(), nfd + 1);
                    assert(base.push(sub[0]) + sub.drop_first() =~= base + sub);
                }
            },
            None => {},
        }
    }
}

/// A chain of no-follow opens refuses a symbolic link anywhere along it:
/// where some prefix of the names to open lands on a symbolic link, the
/// whole chain fails, whatever the rest of the tree holds.
pub proof fn lemma_chain_refuses_symlink(
    t: Seq<(Seq<Seq<char>>, FileTypeView)>,
    base: Seq<Seq<char>>,
    sub: Seq<Seq<char>>,
    nfd: int,
    k: int,
)
    requires
        0 <= k < sub.len(),
        match assoc_lookup(t, base + sub.take(k + 1)) {
            Some(ft) => ft is Symlink,
            None => true,
        },
    ensures
        chain_spec(t, base, sub, nfd) is None,
    decreases sub.len(),
{
    if k == 0 {
        assert(base + sub.take(1) =~= base.push(sub[0]));
    } else {
        match assoc_lookup(t, base.push(sub[0])) {
            Some(ft) => {
                if !(ft is Symlink) && nfd != i32::MAX {
                    assert(base.push(sub[0]) + sub.drop_first().take(k) =~= base + sub.take(
                        k + 1,
                    ));
                    lemma_chain_refuses_symlink(
                        t,
                        base.push(sub[0]),
                        sub.drop_first(),
                        nfd + 1,
                        k - 1,
                    );
                }
            },
            None => {},
        }
    }
}

/// A hop whose symbolic link points in turn at a symbolic link never
/// advances: the no-follow opens refuse the second link, so a chain of
/// links — a cycle among them — ends the resolution in denial or failure
/// instead of being transparently followed.
pub proof fn lemma_hop_refuses_chained_link(
    t: Seq<(Seq<Seq<char>>, FileTypeView)>,
    pol: Policy,
    cur: Seq<Seq<char>>,
    comp: Seq<char>,
    tg: Seq<char>,
    k: int,
    nfd: int,
)
    requires
        assoc_lookup(t, cur.push(comp)) == Some(FileTypeView::Symlink(tg)),
        0 <= k < split_path(tg).len(),
        ({
            let base = if is_abs_chars(tg) {
                Seq::<Seq<char>>::empty()
            } else {
                cur
            };
            match assoc_lookup(t, base + split_path(tg).take(k + 1)) {
                Some(ft) => ft is Symlink,
                None => true,
            }
        }),
    ensures
        !(hop_spec(t, pol, cur, comp, nfd) is Advanced),
{
    let base = if is_abs_chars(tg) {
        Seq::<Seq<char>>::empty()
    } else {
        cur
    };
    if is_abs_chars(tg) {
        if !(pol.decision(split_path(tg)) is Deny) && nfd != i32::MAX {
            lemma_chain_refuses_symlink(t, base, split_path(tg), nfd + 1, k);
        }
    } else {
        if !(pol.decision(cur + split_path(tg)) is Deny) {
            lemma_chain_refuses_symlink(t, base, split_path(tg), nfd, k);
        }
    }
}

/// Absolute re-anchoring: where the entry at the current location is a
/// symbolic link with an absolute target, the hop's outcome is a function of
/// the tree, the policy, the target text, and the allocation cursor alone —
/// the current location, and with it every component consumed before the
/// link, does not enter the result.
pub proof fn lemma_absolute_target_reanchors(
    t: Seq<(Seq<Seq<char>>, FileTypeView)>,
    pol: Policy,
    cur1: Seq<Seq<char>>,
    comp1: Seq<char>,
    cur2: Seq<Seq<char>>,
    comp2: Seq<char>,
    tg: Seq<char>,
    nfd: int,
)
    requires
        assoc_lookup(t, cur1.push(comp1)) == Some(FileTypeView::Symlink(tg)),
        assoc_lookup(t, cur2.push(comp2)) == Some(FileTypeView::Symlink(tg)),
        is_abs_chars(tg),
    ensures
        hop_spec(t, pol, cur1, comp1, nfd) == hop_spec(t, pol, cur2, comp2, nfd),
{
}

/// Every location the resolver's loop opens was allowed by the policy,
/// provided its starting location was.
pub proof fn lemma_opened_is_allowed(
    t: Seq<(Seq<Seq<char>>, FileTypeView)>,
    pol: Policy,
    cur: Seq<Seq<char>>,
    comps: Seq<Seq<char>>,
    nfd: int,
    p: Seq<Seq<char>>,
    n: int,
)
    requires
        resolve_components_spec(t, pol, cur, comps, nfd) == OpenOutcome::Opened(p, n),
        pol.allows(cur),
    ensures
        pol.allows(p),
    decreases comps.len(),
{
    if comps.len() == 0 {
    } else {
        match hop_spec(t, pol, cur, comps[0], nfd) {
            HopOutcome::Advanced(p2, n2) => {
                let pair = match assoc_lookup(t, cur.push(comps[0])) {
                    Some(FileTypeView::Symlink(tg)) => (split_path(tg), is_abs_chars(tg)),
                    _ => (seq![comps[0]], false),
                };
                let full = if pair.1 {
                    pair.0
                } else {
                    cur + pair.0
                };
                if pair.1 {
                    lemma_chain_path(t, Seq::empty(), pair.0, nfd + 1);
                    assert(Seq::empty() + pair.0 =~= full);
                } else {
                    lemma_chain_path(t, cur, pair.0, nfd);
                }
                assert(p2 == full);
                lemma_opened_is_allowed(t, pol, p2, comps.drop_first(), n2, p, n);
            },
            _ => {},
        }
    }
}

/// A resolution never opens a location its policy denies: wherever
/// `spec_safe_open` reports success, the location it opened was allowed.
pub proof fn lemma_safe_open_never_opens_denied(
    t: Seq<(Seq<Seq<char>>, FileTypeView)>,
    cwd: Seq<Seq<char>>,
    nfd: int,
    pol: Policy,
    path: Seq<char>,
    mode: i32,
    p: Seq<Seq<char>>,
    n: int,
)
    requires
        spec_safe_open(t, cwd, nfd, pol, path, mode) == OpenOutcome::Opened(p, n),
    ensures
        pol.allows(p),
{
    match anchor_spec(t, cwd, is_abs_chars(path), mode == O_NOFOLLOW, nfd) {
        None => {
            assert(false);
        },
        Some(pr) => {
            assert(!(pol.decision(pr.0) is Deny));
            lemma_opened_is_allowed(t, pol, pr.0, split_path(path), pr.1, p, n);
        },
    }
}

/// Denial precedence, on the resolver's loop: where the policy-free run of
/// the same loop opens `p` and the policy denies `p`, the policed run
/// denies.
pub proof fn lemma_denial_loop(
    t: Seq<(Seq<Seq<char>>, FileTypeView)>,
    pol_free: Policy,
    pol: Policy,
    cur: Seq<Seq<char>>,
    comps: Seq<Seq<char>>,
    nfd: int,
    p: Seq<Seq<char>>,
    n: int,
)
    requires
        resolve_components_spec(t, pol_free, cur, comps, nfd) == OpenOutcome::Opened(p, n),
        forall|q: Seq<Seq<char>>| pol_free.allows(q),
        !pol.allows(p),
        pol.allows(cur),
    ensures
        resolve_components_spec(t, pol, cur, comps, nfd) == OpenOutcome::Denied,
    decreases comps.len(),
{
    if comps.len() == 0 {
        assert(p == cur);
        assert(false);
    } else {
        let pair = match assoc_lookup(t, cur.push(comps[0])) {
            Some(FileTypeView::Symlink(tg)) => (split_path(tg), is_abs_chars(tg)),
            _ => (seq![comps[0]], false),
        };
        let full = if pair.1 {
            pair.0
        } else {
            cur + pair.0
        };
        assert(pol_free.decision(full) is Allow);
        match hop_spec(t, pol_free, cur, comps[0], nfd) {
            HopOutcome::Advanced(p2, n2) => {
                if pair.1 {
                    lemma_chain_path(t, Seq::empty(), pair.0, nfd + 1);
                    assert(Seq::empty() + pair.0 =~= full);
                } else {
                    lemma_chain_path(t, cur, pair.0, nfd);
                }
                assert(p2 == full);
                if pol.decision(full) is Deny {
                    assert(hop_spec(t, pol, cur, comps[0], nfd) == HopOutcome::Denied);
                } else {
                    assert(hop_spec(t, pol, cur, comps[0], nfd) == HopOutcome::Advanced(
                        p2,
                        n2,
                    ));
                    lemma_denial_loop(t, pol_free, pol, p2, comps.drop_first(), n2, p, n);
                }
            },
            _ => {
                assert(false);
            },
        }
    }
}

/// Denial precedence: where resolution run with an all-allowing policy would
/// open the location `p`, and the policy in force denies `p`, the policed
/// resolution of the same call returns denial — for every open mode.
pub proof fn lemma_denial_precedence(
    t: Seq<(Seq<Seq<char>>, FileTypeView)>,
    cwd: Seq<Seq<char>>,
    nfd: int,
    pol_free: Policy,
    pol: Policy,
    path: Seq<char>,
    mode: i32,
    p: Seq<Seq<char>>,
    n: int,
)
    requires
        spec_safe_open(t, cwd, nfd, pol_free, path, mode) == OpenOutcome::Opened(p, n),
        forall|q: Seq<Seq<char>>| pol_free.allows(q),
        !pol.allows(p),
    ensures
        spec_safe_open(t, cwd, nfd, pol, path, mode) == OpenOutcome::Denied,
{
    match anchor_spec(t, cwd, is_abs_chars(path), mode == O_NOFOLLOW, nfd) {
        None => {
            assert(false);
        },
        Some(pr) => {
            if pol.decision(pr.0) is Deny {
            } else {
                lemma_denial_loop(t, pol_free, pol, pr.0, split_path(path), pr.1, p, n);
            }
        },
    }
}

} // verus!
