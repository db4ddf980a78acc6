//! An in-memory filesystem double.
//!
//! The double holds a tree of entries (regular files, directories, symbolic
//! links), a descriptor table binding open descriptors to the absolute
//! component path of the object they were opened at, and a current-directory
//! register.  All state is explicit: one `MockFs` value is one filesystem, and
//! every operation is an atomic step on it, matching the granularity a kernel
//! would give through syscalls.

use crate::path::{clone_path, is_abs_chars, is_absolute, parse_path, path_eq, split_path};
use crate::store::{
    assoc_lookup, distinct_keys, lemma_distinct_remove, lemma_lookup_absent,
    lemma_lookup_at_index, lemma_lookup_push, lemma_lookup_remove,
};
use vstd::prelude::*;

verus! {

/// Read-only open mode.
pub const O_RDONLY: i32 = 0;

/// Write-only open mode.
pub const O_WRONLY: i32 = 1;

/// Read-write open mode.
pub const O_RDWR: i32 = 2;

/// Refuse to dereference a symbolic link at the final component.
pub const O_NOFOLLOW: i32 = 131072;

/// Descriptor value standing for the current working directory.
pub const AT_FDCWD: i32 = -100;

/// Bound on the number of symbolic-link hops one resolution may take.
pub const MAX_SYMLINK_HOPS: u32 = 40;

/// One filesystem entry.
#[derive(Debug)]
pub enum FileType {
    /// A regular file and its content.
    Regular(String),
    /// A directory; its children are the entries whose path extends its own.
    Directory,
    /// A symbolic link and its literal target text.
    Symlink(String),
}

/// The mathematical shape of one filesystem entry.
pub enum FileTypeView {
    Regular(Seq<char>),
    Directory,
    Symlink(Seq<char>),
}

impl View for FileType {
    type V = FileTypeView;

    open spec fn view(&self) -> FileTypeView {
        match self {
            FileType::Regular(s) => FileTypeView::Regular(s@),
            FileType::Directory => FileTypeView::Directory,
            FileType::Symlink(s) => FileTypeView::Symlink(s@),
        }
    }
}

impl FileType {
    /// A structural copy.
    pub fn duplicate(&self) -> (r: FileType)
        ensures
            r@ == self@,
    {
        match self {
            FileType::Regular(s) => FileType::Regular(s.clone()),
            FileType::Directory => FileType::Directory,
            FileType::Symlink(s) => FileType::Symlink(s.clone()),
        }
    }
}

/// Why a `create` was refused.
#[derive(Debug, PartialEq, Eq, Structural, Clone, Copy)]
pub enum CreateError {
    /// The path has no component.
    InvalidPath,
    /// A proper prefix of the path names a non-directory.
    NotADirectory,
    /// The path already names an entry.
    AlreadyExists,
}

/// The in-memory filesystem: tree, descriptor table, current directory.
pub struct MockFs {
    entries: Vec<(Vec<String>, FileType)>,
    open_files: Vec<(i32, Vec<String>)>,
    next_fd: i32,
    cwd: Vec<String>,
}

/// Every proper prefix of `p` that exists in `t` is a directory.
pub open spec fn prefixes_ok(t: Seq<(Seq<Seq<char>>, FileTypeView)>, p: Seq<Seq<char>>) -> bool {
    forall|k: int|
        1 <= k < p.len() ==> match #[trigger] assoc_lookup(t, p.take(k)) {
            Some(ft) => ft is Directory,
            None => true,
        }
}

/// Some entry of the tree lies strictly below `p`.
pub open spec fn tree_has_strict_extension(
    t: Seq<(Seq<Seq<char>>, FileTypeView)>,
    p: Seq<Seq<char>>,
) -> bool {
    exists|i: int| 0 <= i < t.len() && crate::path::is_strict_prefix(p, (#[trigger] t[i]).0)
}

/// The anchor a descriptor-relative operation starts from: the root for an
/// absolute path, the current directory for `AT_FDCWD`, else the path the
/// descriptor is bound to.
pub open spec fn base_of(
    table: Seq<(i32, Seq<Seq<char>>)>,
    cwd: Seq<Seq<char>>,
    dirfd: i32,
    s: Seq<char>,
) -> Option<Seq<Seq<char>>> {
    if crate::path::is_abs_chars(s) {
        Some(Seq::empty())
    } else if dirfd == AT_FDCWD {
        Some(cwd)
    } else {
        assoc_lookup(table, dirfd)
    }
}

/// The absolute components a path names from the current directory.  The
/// component split already drops `.` names, so the current-directory text
/// `.` resolves to the current directory itself.
pub open spec fn spec_absolute_of(cwd: Seq<Seq<char>>, s: Seq<char>) -> Seq<Seq<char>> {
    if crate::path::is_abs_chars(s) {
        split_path(s)
    } else {
        cwd + split_path(s)
    }
}

/// One walk of `rem` from the directory `cur`, looking each next name up
/// under the path resolved so far.  A directory descends; a symbolic link met
/// before the last component restarts the walk from the root on the link's
/// own components followed by the rest, spending one unit of fuel; the entry
/// at the last component is returned unfollowed.  Exhausted fuel or a missing
/// or non-directory intermediate entry fails the walk.
pub open spec fn walk_spec(
    t: Seq<(Seq<Seq<char>>, FileTypeView)>,
    cur: Seq<Seq<char>>,
    rem: Seq<Seq<char>>,
    fuel: nat,
) -> Option<(FileTypeView, Seq<Seq<char>>)>
    decreases fuel, rem.len(),
{
    if rem.len() == 0 {
        Some((FileTypeView::Directory, cur))
    } else {
        let child = cur.push(rem[0]);
        match assoc_lookup(t, child) {
            None => None,
            Some(ft) => if rem.len() == 1 {
                Some((ft, child))
            } else {
                match ft {
                    FileTypeView::Directory => walk_spec(t, child, rem.drop_first(), fuel),
                    FileTypeView::Symlink(tg) => if fuel == 0 {
                        None
                    } else {
                        walk_spec(
                            t,
                            Seq::empty(),
                            split_path(tg) + rem.drop_first(),
                            (fuel - 1) as nat,
                        )
                    },
                    FileTypeView::Regular(_) => None,
                }
            },
        }
    }
}

/// A walk of `comps` from the root whose final entry, when it is a symbolic
/// link, is itself resolved — unless `nofollow` holds, which fails instead —
/// spending one unit of fuel per link followed.
pub open spec fn follow_spec(
    t: Seq<(Seq<Seq<char>>, FileTypeView)>,
    comps: Seq<Seq<char>>,
    nofollow: bool,
    fuel: nat,
) -> Option<(FileTypeView, Seq<Seq<char>>)>
    decreases fuel,
{
    match walk_spec(t, Seq::empty(), comps, fuel) {
        None => None,
        Some(pair) => match pair.0 {
            FileTypeView::Symlink(tg) => if nofollow {
                None
            } else if fuel == 0 {
                None
            } else {
                follow_spec(t, split_path(tg), nofollow, (fuel - 1) as nat)
            },
            _ => Some(pair),
        },
    }
}

/// The tree with the first entry keyed `p` taken out.
pub open spec fn remove_key(
    t: Seq<(Seq<Seq<char>>, FileTypeView)>,
    p: Seq<Seq<char>>,
) -> Seq<(Seq<Seq<char>>, FileTypeView)>
    decreases t.len(),
{
    if t.len() == 0 {
        t
    } else if t[0].0 == p {
        t.drop_first()
    } else {
        seq![t[0]] + remove_key(t.drop_first(), p)
    }
}

/// Whether `remove` takes the entry at `p`: it exists and is not a
/// directory with children.
pub open spec fn spec_removable(
    t: Seq<(Seq<Seq<char>>, FileTypeView)>,
    p: Seq<Seq<char>>,
) -> bool {
    match assoc_lookup(t, p) {
        Some(ft) => !(ft is Directory) || !tree_has_strict_extension(t, p),
        None => false,
    }
}

/// The tree after `remove` on the path `p`.
pub open spec fn remove_tree(
    t: Seq<(Seq<Seq<char>>, FileTypeView)>,
    p: Seq<Seq<char>>,
) -> Seq<(Seq<Seq<char>>, FileTypeView)> {
    if spec_removable(t, p) {
        remove_key(t, p)
    } else {
        t
    }
}

/// Removing a first-match index is removing its key.
proof fn lemma_remove_key_at_index(t: Seq<(Seq<Seq<char>>, FileTypeView)>, i: int)
    requires
        0 <= i < t.len(),
        forall|j: int| 0 <= j < i ==> t[j].0 != t[i].0,
    ensures
        t.remove(i) == remove_key(t, t[i].0),
    decreases i,
{
    if i == 0 {
        assert(t.remove(0) =~= t.drop_first());
    } else {
        lemma_remove_key_at_index(t.drop_first(), i - 1);
        assert(t.remove(i) =~= seq![t[0]] + t.drop_first().remove(i - 1));
    }
}

/// What a lookup in the tree yields after `p` was created in `t` with entry
/// `v`: `p` itself is bound to `v`, the proper prefixes of `p` that were
/// absent become directories, everything else is untouched.
pub open spec fn create_result(
    t: Seq<(Seq<Seq<char>>, FileTypeView)>,
    p: Seq<Seq<char>>,
    v: FileTypeView,
    q: Seq<Seq<char>>,
) -> Option<FileTypeView> {
    if q == p {
        Some(v)
    } else if (exists|k: int| 1 <= k < p.len() && q == p.take(k)) && assoc_lookup(t, q) is None {
        Some(FileTypeView::Directory)
    } else {
        assoc_lookup(t, q)
    }
}

/// The directory entries `create` adds, in order, for the absent proper
/// prefixes of `p` whose lengths lie in `[from, to)`.
pub open spec fn missing_dirs(
    t: Seq<(Seq<Seq<char>>, FileTypeView)>,
    p: Seq<Seq<char>>,
    from: int,
    to: int,
) -> Seq<(Seq<Seq<char>>, FileTypeView)>
    decreases to - from,
{
    if from >= to {
        Seq::empty()
    } else {
        (if assoc_lookup(t, p.take(from)) is None {
            seq![(p.take(from), FileTypeView::Directory)]
        } else {
            Seq::empty()
        }) + missing_dirs(t, p, from + 1, to)
    }
}

/// Whether `create` accepts the path `p` in the tree `t`.
pub open spec fn spec_creatable(
    t: Seq<(Seq<Seq<char>>, FileTypeView)>,
    p: Seq<Seq<char>>,
) -> bool {
    p.len() > 0 && prefixes_ok(t, p) && assoc_lookup(t, p) is None
}

/// The tree after `create` of entry `v` at `p`: the absent parent
/// directories are appended in order, then the entry itself.
pub open spec fn create_tree(
    t: Seq<(Seq<Seq<char>>, FileTypeView)>,
    p: Seq<Seq<char>>,
    v: FileTypeView,
) -> Seq<(Seq<Seq<char>>, FileTypeView)> {
    if spec_creatable(t, p) {
        t + missing_dirs(t, p, 1, p.len() as int) + seq![(p, v)]
    } else {
        t
    }
}

/// The missing-directory run grows at its right end.
proof fn lemma_missing_dirs_extend(
    t: Seq<(Seq<Seq<char>>, FileTypeView)>,
    p: Seq<Seq<char>>,
    from: int,
    to: int,
)
    requires
        from <= to,
    ensures
        missing_dirs(t, p, from, to + 1) == missing_dirs(t, p, from, to) + (if assoc_lookup(
            t,
            p.take(to),
        ) is None {
            seq![(p.take(to), FileTypeView::Directory)]
        } else {
            Seq::<(Seq<Seq<char>>, FileTypeView)>::empty()
        }),
    decreases to - from,
{
    let step = if assoc_lookup(t, p.take(to)) is None {
        seq![(p.take(to), FileTypeView::Directory)]
    } else {
        Seq::<(Seq<Seq<char>>, FileTypeView)>::empty()
    };
    if from == to {
        assert(missing_dirs(t, p, from, to) =~= Seq::empty());
        assert(missing_dirs(t, p, from, to + 1) =~= step + missing_dirs(t, p, from + 1, to + 1));
        assert(missing_dirs(t, p, from + 1, to + 1) =~= Seq::empty());
        assert(step + Seq::empty() =~= step);
        assert(Seq::<(Seq<Seq<char>>, FileTypeView)>::empty() + step =~= step);
    } else {
        lemma_missing_dirs_extend(t, p, from + 1, to);
        let head = if assoc_lookup(t, p.take(from)) is None {
            seq![(p.take(from), FileTypeView::Directory)]
        } else {
            Seq::<(Seq<Seq<char>>, FileTypeView)>::empty()
        };
        assert(missing_dirs(t, p, from, to + 1) == head + missing_dirs(t, p, from + 1, to + 1));
        assert(head + (missing_dirs(t, p, from + 1, to) + step) =~= (head + missing_dirs(
            t,
            p,
            from + 1,
            to,
        )) + step);
    }
}

/// The tree after `link` of target text `src` at `dst`: where `src`
/// resolves, a symbolic link is created at `dst`.
pub open spec fn link_tree(
    t: Seq<(Seq<Seq<char>>, FileTypeView)>,
    src: Seq<char>,
    dst: Seq<char>,
) -> Seq<(Seq<Seq<char>>, FileTypeView)> {
    if walk_spec(t, Seq::empty(), split_path(src), MAX_SYMLINK_HOPS as nat) is Some {
        create_tree(t, split_path(dst), FileTypeView::Symlink(src))
    } else {
        t
    }
}

impl MockFs {
    /// The tree: an association sequence from absolute component paths to
    /// entries.
    pub closed spec fn tree(self) -> Seq<(Seq<Seq<char>>, FileTypeView)> {
        Seq::new(self.entries@.len(), |i: int| (self.entries@[i].0.deep_view(), self.entries@[i].1@))
    }

    /// The descriptor table: an association sequence from descriptors to the
    /// absolute component path each is bound to.
    pub closed spec fn table(self) -> Seq<(i32, Seq<Seq<char>>)> {
        Seq::new(self.open_files@.len(), |i: int| (self.open_files@[i].0, self.open_files@[i].1.deep_view()))
    }

    /// The current-directory register, as components.
    pub closed spec fn cwd_spec(self) -> Seq<Seq<char>> {
        self.cwd.deep_view()
    }

    /// The next descriptor number to be handed out.
    pub closed spec fn fd_limit(self) -> int {
        self.next_fd as int
    }

    /// Well-formedness: distinct tree keys, none empty; distinct descriptors,
    /// all at least 3 and below the allocation cursor.
    pub closed spec fn wf(self) -> bool {
        &&& distinct_keys(self.tree())
        &&& forall|i: int| 0 <= i < self.tree().len() ==> (#[trigger] self.tree()[i].0).len() > 0
        &&& distinct_keys(self.table())
        &&& forall|i: int| 0 <= i < self.table().len() ==> 3 <= #[trigger] self.table()[i].0 < self.next_fd
        &&& self.next_fd >= 3
    }

    /// An empty filesystem: no entries, no open descriptors, root as the
    /// current directory.
    pub fn new() -> (fs: MockFs)
        ensures
            fs.wf(),
            fs.tree() == Seq::<(Seq<Seq<char>>, FileTypeView)>::empty(),
            fs.table() == Seq::<(i32, Seq<Seq<char>>)>::empty(),
            fs.fd_limit() == 3,
            fs.cwd_spec() == Seq::<Seq<char>>::empty(),
    {
        let fs = MockFs {
            entries: Vec::new(),
            open_files: Vec::new(),
            next_fd: 3,
            cwd: Vec::new(),
        };
        proof {
            assert(fs.tree() =~= Seq::<(Seq<Seq<char>>, FileTypeView)>::empty());
            assert(fs.table() =~= Seq::<(i32, Seq<Seq<char>>)>::empty());
            assert(fs.cwd_spec() =~= Seq::<Seq<char>>::empty());
        }
        fs
    }

    /// Sets the current-directory register.
    pub fn set_current_dir(&mut self, path: &str)
        requires
            old(self).wf(),
        ensures
            final(self).wf(),
            final(self).tree() == old(self).tree(),
            final(self).table() == old(self).table(),
            final(self).fd_limit() == old(self).fd_limit(),
            final(self).cwd_spec() == split_path(path@),
    {
        let p = parse_path(path);
        self.cwd = p;
        proof {
            assert(self.tree() =~= old(self).tree());
            assert(self.table() =~= old(self).table());
        }
    }

    /// Walks `components` by exact names — no symbolic link is followed —
    /// and yields the index of the entry reached, through which the mutating
    /// operations work.
    pub fn traverse_path_mut(&self, components: &Vec<String>) -> (r: Option<usize>)
        ensures
            match r {
                Some(i) => i < self.tree().len() && self.tree()[i as int].0
                    == components.deep_view() && assoc_lookup(self.tree(), components.deep_view())
                    == Some(self.tree()[i as int].1),
                None => assoc_lookup(self.tree(), components.deep_view()) is None,
            },
    {
        let mut i: usize = 0;
        while i < self.entries.len()
            invariant
                i <= self.entries.len(),
                self.entries.len() == self.tree().len(),
                forall|j: int| 0 <= j < i ==> self.tree()[j].0 != components.deep_view(),
            decreases self.entries.len() - i,
        {
            if path_eq(&self.entries[i].0, components) {
                proof {
                    lemma_lookup_at_index(self.tree(), i as int);
                }
                return Some(i);
            }
            i += 1;
        }
        proof {
            lemma_lookup_absent(self.tree(), components.deep_view());
        }
        None
    }

    /// Creates entry `file_type` at the component path `p`, creating absent
    /// parent directories; refuses an empty path, a non-directory parent, or
    /// an existing entry, leaving the tree as it was.
    pub fn create_at(&mut self, p: &Vec<String>, file_type: FileType) -> (r: Result<
        (),
        CreateError,
    >)
        requires
            old(self).wf(),
        ensures
            final(self).wf(),
            final(self).table() == old(self).table(),
            final(self).fd_limit() == old(self).fd_limit(),
            final(self).cwd_spec() == old(self).cwd_spec(),
            final(self).tree() == create_tree(old(self).tree(), p.deep_view(), file_type@),
            ({
                let t = old(self).tree();
                let pv = p.deep_view();
                match r {
                    Ok(()) => pv.len() > 0 && prefixes_ok(t, pv) && assoc_lookup(t, pv) is None
                        && forall|q: Seq<Seq<char>>| #[trigger]
                        assoc_lookup(final(self).tree(), q) == create_result(
                            t,
                            pv,
                            file_type@,
                            q,
                        ),
                    Err(CreateError::InvalidPath) => pv.len() == 0 && final(self).tree() == t,
                    Err(CreateError::NotADirectory) => (exists|k: int|
                        1 <= k < pv.len() && match #[trigger] assoc_lookup(t, pv.take(k)) {
                            Some(ft) => !(ft is Directory),
                            None => false,
                        }) && final(self).tree() == t,
                    Err(CreateError::AlreadyExists) => prefixes_ok(t, pv) && assoc_lookup(t, pv)
                        is Some && final(self).tree() == t,
                }
            }),
    {
        let ghost t = self.tree();
        let ghost pv = p.deep_view();
        if p.len() == 0 {
            return Err(CreateError::InvalidPath);
        }
        // First pass: every existing proper prefix must be a directory.
        let mut cur: Vec<String> = Vec::new();
        let mut k: usize = 0;
        proof {
            assert(cur.deep_view() =~= pv.take(0));
        }
        while k + 1 < p.len()
            invariant
                *self == *old(self),
                self.wf(),
                t == self.tree(),
                pv == p.deep_view(),
                k < p.len(),
                cur.deep_view() == pv.take(k as int),
                forall|k2: int|
                    1 <= k2 <= k ==> match #[trigger] assoc_lookup(t, pv.take(k2)) {
                        Some(ft) => ft is Directory,
                        None => true,
                    },
            decreases p.len() - k,
        {
            let ghost pre = cur@;
            let ghost predv = cur.deep_view();
            cur.push(p[k].clone());
            proof {
                assert(cur@ == pre.push(p@[k as int]));
                assert(pv.len() == p@.len());
                assert(predv.len() == pre.len());
                assert(pv.take(k as int).len() == k);
                assert(pre.len() == k);
                assert forall|j: int| 0 <= j < cur@.len() implies cur.deep_view()[j] == pv.take(
                    k as int + 1,
                )[j] by {
                    if j < k {
                        assert(cur@[j] == pre[j]);
                        assert(predv[j] == pre[j].deep_view());
                        assert(predv[j] == pv.take(k as int)[j]);
                    } else {
                        assert(cur@[j] == p@[k as int]);
                    }
                }
                assert(cur.deep_view() =~= pv.take(k as int + 1));
            }
            match self.traverse_path_mut(&cur) {
                Some(i) => {
                    match &self.entries[i].1 {
                        FileType::Directory => {},
                        _ => {
                            proof {
                                assert(1 <= k + 1 < pv.len() && match assoc_lookup(
                                    t,
                                    pv.take(k as int + 1),
                                ) {
                                    Some(ft) => !(ft is Directory),
                                    None => false,
                                });
                            }
                            return Err(CreateError::NotADirectory);
                        },
                    }
                },
                None => {},
            }
            k += 1;
        }
        proof {
            assert(prefixes_ok(t, pv));
        }
        // The path itself must be absent.
        if self.traverse_path_mut(p).is_some() {
            return Err(CreateError::AlreadyExists);
        }
        // Second pass: create absent parents, then the entry itself.
        let mut cur: Vec<String> = Vec::new();
        let mut k: usize = 0;
        proof {
            assert(cur.deep_view() =~= pv.take(0));
            assert(self.tree() =~= t + missing_dirs(t, pv, 1, 1));
        }
        while k + 1 < p.len()
            invariant
                old(self).wf(),
                t == old(self).tree(),
                pv == p.deep_view(),
                assoc_lookup(t, pv) is None,
                self.tree() == t + missing_dirs(t, pv, 1, k as int + 1),
                k < p.len(),
                cur.deep_view() == pv.take(k as int),
                distinct_keys(self.tree()),
                forall|i: int| 0 <= i < self.tree().len() ==> (#[trigger] self.tree()[i].0).len()
                    > 0,
                self.open_files == old(self).open_files,
                self.next_fd == old(self).next_fd,
                self.cwd == old(self).cwd,
                forall|q: Seq<Seq<char>>| #[trigger]
                    assoc_lookup(self.tree(), q) == if (exists|k2: int|
                        1 <= k2 <= k && q == pv.take(k2)) && assoc_lookup(t, q) is None {
                        Some(FileTypeView::Directory)
                    } else {
                        assoc_lookup(t, q)
                    },
            decreases p.len() - k,
        {
            let ghost pre = cur@;
            let ghost predv = cur.deep_view();
            cur.push(p[k].clone());
            proof {
                assert(cur@ == pre.push(p@[k as int]));
                assert(pv.len() == p@.len());
                assert(predv.len() == pre.len());
                assert(pv.take(k as int).len() == k);
                assert(pre.len() == k);
                assert forall|j: int| 0 <= j < cur@.len() implies cur.deep_view()[j] == pv.take(
                    k as int + 1,
                )[j] by {
                    if j < k {
                        assert(cur@[j] == pre[j]);
                        assert(predv[j] == pre[j].deep_view());
                        assert(predv[j] == pv.take(k as int)[j]);
                    } else {
                        assert(cur@[j] == p@[k as int]);
                    }
                }
                assert(cur.deep_view() =~= pv.take(k as int + 1));
            }
            let ghost before = self.tree();
            match self.traverse_path_mut(&cur) {
                Some(_) => {
                    proof {
                        lemma_missing_dirs_extend(t, pv, 1, k as int + 1);
                        assert(assoc_lookup(before, pv.take(k as int + 1)) is Some);
                        assert(assoc_lookup(t, pv.take(k as int + 1)) is Some) by {
                            assert(forall|k2: int| 1 <= k2 <= k + 1 ==> (#[trigger] pv.take(
                                k2,
                            )).len() == k2);
                        }
                        assert(missing_dirs(t, pv, 1, k as int + 2) =~= missing_dirs(
                            t,
                            pv,
                            1,
                            k as int + 1,
                        ));
                        // An existing prefix stays; the invariant extends to k + 1
                        // because a strictly longer prefix cannot equal a shorter one.
                        assert(forall|q: Seq<Seq<char>>| #[trigger]
                            assoc_lookup(self.tree(), q) == if (exists|k2: int|
                                1 <= k2 <= k + 1 && q == pv.take(k2)) && assoc_lookup(t, q)
                                is None {
                                Some(FileTypeView::Directory)
                            } else {
                                assoc_lookup(t, q)
                            }) by {
                            assert(forall|k2: int| 1 <= k2 <= k + 1 ==> (#[trigger] pv.take(
                                k2,
                            )).len() == k2);
                            assert(assoc_lookup(before, pv.take(k as int + 1)) is Some);
                            assert(assoc_lookup(t, pv.take(k as int + 1)) is Some);
                        }
                    }
                },
                None => {
                    let copy = clone_path(&cur);
                    self.entries.push((copy, FileType::Directory));
                    proof {
                        assert(self.tree() =~= before.push(
                            (pv.take(k as int + 1), FileTypeView::Directory),
                        ));
                        lemma_missing_dirs_extend(t, pv, 1, k as int + 1);
                        assert(assoc_lookup(t, pv.take(k as int + 1)) is None) by {
                            assert(forall|k2: int| 1 <= k2 <= k + 1 ==> (#[trigger] pv.take(
                                k2,
                            )).len() == k2);
                        }
                        assert(self.tree() =~= t + missing_dirs(t, pv, 1, k as int + 2));
                        assert(forall|q: Seq<Seq<char>>| #[trigger] assoc_lookup(self.tree(), q)
                            == assoc_lookup(
                            before.push((pv.take(k as int + 1), FileTypeView::Directory)),
                            q,
                        ));
                        assert forall|q: Seq<Seq<char>>| #[trigger]
                            assoc_lookup(self.tree(), q) == (if (exists|k2: int|
                                1 <= k2 <= k + 1 && q == pv.take(k2)) && assoc_lookup(t, q)
                                is None {
                                Some(FileTypeView::Directory)
                            } else {
                                assoc_lookup(t, q)
                            }) by {
                            lemma_lookup_push(
                                before,
                                pv.take(k as int + 1),
                                FileTypeView::Directory,
                                q,
                            );
                            assert(forall|k2: int| 1 <= k2 <= k + 1 ==> (#[trigger] pv.take(
                                k2,
                            )).len() == k2);
                        }
                        // Distinctness: the pushed key was absent.
                        assert forall|i: int, j: int|
                            0 <= i < j < self.tree().len() implies self.tree()[i].0
                            != self.tree()[j].0 by {
                            if j == self.tree().len() - 1 {
                                crate::store::lemma_present_lookup_some(before, i);
                            }
                        }
                        assert(pv.take(k as int + 1).len() > 0);
                    }
                },
            }
            k += 1;
        }
        let ghost before = self.tree();
        let ghost ftv = file_type@;
        let copy = clone_path(p);
        self.entries.push((copy, file_type));
        proof {
            assert(self.tree() =~= before.push((pv, ftv)));
            assert(spec_creatable(t, pv));
            assert(k == p.len() - 1);
            assert(before == t + missing_dirs(t, pv, 1, pv.len() as int));
            assert(self.tree() =~= t + missing_dirs(t, pv, 1, pv.len() as int) + seq![
                (pv, ftv),
            ]);
            assert(self.tree() == create_tree(t, pv, ftv));
            assert(assoc_lookup(before, pv) == assoc_lookup(t, pv)) by {
                assert(forall|k2: int| 1 <= k2 < pv.len() ==> (#[trigger] pv.take(k2)).len()
                    == k2);
            }
            assert forall|q: Seq<Seq<char>>| #[trigger]
                assoc_lookup(self.tree(), q) == create_result(t, pv, ftv, q) by {
                lemma_lookup_push(before, pv, ftv, q);
                assert(forall|k2: int| 1 <= k2 < pv.len() ==> (#[trigger] pv.take(k2)).len()
                    == k2);
            }
            assert forall|i: int, j: int|
                0 <= i < j < self.tree().len() implies self.tree()[i].0 != self.tree()[j].0 by {
                if j == self.tree().len() - 1 {
                    crate::store::lemma_present_lookup_some(before, i);
                }
            }
            assert(self.table() =~= old(self).table());
        }
        Ok(())
    }

    /// Creates entry `file_type` at the path text `path`; see `create_at`.
    pub fn create(&mut self, path: &str, file_type: FileType) -> (r: Result<(), CreateError>)
        requires
            old(self).wf(),
        ensures
            final(self).wf(),
            final(self).table() == old(self).table(),
            final(self).fd_limit() == old(self).fd_limit(),
            final(self).cwd_spec() == old(self).cwd_spec(),
            final(self).tree() == create_tree(old(self).tree(), split_path(path@), file_type@),
            ({
                let t = old(self).tree();
                let pv = split_path(path@);
                match r {
                    Ok(()) => pv.len() > 0 && prefixes_ok(t, pv) && assoc_lookup(t, pv) is None
                        && forall|q: Seq<Seq<char>>| #[trigger]
                        assoc_lookup(final(self).tree(), q) == create_result(
                            t,
                            pv,
                            file_type@,
                            q,
                        ),
                    Err(CreateError::InvalidPath) => pv.len() == 0 && final(self).tree() == t,
                    Err(CreateError::NotADirectory) => (exists|k: int|
                        1 <= k < pv.len() && match #[trigger] assoc_lookup(t, pv.take(k)) {
                            Some(ft) => !(ft is Directory),
                            None => false,
                        }) && final(self).tree() == t,
                    Err(CreateError::AlreadyExists) => prefixes_ok(t, pv) && assoc_lookup(t, pv)
                        is Some && final(self).tree() == t,
                }
            }),
    {
        let p = parse_path(path);
        self.create_at(&p, file_type)
    }

    /// Removes the entry at `path`: a regular file, a symbolic link, or an
    /// empty directory.  Returns whether an entry was removed.
    pub fn remove(&mut self, path: &str) -> (r: bool)
        requires
            old(self).wf(),
        ensures
            final(self).wf(),
            final(self).table() == old(self).table(),
            final(self).fd_limit() == old(self).fd_limit(),
            final(self).cwd_spec() == old(self).cwd_spec(),
            final(self).tree() == remove_tree(old(self).tree(), split_path(path@)),
            ({
                let t = old(self).tree();
                let pv = split_path(path@);
                if spec_removable(t, pv) {
                    r == true && forall|q: Seq<Seq<char>>| #[trigger]
                        assoc_lookup(final(self).tree(), q) == if q == pv {
                            None::<FileTypeView>
                        } else {
                            assoc_lookup(t, q)
                        }
                } else {
                    r == false && final(self).tree() == t
                }
            }),
    {
        let ghost t = self.tree();
        let p = parse_path(path);
        let ghost pv = p.deep_view();
        match self.traverse_path_mut(&p) {
            None => false,
            Some(i) => {
                let is_dir = match &self.entries[i].1 {
                    FileType::Directory => {
                        proof {
                            assert(self.tree()[i as int].1 == self.entries@[i as int].1@);
                            assert(self.tree()[i as int].1 is Directory);
                        }
                        true
                    },
                    _ => false,
                };
                proof {
                    assert(assoc_lookup(t, pv) == Some(self.tree()[i as int].1));
                }
                if is_dir {
                    let mut j: usize = 0;
                    while j < self.entries.len()
                        invariant
                            *self == *old(self),
                            self.wf(),
                            t == self.tree(),
                            pv == p.deep_view(),
                            pv == split_path(path@),
                            j <= self.entries.len(),
                            self.entries.len() == self.tree().len(),
                            i < self.entries.len(),
                            assoc_lookup(t, pv) == Some(self.tree()[i as int].1),
                            self.tree()[i as int].1 is Directory,
                            forall|j2: int|
                                0 <= j2 < j ==> !crate::path::is_strict_prefix(
                                    pv,
                                    (#[trigger] self.tree()[j2]).0,
                                ),
                        decreases self.entries.len() - j,
                    {
                        if crate::path::path_strict_prefix(&p, &self.entries[j].0) {
                            proof {
                                assert(self.tree()[j as int].0 == self.entries@[
                                    j as int
                                ].0.deep_view());
                                assert(crate::path::is_strict_prefix(
                                    pv,
                                    self.tree()[j as int].0,
                                ));
                                assert(tree_has_strict_extension(t, pv));
                            }
                            return false;
                        }
                        j += 1;
                    }
                    proof {
                        assert(!tree_has_strict_extension(t, pv));
                    }
                }
                let ghost before = self.tree();
                proof {
                    assert(forall|j: int| 0 <= j < i ==> before[j].0 != before[i as int].0);
                    lemma_remove_key_at_index(before, i as int);
                }
                self.entries.remove(i);
                proof {
                    assert(self.tree() =~= before.remove(i as int)) by {
                        assert(forall|j2: int|
                            0 <= j2 < self.entries@.len() ==> self.entries@[j2] == (if j2
                                < i as int {
                                old(self).entries@[j2]
                            } else {
                                old(self).entries@[j2 + 1]
                            }));
                    }
                    assert forall|q: Seq<Seq<char>>| #[trigger]
                        assoc_lookup(self.tree(), q) == (if q == pv {
                            None::<FileTypeView>
                        } else {
                            assoc_lookup(t, q)
                        }) by {
                        lemma_lookup_remove(before, i as int, q);
                    }
                    lemma_distinct_remove(before, i as int);
                    assert(forall|j2: int|
                        0 <= j2 < self.tree().len() ==> (#[trigger] self.tree()[j2]).0.len()
                            > 0) by {
                        assert(forall|j2: int|
                            0 <= j2 < before.remove(i as int).len() ==> before.remove(
                                i as int,
                            )[j2] == (if j2 < i as int {
                                before[j2]
                            } else {
                                before[j2 + 1]
                            }));
                    }
                    assert(self.table() =~= old(self).table());
                }
                true
            },
        }
    }

    /// The index of a descriptor in the table.
    fn find_fd(&self, fd: i32) -> (r: Option<usize>)
        ensures
            match r {
                Some(i) => i < self.table().len() && self.table()[i as int].0 == fd
                    && assoc_lookup(self.table(), fd) == Some(self.table()[i as int].1),
                None => assoc_lookup(self.table(), fd) is None,
            },
    {
        let mut i: usize = 0;
        while i < self.open_files.len()
            invariant
                i <= self.open_files.len(),
                self.open_files.len() == self.table().len(),
                forall|j: int| 0 <= j < i ==> (#[trigger] self.table()[j]).0 != fd,
            decreases self.open_files.len() - i,
        {
            if self.open_files[i].0 == fd {
                proof {
                    lemma_lookup_at_index(self.table(), i as int);
                }
                return Some(i);
            }
            i += 1;
        }
        proof {
            lemma_lookup_absent(self.table(), fd);
        }
        None
    }

    /// The absolute path a descriptor is bound to, read from the descriptor
    /// table itself, never from cached path text.
    pub fn resolve_descriptor_to_absolute_path(&self, fd: i32) -> (r: Option<Vec<String>>)
        ensures
            match r {
                Some(p) => assoc_lookup(self.table(), fd) == Some(p.deep_view()),
                None => assoc_lookup(self.table(), fd) is None,
            },
    {
        match self.find_fd(fd) {
            Some(i) => Some(clone_path(&self.open_files[i].1)),
            None => None,
        }
    }

    /// Releases a descriptor: its binding leaves the table, so the
    /// descriptor no longer resolves.  Descriptor numbers are never reused.
    /// Returns whether the descriptor was open.
    pub fn close(&mut self, fd: i32) -> (r: bool)
        requires
            old(self).wf(),
        ensures
            final(self).wf(),
            final(self).tree() == old(self).tree(),
            final(self).cwd_spec() == old(self).cwd_spec(),
            final(self).fd_limit() == old(self).fd_limit(),
            r == (assoc_lookup(old(self).table(), fd) is Some),
            forall|g: i32| #[trigger]
                assoc_lookup(final(self).table(), g) == if g == fd {
                    None::<Seq<Seq<char>>>
                } else {
                    assoc_lookup(old(self).table(), g)
                },
    {
        match self.find_fd(fd) {
            Some(i) => {
                let ghost before = self.table();
                self.open_files.remove(i);
                proof {
                    assert(self.table() =~= before.remove(i as int)) by {
                        assert(forall|j: int|
                            0 <= j < self.open_files@.len() ==> self.open_files@[j] == (if j
                                < i as int {
                                old(self).open_files@[j]
                            } else {
                                old(self).open_files@[j + 1]
                            }));
                    }
                    assert forall|g: i32| #[trigger]
                        assoc_lookup(self.table(), g) == (if g == fd {
                            None::<Seq<Seq<char>>>
                        } else {
                            assoc_lookup(before, g)
                        }) by {
                        lemma_lookup_remove(before, i as int, g);
                    }
                    lemma_distinct_remove(before, i as int);
                    assert(forall|j: int|
                        0 <= j < self.table().len() ==> 3 <= (#[trigger] self.table()[j]).0
                            < self.next_fd) by {
                        assert(forall|j: int|
                            0 <= j < before.remove(i as int).len() ==> before.remove(
                                i as int,
                            )[j] == (if j < i as int {
                                before[j]
                            } else {
                                before[j + 1]
                            }));
                    }
                    assert(self.tree() =~= old(self).tree());
                }
                true
            },
            None => false,
        }
    }

    /// Binds a fresh descriptor to `path`; fails only when the descriptor
    /// space is exhausted.
    fn alloc_fd(&mut self, path: Vec<String>) -> (r: Option<i32>)
        requires
            old(self).wf(),
        ensures
            final(self).wf(),
            final(self).tree() == old(self).tree(),
            final(self).cwd_spec() == old(self).cwd_spec(),
            match r {
                Some(fd) => old(self).fd_limit() < i32::MAX && fd == old(self).fd_limit()
                    && assoc_lookup(old(self).table(), fd) is None && final(self).fd_limit()
                    == old(self).fd_limit() + 1 && forall|g: i32|
                    #[trigger] assoc_lookup(final(self).table(), g) == if g == fd {
                        Some(path.deep_view())
                    } else {
                        assoc_lookup(old(self).table(), g)
                    },
                None => old(self).fd_limit() == i32::MAX && final(self).table() == old(self).table() && final(self).fd_limit() == old(self).fd_limit(),
            },
    {
        if self.next_fd == i32::MAX {
            return None;
        }
        let fd = self.next_fd;
        self.next_fd = fd + 1;
        let ghost before = self.table();
        self.open_files.push((fd, path));
        proof {
            assert(self.table() =~= before.push((fd, path.deep_view())));
            assert(forall|j: int| 0 <= j < before.len() ==> (#[trigger] before[j]).0 != fd);
            lemma_lookup_absent(before, fd);
            assert forall|g: i32| #[trigger]
                assoc_lookup(self.table(), g) == (if g == fd {
                    Some(path.deep_view())
                } else {
                    assoc_lookup(before, g)
                }) by {
                lemma_lookup_push(before, fd, path.deep_view(), g);
                if g != fd && assoc_lookup(before, g) is None {
                } else if g == fd {
                    lemma_lookup_absent(before, fd);
                }
            }
            assert(self.tree() =~= old(self).tree());
        }
        Some(fd)
    }

    /// Reads the literal target of the symbolic link named `name` directly
    /// under the object `dirfd` is bound to; nothing is followed or
    /// re-walked.
    pub fn read_symlink_relative(&self, dirfd: i32, name: &String) -> (r: Option<String>)
        ensures
            ({
                let target = match assoc_lookup(self.table(), dirfd) {
                    Some(d) => match assoc_lookup(self.tree(), d.push(name@)) {
                        Some(FileTypeView::Symlink(tg)) => Some(tg),
                        _ => None,
                    },
                    None => None,
                };
                match r {
                    Some(s) => target == Some(s@),
                    None => target is None,
                }
            }),
    {
        match self.find_fd(dirfd) {
            None => None,
            Some(i) => {
                let child = crate::path::path_child(&self.open_files[i].1, name);
                match self.traverse_path_mut(&child) {
                    Some(j) => match &self.entries[j].1 {
                        FileType::Symlink(t) => Some(t.clone()),
                        _ => None,
                    },
                    None => None,
                }
            },
        }
    }

    /// Opens exactly `name` under the object `dirfd` is bound to, refusing to
    /// dereference a symbolic link at `name`; already-validated ancestors are
    /// not re-walked.
    pub fn open_relative_no_follow(&mut self, dirfd: i32, name: &String, _mode: i32) -> (r:
        Option<i32>)
        requires
            old(self).wf(),
        ensures
            final(self).wf(),
            final(self).tree() == old(self).tree(),
            final(self).cwd_spec() == old(self).cwd_spec(),
            ({
                let target = match assoc_lookup(old(self).table(), dirfd) {
                    Some(d) => match assoc_lookup(old(self).tree(), d.push(name@)) {
                        Some(ft) => if ft is Symlink {
                            None
                        } else {
                            Some(d.push(name@))
                        },
                        None => None,
                    },
                    None => None,
                };
                match target {
                    Some(pth) => match r {
                        Some(fd) => old(self).fd_limit() < i32::MAX && fd == old(self).fd_limit()
                            && assoc_lookup(old(self).table(), fd) is None && final(
                            self).fd_limit() == old(self).fd_limit() + 1 && forall|g: i32|
                            #[trigger] assoc_lookup(final(self).table(), g) == if g == fd {
                                Some(pth)
                            } else {
                                assoc_lookup(old(self).table(), g)
                            },
                        None => old(self).fd_limit() == i32::MAX && final(self).table() == old(self).table() && final(self).fd_limit() == old(self).fd_limit(),
                    },
                    None => r is None && final(self).table() == old(self).table() && final(self).fd_limit() == old(self).fd_limit(),
                }
            }),
    {
        let dir = match self.find_fd(dirfd) {
            Some(i) => clone_path(&self.open_files[i].1),
            None => {
                return None;
            },
        };
        let child = crate::path::path_child(&dir, name);
        match self.traverse_path_mut(&child) {
            Some(j) => {
                match &self.entries[j].1 {
                    FileType::Symlink(_) => None,
                    _ => self.alloc_fd(child),
                }
            },
            None => None,
        }
    }

    /// The absolute components `relative_path` names from the current
    /// directory register.
    pub fn convert_relative_to_absolute_path(&self, relative_path: &str) -> (r: Vec<String>)
        ensures
            r.deep_view() == spec_absolute_of(self.cwd_spec(), relative_path@),
    {
        if is_absolute(relative_path) {
            parse_path(relative_path)
        } else {
            let p = parse_path(relative_path);
            let r = crate::path::path_concat_from(&self.cwd, &p, 0);
            proof {
                assert(p.deep_view().skip(0) =~= p.deep_view());
            }
            r
        }
    }

    /// One bounded walk; see `walk_spec`.
    fn walk(&self, components: &Vec<String>, fuel_in: u32) -> (r: Option<(FileType, Vec<String>)>)
        ensures
            ({
                let res = walk_spec(
                    self.tree(),
                    Seq::empty(),
                    components.deep_view(),
                    fuel_in as nat,
                );
                match r {
                    Some(pair) => res == Some((pair.0@, pair.1.deep_view())),
                    None => res is None,
                }
            }),
    {
        let mut cur: Vec<String> = Vec::new();
        let mut rem = clone_path(components);
        let mut fuel = fuel_in;
        let ghost goal = walk_spec(
            self.tree(),
            Seq::empty(),
            components.deep_view(),
            fuel_in as nat,
        );
        proof {
            assert(cur.deep_view() =~= Seq::<Seq<char>>::empty());
        }
        while rem.len() != 0
            invariant
                goal == walk_spec(
                    self.tree(),
                    Seq::empty(),
                    components.deep_view(),
                    fuel_in as nat,
                ),
                goal == walk_spec(self.tree(), cur.deep_view(), rem.deep_view(), fuel as nat),
            decreases fuel, rem@.len(),
        {
            let child = crate::path::path_child(&cur, &rem[0]);
            proof {
                assert(rem@[0]@ == rem.deep_view()[0]);
                assert(child.deep_view() == cur.deep_view().push(rem.deep_view()[0]));
            }
            match self.traverse_path_mut(&child) {
                None => {
                    return None;
                },
                Some(i) => {
                    proof {
                        assert(assoc_lookup(self.tree(), child.deep_view()) == Some(
                            self.tree()[i as int].1,
                        ));
                        assert(self.tree()[i as int].1 == self.entries@[i as int].1@);
                    }
                    if rem.len() == 1 {
                        let ft = self.entries[i].1.duplicate();
                        return Some((ft, child));
                    }
                    match &self.entries[i].1 {
                        FileType::Directory => {
                            let ghost predv = rem.deep_view();
                            let ghost pre = rem@;
                            rem.remove(0);
                            proof {
                                assert(rem@ == pre.remove(0));
                                assert forall|j: int|
                                    0 <= j < rem@.len() implies rem.deep_view()[j]
                                    == predv.drop_first()[j] by {
                                    assert(rem@[j] == pre[j + 1]);
                                    assert(predv[j + 1] == pre[j + 1].deep_view());
                                }
                                assert(rem.deep_view() =~= predv.drop_first());
                            }
                            cur = child;
                        },
                        FileType::Symlink(tg) => {
                            if fuel == 0 {
                                return None;
                            }
                            let tgt = parse_path(tg.as_str());
                            let nr = crate::path::path_concat_from(&tgt, &rem, 1);
                            proof {
                                assert(rem.deep_view().skip(1) =~= rem.deep_view().drop_first());
                                assert(nr.deep_view() == split_path(tg@)
                                    + rem.deep_view().drop_first());
                            }
                            rem = nr;
                            cur = Vec::new();
                            fuel = fuel - 1;
                            proof {
                                assert(cur.deep_view() =~= Seq::<Seq<char>>::empty());
                            }
                        },
                        FileType::Regular(_) => {
                            return None;
                        },
                    }
                },
            }
        }
        proof {
            assert(goal == Some((FileTypeView::Directory, cur.deep_view())));
        }
        Some((FileType::Directory, cur))
    }

    /// Walks `components` from the root, following symbolic links met before
    /// the last component, the last entry returned unfollowed; bounded by
    /// `MAX_SYMLINK_HOPS`.
    pub fn traverse_path(&self, components: &Vec<String>) -> (r: Option<(FileType, Vec<String>)>)
        ensures
            ({
                let res = walk_spec(
                    self.tree(),
                    Seq::empty(),
                    components.deep_view(),
                    MAX_SYMLINK_HOPS as nat,
                );
                match r {
                    Some(pair) => res == Some((pair.0@, pair.1.deep_view())),
                    None => res is None,
                }
            }),
    {
        self.walk(components, MAX_SYMLINK_HOPS)
    }

    /// Walks `components` and resolves a symbolic link at the final entry
    /// too, unless `nofollow` refuses it; see `follow_spec`.
    fn traverse_path_recursive(&self, components: &Vec<String>, nofollow: bool, fuel: u32) -> (r:
        Option<(FileType, Vec<String>)>)
        ensures
            ({
                let res = follow_spec(
                    self.tree(),
                    components.deep_view(),
                    nofollow,
                    fuel as nat,
                );
                match r {
                    Some(pair) => res == Some((pair.0@, pair.1.deep_view())),
                    None => res is None,
                }
            }),
        decreases fuel,
    {
        match self.walk(components, fuel) {
            None => None,
            Some(pair) => {
                match pair.0 {
                    FileType::Symlink(tg) => {
                        if nofollow {
                            None
                        } else if fuel == 0 {
                            None
                        } else {
                            let tgt = parse_path(tg.as_str());
                            self.traverse_path_recursive(&tgt, nofollow, fuel - 1)
                        }
                    },
                    _ => Some(pair),
                }
            },
        }
    }

    /// Resolves `comps` from the root and binds a fresh descriptor to the
    /// resolved path.
    fn open_resolved(&mut self, comps: &Vec<String>, nofollow: bool) -> (r: Option<i32>)
        requires
            old(self).wf(),
        ensures
            final(self).wf(),
            final(self).tree() == old(self).tree(),
            final(self).cwd_spec() == old(self).cwd_spec(),
            ({
                let res = follow_spec(
                    old(self).tree(),
                    comps.deep_view(),
                    nofollow,
                    MAX_SYMLINK_HOPS as nat,
                );
                match res {
                    Some(pair) => match r {
                        Some(fd) => old(self).fd_limit() < i32::MAX && fd == old(self).fd_limit()
                            && assoc_lookup(old(self).table(), fd) is None && final(
                            self).fd_limit() == old(self).fd_limit() + 1 && forall|g: i32|
                            #[trigger] assoc_lookup(final(self).table(), g) == if g == fd {
                                Some(pair.1)
                            } else {
                                assoc_lookup(old(self).table(), g)
                            },
                        None => old(self).fd_limit() == i32::MAX && final(self).table() == old(self).table() && final(self).fd_limit() == old(self).fd_limit(),
                    },
                    None => r is None && final(self).table() == old(self).table() && final(self).fd_limit() == old(self).fd_limit(),
                }
            }),
    {
        match self.traverse_path_recursive(comps, nofollow, MAX_SYMLINK_HOPS) {
            Some(pair) => self.alloc_fd(pair.1),
            None => None,
        }
    }

    /// Opens `pathname` from the root, the current directory, or the object
    /// `dirfd` is bound to, and binds a fresh descriptor to the resolved
    /// path; `O_NOFOLLOW` refuses a symbolic link at the final entry.
    pub fn openat(&mut self, dirfd: i32, pathname: &str, flags: i32) -> (r: Option<i32>)
        requires
            old(self).wf(),
        ensures
            final(self).wf(),
            final(self).tree() == old(self).tree(),
            final(self).cwd_spec() == old(self).cwd_spec(),
            ({
                match base_of(old(self).table(), old(self).cwd_spec(), dirfd, pathname@) {
                    None => r is None && final(self).table() == old(self).table() && final(self).fd_limit() == old(self).fd_limit(),
                    Some(b) => {
                        let res = follow_spec(
                            old(self).tree(),
                            b + split_path(pathname@),
                            flags == O_NOFOLLOW,
                            MAX_SYMLINK_HOPS as nat,
                        );
                        match res {
                            Some(pair) => match r {
                                Some(fd) => old(self).fd_limit() < i32::MAX && fd == old(self).fd_limit()
                                    && assoc_lookup(old(self).table(), fd) is None
                                    && final(self).fd_limit() == old(self).fd_limit() + 1
                                    && forall|g: i32| #[trigger]
                                    assoc_lookup(final(self).table(), g) == if g == fd {
                                        Some(pair.1)
                                    } else {
                                        assoc_lookup(old(self).table(), g)
                                    },
                                None => old(self).fd_limit() == i32::MAX && final(self).table()
                                    == old(self).table() && final(self).fd_limit() == old(self).fd_limit(),
                            },
                            None => r is None && final(self).table() == old(self).table()
                                && final(self).fd_limit() == old(self).fd_limit(),
                        }
                    },
                }
            }),
    {
        let base: Vec<String> = if is_absolute(pathname) {
            Vec::new()
        } else if dirfd == AT_FDCWD {
            clone_path(&self.cwd)
        } else {
            match self.find_fd(dirfd) {
                Some(i) => clone_path(&self.open_files[i].1),
                None => {
                    return None;
                },
            }
        };
        let parsed = parse_path(pathname);
        let full = crate::path::path_concat_from(&base, &parsed, 0);
        proof {
            assert(parsed.deep_view().skip(0) =~= parsed.deep_view());
            if is_abs_chars(pathname@) {
                assert(base.deep_view() =~= Seq::<Seq<char>>::empty());
            }
        }
        self.open_resolved(&full, flags == O_NOFOLLOW)
    }

    /// Opens `pathname` from the current directory register; the anchor
    /// operation of the resolver.
    pub fn open(&mut self, pathname: &str, flags: i32) -> (r: Option<i32>)
        requires
            old(self).wf(),
        ensures
            final(self).wf(),
            final(self).tree() == old(self).tree(),
            final(self).cwd_spec() == old(self).cwd_spec(),
            ({
                let res = follow_spec(
                    old(self).tree(),
                    spec_absolute_of(old(self).cwd_spec(), pathname@),
                    flags == O_NOFOLLOW,
                    MAX_SYMLINK_HOPS as nat,
                );
                match res {
                    Some(pair) => match r {
                        Some(fd) => old(self).fd_limit() < i32::MAX && fd == old(self).fd_limit()
                            && assoc_lookup(old(self).table(), fd) is None && final(
                            self).fd_limit() == old(self).fd_limit() + 1 && forall|g: i32|
                            #[trigger] assoc_lookup(final(self).table(), g) == if g == fd {
                                Some(pair.1)
                            } else {
                                assoc_lookup(old(self).table(), g)
                            },
                        None => old(self).fd_limit() == i32::MAX && final(self).table() == old(self).table() && final(self).fd_limit() == old(self).fd_limit(),
                    },
                    None => r is None && final(self).table() == old(self).table() && final(self).fd_limit() == old(self).fd_limit(),
                }
            }),
    {
        let comps = self.convert_relative_to_absolute_path(pathname);
        self.open_resolved(&comps, flags == O_NOFOLLOW)
    }

    /// Reads the literal target text of the symbolic link `pathname` names,
    /// resolved from the root, the current directory, or `dirfd`; an entry
    /// that is not a symbolic link, or no entry, yields nothing.
    pub fn readlinkat(&self, dirfd: i32, pathname: &str) -> (r: Option<String>)
        ensures
            ({
                let res = match base_of(self.table(), self.cwd_spec(), dirfd, pathname@) {
                    None => None,
                    Some(b) => match walk_spec(
                        self.tree(),
                        Seq::empty(),
                        b + split_path(pathname@),
                        MAX_SYMLINK_HOPS as nat,
                    ) {
                        Some(pair) => match pair.0 {
                            FileTypeView::Symlink(tg) => Some(tg),
                            _ => None,
                        },
                        None => None,
                    },
                };
                match r {
                    Some(s) => res == Some(s@),
                    None => res is None,
                }
            }),
    {
        let base: Vec<String> = if is_absolute(pathname) {
            Vec::new()
        } else if dirfd == AT_FDCWD {
            clone_path(&self.cwd)
        } else {
            match self.find_fd(dirfd) {
                Some(i) => clone_path(&self.open_files[i].1),
                None => {
                    return None;
                },
            }
        };
        let parsed = parse_path(pathname);
        let full = crate::path::path_concat_from(&base, &parsed, 0);
        proof {
            assert(parsed.deep_view().skip(0) =~= parsed.deep_view());
            if is_abs_chars(pathname@) {
                assert(base.deep_view() =~= Seq::<Seq<char>>::empty());
            }
        }
        match self.walk(&full, MAX_SYMLINK_HOPS) {
            Some(pair) => match pair.0 {
                FileType::Symlink(t) => Some(t),
                _ => None,
            },
            None => None,
        }
    }

    /// Reads a symbolic link named by a path from the current directory.
    pub fn read_link(&self, path: &str) -> (r: Option<String>)
        ensures
            ({
                let res = match base_of(self.table(), self.cwd_spec(), AT_FDCWD, path@) {
                    None => None,
                    Some(b) => match walk_spec(
                        self.tree(),
                        Seq::empty(),
                        b + split_path(path@),
                        MAX_SYMLINK_HOPS as nat,
                    ) {
                        Some(pair) => match pair.0 {
                            FileTypeView::Symlink(tg) => Some(tg),
                            _ => None,
                        },
                        None => None,
                    },
                };
                match r {
                    Some(s) => res == Some(s@),
                    None => res is None,
                }
            }),
    {
        self.readlinkat(AT_FDCWD, path)
    }

    /// Creates at `dst` a symbolic link whose target text is `src`, after
    /// checking that `src` currently resolves; returns whether it was
    /// created.
    pub fn link(&mut self, src: &str, dst: &str) -> (r: bool)
        requires
            old(self).wf(),
        ensures
            final(self).wf(),
            final(self).table() == old(self).table(),
            final(self).fd_limit() == old(self).fd_limit(),
            final(self).cwd_spec() == old(self).cwd_spec(),
            final(self).tree() == link_tree(old(self).tree(), src@, dst@),
            ({
                let t = old(self).tree();
                let pv = split_path(dst@);
                if walk_spec(t, Seq::empty(), split_path(src@), MAX_SYMLINK_HOPS as nat)
                    is Some {
                    if pv.len() > 0 && prefixes_ok(t, pv) && assoc_lookup(t, pv) is None {
                        r == true && forall|q: Seq<Seq<char>>| #[trigger]
                            assoc_lookup(final(self).tree(), q) == create_result(
                                t,
                                pv,
                                FileTypeView::Symlink(src@),
                                q,
                            )
                    } else {
                        r == false && final(self).tree() == t
                    }
                } else {
                    r == false && final(self).tree() == t
                }
            }),
    {
        let sp = parse_path(src);
        match self.walk(&sp, MAX_SYMLINK_HOPS) {
            None => false,
            Some(_) => match self.create(dst, FileType::Symlink(src.to_owned())) {
                Ok(()) => true,
                Err(_) => false,
            },
        }
    }
}

/// The fixed initial layout: a protected regular file, a public regular
/// file, and a symbolic link pointing at the public one, all at the root;
/// no descriptor is open and the current directory is the root.
pub fn initialize_mockfs() -> (fs: MockFs)
    ensures
        fs.wf(),
        fs.table() == Seq::<(i32, Seq<Seq<char>>)>::empty(),
        fs.fd_limit() == 3,
        fs.cwd_spec() == Seq::<Seq<char>>::empty(),
        assoc_lookup(fs.tree(), seq!["protected"@]) == Some(
            FileTypeView::Regular("protected content"@),
        ),
        assoc_lookup(fs.tree(), seq!["public"@]) == Some(
            FileTypeView::Regular("public content"@),
        ),
        assoc_lookup(fs.tree(), seq!["link"@]) == Some(FileTypeView::Symlink("/public"@)),
        forall|q: Seq<Seq<char>>|
            q != seq!["protected"@] && q != seq!["public"@] && q != seq!["link"@]
                ==> #[trigger] assoc_lookup(fs.tree(), q) is None,
{
    proof {
        reveal_strlit("protected");
        reveal_strlit("public");
        reveal_strlit("link");
        assert(("protected"@).len() == 9);
        assert(("public"@).len() == 6);
        assert(("link"@).len() == 4);
        assert(seq!["protected"@][0] == "protected"@);
        assert(seq!["public"@][0] == "public"@);
        assert(seq!["link"@][0] == "link"@);
        assert(seq!["protected"@] != seq!["public"@]);
        assert(seq!["protected"@] != seq!["link"@]);
        assert(seq!["public"@] != seq!["link"@]);
    }
    let mut fs = MockFs::new();
    let mut p1: Vec<String> = Vec::new();
    p1.push("protected".to_owned());
    proof {
        assert(p1.deep_view() =~= seq!["protected"@]);
    }
    let _ = fs.create_at(&p1, FileType::Regular("protected content".to_owned()));
    let mut p2: Vec<String> = Vec::new();
    p2.push("public".to_owned());
    proof {
        assert(p2.deep_view() =~= seq!["public"@]);
    }
    let _ = fs.create_at(&p2, FileType::Regular("public content".to_owned()));
    let mut p3: Vec<String> = Vec::new();
    p3.push("link".to_owned());
    proof {
        assert(p3.deep_view() =~= seq!["link"@]);
    }
    let _ = fs.create_at(&p3, FileType::Symlink("/public".to_owned()));
    fs
}

} // verus!
