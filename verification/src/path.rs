//! Textual paths and their component sequences.
//!
//! A path is a string of UTF-8 components separated by `/`.  All reasoning in
//! this crate happens over the component sequence (`Seq<Seq<char>>`); the
//! functions here are the only bridge from path text to components.

use vstd::prelude::*;

verus! {

/// A path is absolute when it starts with the delimiter.
pub open spec fn is_abs_chars(s: Seq<char>) -> bool {
    s.len() > 0 && s[0] == '/'
}

/// Components of `s` split on `/`; empty components and the
/// current-directory name `.` are dropped, so `a/./b`, `/a//b/` and `a/b`
/// all name the same components.  `cur` holds the partial component read so
/// far.
pub open spec fn split_rec(s: Seq<char>, cur: Seq<char>) -> Seq<Seq<char>>
    decreases s.len(),
{
    if s.len() == 0 {
        if cur.len() == 0 || cur == seq!['.'] {
            Seq::empty()
        } else {
            seq![cur]
        }
    } else if s[0] == '/' {
        if cur.len() == 0 || cur == seq!['.'] {
            split_rec(s.drop_first(), Seq::empty())
        } else {
            seq![cur] + split_rec(s.drop_first(), Seq::empty())
        }
    } else {
        split_rec(s.drop_first(), cur.push(s[0]))
    }
}

/// The component sequence of a path string: split on `/`, empty components
/// and `.` dropped.
pub open spec fn split_path(s: Seq<char>) -> Seq<Seq<char>> {
    split_rec(s, Seq::empty())
}

/// Whether a path string is absolute.
pub fn is_absolute(path: &str) -> (r: bool)
    ensures
        r == is_abs_chars(path@),
{
    if path.unicode_len() == 0 {
        false
    } else {
        path.get_char(0) == '/'
    }
}

/// Splits a path string into its components, dropping empty ones and `.`.
pub fn parse_path(path: &str) -> (r: Vec<String>)
    ensures
        r.deep_view() == split_path(path@),
{
    let n = path.unicode_len();
    let mut r: Vec<String> = Vec::new();
    let mut start: usize = 0;
    let mut i: usize = 0;
    proof {
        assert(r.deep_view() =~= Seq::<Seq<char>>::empty());
        assert(path@.skip(0) =~= path@);
        assert(path@.subrange(0, 0) =~= Seq::<char>::empty());
        assert(Seq::<Seq<char>>::empty() + split_path(path@) =~= split_path(path@));
    }
    while i < n
        invariant
            n == path@.len(),
            start <= i <= n,
            split_path(path@) == r.deep_view() + split_rec(
                path@.skip(i as int),
                path@.subrange(start as int, i as int),
            ),
        decreases n - i,
    {
        let ghost rest = path@.skip(i as int);
        let ghost cur = path@.subrange(start as int, i as int);
        proof {
            assert(rest.len() > 0);
            assert(rest[0] == path@[i as int]);
            assert(rest.drop_first() =~= path@.skip(i as int + 1));
            assert(seq!['.'].len() == 1);
        }
        let c = path.get_char(i);
        if c == '/' {
            let dot = i == start + 1 && path.get_char(start) == '.';
            proof {
                if dot {
                    assert(cur =~= seq!['.']);
                } else if start < i {
                    if cur.len() == 1 {
                        assert(cur[0] == path@[start as int]);
                        assert(seq!['.'][0] == '.');
                    }
                    assert(cur != seq!['.']);
                }
            }
            if start < i && !dot {
                let comp = path.substring_char(start, i).to_owned();
                let ghost old_dv = r.deep_view();
                r.push(comp);
                proof {
                    assert(comp@ == cur);
                    assert(r.deep_view() =~= old_dv.push(cur));
                    assert(old_dv + split_rec(rest, cur) =~= r.deep_view() + split_rec(
                        rest.drop_first(),
                        Seq::empty(),
                    ));
                }
            }
            start = i + 1;
            proof {
                assert(path@.subrange(start as int, i as int + 1) =~= Seq::<char>::empty());
            }
        } else {
            proof {
                assert(cur.push(path@[i as int]) =~= path@.subrange(start as int, i as int + 1));
            }
        }
        i += 1;
    }
    let ghost cur = path@.subrange(start as int, n as int);
    proof {
        assert(path@.skip(n as int) =~= Seq::<char>::empty());
        assert(seq!['.'].len() == 1);
    }
    let dot = start < n && n == start + 1 && path.get_char(start) == '.';
    proof {
        if dot {
            assert(cur =~= seq!['.']);
        } else if start < n {
            if cur.len() == 1 {
                assert(cur[0] == path@[start as int]);
                assert(seq!['.'][0] == '.');
            }
            assert(cur != seq!['.']);
        }
    }
    if start < n && !dot {
        let comp = path.substring_char(start, n).to_owned();
        let ghost old_dv = r.deep_view();
        r.push(comp);
        proof {
            assert(comp@ == cur);
            assert(r.deep_view() =~= old_dv.push(cur));
            assert(old_dv + split_rec(path@.skip(n as int), cur) =~= r.deep_view());
        }
    } else {
        proof {
            assert(r.deep_view() + split_rec(path@.skip(n as int), cur) =~= r.deep_view());
        }
    }
    r
}

/// Compares two component paths by their character contents.
pub fn path_eq(a: &Vec<String>, b: &Vec<String>) -> (r: bool)
    ensures
        r == (a.deep_view() == b.deep_view()),
{
    if a.len() != b.len() {
        proof {
            assert(a.deep_view().len() == a@.len());
            assert(b.deep_view().len() == b@.len());
        }
        return false;
    }
    let mut i: usize = 0;
    while i < a.len()
        invariant
            a.len() == b.len(),
            i <= a.len(),
            forall|j: int| 0 <= j < i ==> a.deep_view()[j] == b.deep_view()[j],
        decreases a.len() - i,
    {
        if !(a[i] == b[i]) {
            proof {
                assert(a.deep_view()[i as int] == a@[i as int]@);
                assert(b.deep_view()[i as int] == b@[i as int]@);
            }
            return false;
        }
        i += 1;
    }
    proof {
        assert(a.deep_view() =~= b.deep_view());
    }
    true
}

/// `p` names a strict ancestor of `q`.
pub open spec fn is_strict_prefix(p: Seq<Seq<char>>, q: Seq<Seq<char>>) -> bool {
    p.len() < q.len() && q.take(p.len() as int) == p
}

/// Compares a component path against a prospective strict ancestor.
pub fn path_strict_prefix(p: &Vec<String>, q: &Vec<String>) -> (r: bool)
    ensures
        r == is_strict_prefix(p.deep_view(), q.deep_view()),
{
    if p.len() >= q.len() {
        proof {
            assert(p.deep_view().len() == p@.len());
            assert(q.deep_view().len() == q@.len());
        }
        return false;
    }
    let mut i: usize = 0;
    while i < p.len()
        invariant
            i <= p.len() < q.len(),
            forall|j: int| 0 <= j < i ==> p.deep_view()[j] == q.deep_view()[j],
        decreases p.len() - i,
    {
        if !(p[i] == q[i]) {
            proof {
                assert(p.deep_view()[i as int] == p@[i as int]@);
                assert(q.deep_view()[i as int] == q@[i as int]@);
                assert(q.deep_view().take(p.deep_view().len() as int)[i as int]
                    == q.deep_view()[i as int]);
            }
            return false;
        }
        i += 1;
    }
    proof {
        assert(q.deep_view().take(p.deep_view().len() as int) =~= p.deep_view());
    }
    true
}

/// The path one component below `d`.
pub fn path_child(d: &Vec<String>, name: &String) -> (r: Vec<String>)
    ensures
        r.deep_view() == d.deep_view().push(name@),
{
    let mut r = clone_path(d);
    let ghost pre = r@;
    let ghost predv = r.deep_view();
    let x = name.clone();
    let ghost xv = x@;
    r.push(x);
    proof {
        assert(predv.len() == pre.len());
        assert forall|j: int| 0 <= j < r@.len() implies r.deep_view()[j] == predv.push(xv)[j] by {
            if j < pre.len() {
                assert(r@[j] == pre[j]);
                assert(predv[j] == pre[j].deep_view());
            } else {
                assert(r.deep_view()[j] == r@[j].deep_view());
            }
        }
        assert(r.deep_view() =~= predv.push(xv));
    }
    r
}

/// `a` followed by the components of `b` from index `from` on.
pub fn path_concat_from(a: &Vec<String>, b: &Vec<String>, from: usize) -> (r: Vec<String>)
    requires
        from <= b@.len(),
    ensures
        r.deep_view() == a.deep_view() + b.deep_view().skip(from as int),
{
    let mut r = clone_path(a);
    let mut i = from;
    proof {
        assert(r.deep_view() =~= a.deep_view() + b.deep_view().subrange(
            from as int,
            from as int,
        ));
    }
    while i < b.len()
        invariant
            from <= i <= b@.len(),
            r.deep_view() == a.deep_view() + b.deep_view().subrange(from as int, i as int),
        decreases b@.len() - i,
    {
        let nr = path_child(&r, &b[i]);
        r = nr;
        proof {
            assert(b@[i as int]@ == b.deep_view()[i as int]);
            assert(r.deep_view() =~= a.deep_view() + b.deep_view().subrange(
                from as int,
                i as int + 1,
            ));
        }
        i += 1;
    }
    proof {
        assert(b.deep_view().subrange(from as int, b.deep_view().len() as int) =~= b.deep_view()
            .skip(from as int));
    }
    r
}

/// Copies a component path.
pub fn clone_path(v: &Vec<String>) -> (r: Vec<String>)
    ensures
        r.deep_view() == v.deep_view(),
        r@ == v@,
{
    let r = v.clone();
    proof {
        assert(r@ =~= v@);
    }
    r
}

} // verus!
