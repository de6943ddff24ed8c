//! Byte-level model of file-system paths.
//!
//! A path is a byte string; an absolute path starts with `/`. Paths are
//! normalized into a sequence of components: empty components and `.` are
//! dropped, and `..` removes the preceding component. All matching and
//! watch-root bookkeeping is done over normalized component sequences.

use vstd::prelude::*;

verus! {

/// The byte that separates path components (`/`).
pub const SEP: u8 = 47;

/// The byte `.`; components of one or two dots are resolved away.
pub const DOT: u8 = 46;

/// An absolute path starts with the separator.
pub open spec fn is_abs_path(p: Seq<u8>) -> bool {
    p.len() > 0 && p[0] == SEP
}

broadcast use crate::views::lemma_bytes_deep_view, crate::views::lemma_comps_deep_view;

/// Raw split of a byte string on `/`. Splitting the empty string gives one
/// empty component, and every separator byte starts a new component, so
/// `/a//b` splits into ["", "a", "", "b"].
pub open spec fn split_comps(p: Seq<u8>) -> Seq<Seq<u8>>
    decreases p.len(),
{
    if p.len() == 0 {
        seq![Seq::<u8>::empty()]
    } else if p.last() == SEP {
        split_comps(p.drop_last()).push(Seq::<u8>::empty())
    } else {
        let pre = split_comps(p.drop_last());
        pre.update(pre.len() - 1, pre.last().push(p.last()))
    }
}

/// Normalization of a raw component sequence: empty components and `.` are
/// dropped, and `..` removes the last kept component (at the root it is
/// ignored, as when resolving `/..`).
pub open spec fn norm_comps(cs: Seq<Seq<u8>>) -> Seq<Seq<u8>>
    decreases cs.len(),
{
    if cs.len() == 0 {
        Seq::<Seq<u8>>::empty()
    } else {
        let pre = norm_comps(cs.drop_last());
        let last = cs.last();
        if last.len() == 0 || last == seq![DOT] {
            pre
        } else if last == seq![DOT, DOT] {
            if pre.len() == 0 {
                pre
            } else {
                pre.drop_last()
            }
        } else {
            pre.push(last)
        }
    }
}

/// The normalized components of `p` resolved against the absolute directory
/// `cwd`: an absolute path ignores `cwd`, a relative one is appended to it.
pub open spec fn abs_comps(p: Seq<u8>, cwd: Seq<u8>) -> Seq<Seq<u8>> {
    if is_abs_path(p) {
        norm_comps(split_comps(p))
    } else {
        norm_comps(split_comps(cwd) + split_comps(p))
    }
}

/// Joining components back into an absolute path: the empty sequence is the
/// root `/`.
pub open spec fn join_comps(cs: Seq<Seq<u8>>) -> Seq<u8>
    decreases cs.len(),
{
    if cs.len() == 0 {
        seq![SEP]
    } else if cs.len() == 1 {
        seq![SEP] + cs[0]
    } else {
        join_comps(cs.drop_last()) + seq![SEP] + cs.last()
    }
}

/// `a` names the same directory as `b` or an ancestor of it.
pub open spec fn is_ancestor_or_self(a: Seq<Seq<u8>>, b: Seq<Seq<u8>>) -> bool {
    a.is_prefix_of(b)
}

/// `a` names a strict ancestor of `b`.
pub open spec fn is_strict_ancestor(a: Seq<Seq<u8>>, b: Seq<Seq<u8>>) -> bool {
    a.is_prefix_of(b) && a.len() < b.len()
}

/// The ancestor relation is transitive.
pub proof fn lemma_ancestor_transitive(a: Seq<Seq<u8>>, b: Seq<Seq<u8>>, c: Seq<Seq<u8>>)
    requires
        is_ancestor_or_self(a, b),
        is_ancestor_or_self(b, c),
    ensures
        is_ancestor_or_self(a, c),
{
    assert forall|i: int| 0 <= i < a.len() implies a[i] == c.subrange(0, a.len() as int)[i] by {
        assert(a[i] == b.subrange(0, a.len() as int)[i]);
        assert(b[i] == c.subrange(0, b.len() as int)[i]);
    }
    assert(a =~= c.subrange(0, a.len() as int));
}

/// Splits a path on the separator byte, exactly as `split_comps` does.
pub fn split_path(p: &Vec<u8>) -> (r: Vec<Vec<u8>>)
    ensures
        r.deep_view() == split_comps(p@),
        r.len() >= 1,
{
    let mut r: Vec<Vec<u8>> = Vec::new();
    r.push(Vec::new());
    proof {
        assert(p@.take(0) =~= Seq::<u8>::empty());
        assert(r.deep_view() =~~= split_comps(p@.take(0)));
    }
    let mut i: usize = 0;
    while i < p.len()
        invariant
            i <= p.len(),
            r.len() >= 1,
            r.deep_view() == split_comps(p@.take(i as int)),
        decreases p.len() - i,
    {
        let ghost pre = p@.take(i as int);
        let ghost cur = p@.take(i + 1);
        proof {
            assert(cur.drop_last() =~= pre);
            assert(cur.last() == p@[i as int]);
        }
        if p[i] == SEP {
            r.push(Vec::new());
            proof {
                assert(r.deep_view() =~~= split_comps(cur));
            }
        } else {
            let last = r.len() - 1;
            r[last].push(p[i]);
            proof {
                assert(r.deep_view() =~~= split_comps(cur));
            }
        }
        i += 1;
    }
    proof {
        assert(p@.take(p@.len() as int) =~= p@);
    }
    r
}

/// Tests whether two byte strings are equal.
pub fn bytes_eq(a: &Vec<u8>, b: &Vec<u8>) -> (r: bool)
    ensures
        r == (a@ == b@),
{
    if a.len() != b.len() {
        proof {
            assert(a@.len() != b@.len());
        }
        return false;
    }
    let mut i: usize = 0;
    while i < a.len()
        invariant
            i <= a.len(),
            a@.len() == b@.len(),
            forall|j: int| 0 <= j < i ==> a@[j] == b@[j],
        decreases a.len() - i,
    {
        if a[i] != b[i] {
            return false;
        }
        i += 1;
    }
    proof {
        assert(a@ =~= b@);
    }
    true
}

/// Normalizes a raw component sequence, exactly as `norm_comps` does.
pub fn normalize_comps(cs: &Vec<Vec<u8>>) -> (r: Vec<Vec<u8>>)
    ensures
        r.deep_view() == norm_comps(cs.deep_view()),
{
    let mut r: Vec<Vec<u8>> = Vec::new();
    proof {
        assert(cs.deep_view().take(0) =~= Seq::<Seq<u8>>::empty());
        assert(r.deep_view() =~~= norm_comps(cs.deep_view().take(0)));
    }
    let mut i: usize = 0;
    while i < cs.len()
        invariant
            i <= cs.len(),
            r.deep_view() == norm_comps(cs.deep_view().take(i as int)),
        decreases cs.len() - i,
    {
        let ghost pre = cs.deep_view().take(i as int);
        let ghost cur = cs.deep_view().take(i + 1);
        proof {
            assert(cur.drop_last() =~= pre);
            assert(cur.last() == cs.deep_view()[i as int]);
            assert(cs.deep_view()[i as int] == cs@[i as int]@);
        }
        let c = &cs[i];
        let is_empty_or_dot = c.len() == 0 || (c.len() == 1 && c[0] == DOT);
        let is_dot_dot = c.len() == 2 && c[0] == DOT && c[1] == DOT;
        if is_empty_or_dot {
            proof {
                if c@.len() == 1 {
                    assert(c@ =~= seq![DOT]);
                }
                assert(r.deep_view() =~~= norm_comps(cur));
            }
        } else if is_dot_dot {
            proof {
                assert(c@ =~= seq![DOT, DOT]);
            }
            if r.len() > 0 {
                r.pop();
                proof {
                    assert(r.deep_view() =~~= norm_comps(cur));
                }
            } else {
                proof {
                    assert(r.deep_view() =~~= norm_comps(cur));
                }
            }
        } else {
            proof {
                assert(c@.len() != 0);
                assert(c@ != seq![DOT]);
                assert(c@ != seq![DOT, DOT]);
            }
            let copy = clone_bytes(c);
            r.push(copy);
            proof {
                assert(r.deep_view() =~~= norm_comps(cur));
            }
        }
        i += 1;
    }
    proof {
        assert(cs.deep_view().take(cs@.len() as int) =~= cs.deep_view());
    }
    r
}

/// Copies a byte string.
pub fn clone_bytes(a: &Vec<u8>) -> (r: Vec<u8>)
    ensures
        r@ == a@,
{
    let mut r: Vec<u8> = Vec::new();
    let mut i: usize = 0;
    while i < a.len()
        invariant
            i <= a.len(),
            r@ == a@.take(i as int),
        decreases a.len() - i,
    {
        r.push(a[i]);
        proof {
            assert(a@.take(i + 1) =~= a@.take(i as int).push(a@[i as int]));
        }
        i += 1;
    }
    proof {
        assert(a@.take(a@.len() as int) =~= a@);
    }
    r
}

/// Copies a component sequence.
pub fn clone_comps(a: &Vec<Vec<u8>>) -> (r: Vec<Vec<u8>>)
    ensures
        r.deep_view() == a.deep_view(),
{
    let mut r: Vec<Vec<u8>> = Vec::new();
    let mut i: usize = 0;
    while i < a.len()
        invariant
            i <= a.len(),
            r.deep_view() == a.deep_view().take(i as int),
        decreases a.len() - i,
    {
        let copy = clone_bytes(&a[i]);
        proof {
            assert(copy@ == a@[i as int]@);
        }
        r.push(copy);
        proof {
            assert(r.deep_view().len() == i + 1);
            assert(r.deep_view()[i as int] =~= copy@);
            assert(a.deep_view()[i as int] =~= a@[i as int]@);
            assert(r.deep_view() =~~= a.deep_view().take(i + 1));
        }
        i += 1;
    }
    proof {
        assert(a.deep_view().take(a@.len() as int) =~= a.deep_view());
    }
    r
}

/// The normalized components of `p` resolved against `cwd`, exactly as
/// `abs_comps` does.
pub fn absolutize(p: &Vec<u8>, cwd: &Vec<u8>) -> (r: Vec<Vec<u8>>)
    requires
        is_abs_path(cwd@),
    ensures
        r.deep_view() == abs_comps(p@, cwd@),
{
    if p.len() > 0 && p[0] == SEP {
        let raw = split_path(p);
        normalize_comps(&raw)
    } else {
        let mut raw = split_path(cwd);
        let tail = split_path(p);
        let ghost raw0 = raw.deep_view();
        let mut i: usize = 0;
        while i < tail.len()
            invariant
                i <= tail.len(),
                raw.deep_view() == raw0 + tail.deep_view().take(i as int),
            decreases tail.len() - i,
        {
            let ghost pre_deep = raw.deep_view();
            let ghost pre_view = raw@;
            let copy = clone_bytes(&tail[i]);
            raw.push(copy);
            proof {
                assert(raw@.len() == raw0.len() + i + 1);
                let rhs = raw0 + tail.deep_view().take(i + 1);
                assert forall|j: int| 0 <= j < raw@.len() implies raw.deep_view()[j] == rhs[j] by {
                    assert(raw.deep_view()[j] == raw@[j]@);
                    if j < raw0.len() + i {
                        assert(raw@[j] == pre_view[j]);
                        assert(pre_view[j]@ == pre_deep[j]);
                        assert(pre_deep[j] == (raw0 + tail.deep_view().take(i as int))[j]);
                    } else {
                        assert(raw@[j] == copy);
                        assert(tail.deep_view()[i as int] == tail@[i as int]@);
                    }
                }
                assert(raw.deep_view() =~= rhs);
            }
            i += 1;
        }
        proof {
            assert(tail.deep_view().take(tail@.len() as int) =~= tail.deep_view());
        }
        normalize_comps(&raw)
    }
}

/// Joins components back into an absolute path, exactly as `join_comps` does.
pub fn join_path(cs: &Vec<Vec<u8>>) -> (r: Vec<u8>)
    ensures
        r@ == join_comps(cs.deep_view()),
{
    let mut r: Vec<u8> = Vec::new();
    if cs.len() == 0 {
        r.push(SEP);
        proof {
            assert(r@ =~= join_comps(cs.deep_view()));
        }
        return r;
    }
    let mut i: usize = 0;
    while i < cs.len()
        invariant
            i <= cs.len(),
            cs.len() >= 1,
            i > 0 ==> r@ == join_comps(cs.deep_view().take(i as int)),
            i == 0 ==> r@ == Seq::<u8>::empty(),
        decreases cs.len() - i,
    {
        let ghost pre = cs.deep_view().take(i as int);
        let ghost cur = cs.deep_view().take(i + 1);
        proof {
            assert(cur.drop_last() =~= pre);
            assert(cur.last() == cs.deep_view()[i as int]);
        }
        r.push(SEP);
        let c = &cs[i];
        let mut j: usize = 0;
        let ghost rmid = r@;
        while j < c.len()
            invariant
                j <= c.len(),
                r@ == rmid + c@.take(j as int),
            decreases c.len() - j,
        {
            r.push(c[j]);
            proof {
                assert(rmid + c@.take(j + 1) =~= (rmid + c@.take(j as int)).push(c@[j as int]));
            }
            j += 1;
        }
        proof {
            assert(c@.take(c@.len() as int) =~= c@);
            assert(r@ =~= join_comps(cur));
        }
        i += 1;
    }
    proof {
        assert(cs.deep_view().take(cs@.len() as int) =~= cs.deep_view());
    }
    r
}

/// Tests whether two component sequences are equal.
pub fn comps_eq(a: &Vec<Vec<u8>>, b: &Vec<Vec<u8>>) -> (r: bool)
    ensures
        r == (a.deep_view() == b.deep_view()),
{
    if a.len() != b.len() {
        proof {
            assert(a.deep_view().len() != b.deep_view().len());
        }
        return false;
    }
    let mut i: usize = 0;
    while i < a.len()
        invariant
            i <= a.len(),
            a@.len() == b@.len(),
            forall|j: int| 0 <= j < i ==> a.deep_view()[j] == b.deep_view()[j],
        decreases a.len() - i,
    {
        if !bytes_eq(&a[i], &b[i]) {
            proof {
                assert(a.deep_view()[i as int] != b.deep_view()[i as int]);
            }
            return false;
        }
        i += 1;
    }
    proof {
        assert(a.deep_view() =~~= b.deep_view());
    }
    true
}

/// Tests whether `a` names `b` or an ancestor of it.
pub fn comps_is_prefix(a: &Vec<Vec<u8>>, b: &Vec<Vec<u8>>) -> (r: bool)
    ensures
        r == is_ancestor_or_self(a.deep_view(), b.deep_view()),
{
    if a.len() > b.len() {
        proof {
            assert(!a.deep_view().is_prefix_of(b.deep_view()));
        }
        return false;
    }
    let mut i: usize = 0;
    while i < a.len()
        invariant
            i <= a.len(),
            a@.len() <= b@.len(),
            forall|j: int| 0 <= j < i ==> a.deep_view()[j] == b.deep_view()[j],
        decreases a.len() - i,
    {
        if !bytes_eq(&a[i], &b[i]) {
            proof {
                assert(a.deep_view()[i as int] != b.deep_view()[i as int]);
                assert(!a.deep_view().is_prefix_of(b.deep_view()));
            }
            return false;
        }
        i += 1;
    }
    proof {
        assert(a.deep_view() =~~= b.deep_view().take(a.deep_view().len() as int));
    }
    true
}

} // verus!
