//! A set of compiled globs together with the watch roots they induce.
//!
//! The watch roots are the globs' base directories, de-duplicated so that no
//! retained root is an ancestor or descendant of another: watching `/a`
//! already covers `/a/b`, so `/a/b` is dropped.

use vstd::prelude::*;

use crate::glob::{CompileError, Pattern, glob_error, glob_ok, base_len, file_matches,
    lemma_base_is_ancestor, path_dir_matches, path_file_matches};
use crate::paths::{abs_comps, clone_bytes, clone_comps, comps_eq, comps_is_prefix, is_abs_path,
    is_strict_ancestor, is_ancestor_or_self, join_comps, join_path, lemma_ancestor_transitive};

verus! {

broadcast use crate::views::lemma_bytes_deep_view, crate::views::lemma_comps_deep_view,
    crate::views::lemma_roots_deep_view;

/// Some pattern's file matcher accepts the path.
pub open spec fn any_file_matches(patterns: Seq<Pattern>, path: Seq<u8>) -> bool {
    exists|i: int|
        0 <= i < patterns.len() && path_file_matches(#[trigger] patterns[i].comps@, path)
}

/// Some pattern's directory-prefix matcher accepts the path.
pub open spec fn any_dir_matches(patterns: Seq<Pattern>, path: Seq<u8>) -> bool {
    exists|i: int| 0 <= i < patterns.len() && path_dir_matches(#[trigger] patterns[i].comps@, path)
}

/// The root at position `j` survives de-duplication: nothing in the list is a
/// strict ancestor of it, and it is the first occurrence of its value.
pub open spec fn root_kept_at(roots: Seq<Seq<Seq<u8>>>, j: int) -> bool {
    &&& forall|m: int| 0 <= m < roots.len() ==> !is_strict_ancestor(#[trigger] roots[m], roots[j])
    &&& forall|m: int| 0 <= m < j ==> roots[m] != roots[j]
}

/// De-duplicates base directories: a root is retained exactly when no other
/// root is a strict ancestor of it, keeping first occurrences, so that no two
/// retained roots overlap.
pub fn dedup_roots(roots: &Vec<Vec<Vec<u8>>>) -> (r: Vec<Vec<Vec<u8>>>)
    ensures
        forall|x: Seq<Seq<u8>>|
            #[trigger] r.deep_view().contains(x) <==> (exists|j: int|
                0 <= j < roots.deep_view().len() && roots.deep_view()[j] == x && root_kept_at(
                    roots.deep_view(),
                    j,
                )),
        r.deep_view().no_duplicates(),
        forall|a: int, b: int|
            0 <= a < r.deep_view().len() && 0 <= b < r.deep_view().len() && a != b
                ==> !is_ancestor_or_self(#[trigger] r.deep_view()[a], #[trigger] r.deep_view()[b]),
{
    let ghost rv = roots.deep_view();
    let mut r: Vec<Vec<Vec<u8>>> = Vec::new();
    let mut i: usize = 0;
    while i < roots.len()
        invariant
            i <= roots.len(),
            rv == roots.deep_view(),
            forall|x: Seq<Seq<u8>>|
                #[trigger] r.deep_view().contains(x) <==> (exists|j: int|
                    0 <= j < i && rv[j] == x && root_kept_at(rv, j)),
            r.deep_view().no_duplicates(),
        decreases roots.len() - i,
    {
        let cand = &roots[i];
        proof {
            assert(cand.deep_view() == rv[i as int]);
        }
        let mut has_anc = false;
        let mut j: usize = 0;
        while j < roots.len()
            invariant
                j <= roots.len(),
                i < roots.len(),
                rv == roots.deep_view(),
                cand.deep_view() == rv[i as int],
                has_anc <==> (exists|m: int|
                    0 <= m < j && is_strict_ancestor(#[trigger] rv[m], rv[i as int])),
            decreases roots.len() - j,
        {
            let other = &roots[j];
            proof {
                assert(other.deep_view() == rv[j as int]);
            }
            if other.len() < cand.len() && comps_is_prefix(other, cand) {
                proof {
                    assert(is_strict_ancestor(rv[j as int], rv[i as int]));
                }
                has_anc = true;
            }
            j += 1;
        }
        let mut dup = false;
        let mut d: usize = 0;
        while d < i
            invariant
                d <= i,
                i < roots.len(),
                rv == roots.deep_view(),
                cand.deep_view() == rv[i as int],
                dup <==> (exists|m: int| 0 <= m < d && #[trigger] rv[m] == rv[i as int]),
            decreases i - d,
        {
            let other = &roots[d];
            proof {
                assert(other.deep_view() == rv[d as int]);
            }
            if comps_eq(other, cand) {
                dup = true;
            }
            d += 1;
        }
        let keep = !has_anc && !dup;
        proof {
            assert(keep == root_kept_at(rv, i as int));
        }
        if keep {
            let ghost pre = r.deep_view();
            r.push(clone_comps(cand));
            proof {
                assert(r.deep_view() =~~= pre.push(rv[i as int]));
                assert(!pre.contains(rv[i as int])) by {
                    if pre.contains(rv[i as int]) {
                        let j2 = choose|j2: int|
                            0 <= j2 < i && rv[j2] == rv[i as int] && root_kept_at(rv, j2);
                        assert(rv[j2] == rv[i as int] && j2 < i);
                        assert(!root_kept_at(rv, i as int));
                    }
                }
                assert(r.deep_view().no_duplicates()) by {
                    assert forall|a: int, b: int|
                        0 <= a < r.deep_view().len() && 0 <= b < r.deep_view().len() && a != b
                            implies r.deep_view()[a] != r.deep_view()[b] by {
                        if a < pre.len() && b < pre.len() {
                            assert(pre[a] != pre[b]);
                        } else if a < pre.len() {
                            if pre[a] == rv[i as int] {
                                assert(pre.contains(rv[i as int]));
                            }
                        } else {
                            if pre[b] == rv[i as int] {
                                assert(pre.contains(rv[i as int]));
                            }
                        }
                    }
                }
                assert forall|x: Seq<Seq<u8>>| #[trigger] r.deep_view().contains(x) implies (
                exists|j2: int| 0 <= j2 < i + 1 && rv[j2] == x && root_kept_at(rv, j2)) by {
                    let p = choose|p: int| 0 <= p < r.deep_view().len() && r.deep_view()[p] == x;
                    if p < pre.len() {
                        assert(pre[p] == x);
                        assert(pre.contains(x));
                    } else {
                        assert(rv[i as int] == x && root_kept_at(rv, i as int));
                    }
                }
                assert forall|x: Seq<Seq<u8>>|
                    (exists|j2: int| 0 <= j2 < i + 1 && rv[j2] == x && root_kept_at(rv, j2))
                        implies #[trigger] r.deep_view().contains(x) by {
                    let j2 = choose|j2: int|
                        0 <= j2 < i + 1 && rv[j2] == x && root_kept_at(rv, j2);
                    if j2 < i {
                        assert(pre.contains(x));
                        let p = choose|p: int| 0 <= p < pre.len() && pre[p] == x;
                        assert(r.deep_view()[p] == x);
                    } else {
                        assert(r.deep_view()[pre.len() as int] == x);
                    }
                }
            }
        } else {
            proof {
                assert forall|x: Seq<Seq<u8>>|
                    (exists|j2: int| 0 <= j2 < i + 1 && rv[j2] == x && root_kept_at(rv, j2))
                        implies #[trigger] r.deep_view().contains(x) by {
                    let j2 = choose|j2: int|
                        0 <= j2 < i + 1 && rv[j2] == x && root_kept_at(rv, j2);
                    if j2 == i {
                        assert(root_kept_at(rv, i as int));
                    }
                }
            }
        }
        i += 1;
    }
    proof {
        assert forall|a: int, b: int|
            0 <= a < r.deep_view().len() && 0 <= b < r.deep_view().len() && a != b
                implies !is_ancestor_or_self(
            #[trigger] r.deep_view()[a],
            #[trigger] r.deep_view()[b],
        ) by {
            let x = r.deep_view()[a];
            let y = r.deep_view()[b];
            if is_ancestor_or_self(x, y) {
                assert(r.deep_view().contains(x));
                assert(r.deep_view().contains(y));
                if x.len() == y.len() {
                    assert(x =~= y);
                    assert(r.deep_view()[a] != r.deep_view()[b]);
                } else {
                    let jx = choose|j: int|
                        0 <= j < rv.len() && rv[j] == x && root_kept_at(rv, j);
                    let jy = choose|j: int|
                        0 <= j < rv.len() && rv[j] == y && root_kept_at(rv, j);
                    assert(is_strict_ancestor(rv[jx], rv[jy]));
                    assert(!root_kept_at(rv, jy));
                }
            }
        }
    }
    r
}

/// The base directory of each glob, in glob order.
pub open spec fn globs_bases(globs: Seq<Seq<u8>>, cwd: Seq<u8>) -> Seq<Seq<Seq<u8>>> {
    globs.map_values(|g: Seq<u8>| abs_comps(g, cwd).take(base_len(abs_comps(g, cwd))))
}

/// Every glob in the list compiles.
pub open spec fn all_globs_ok(globs: Seq<Seq<u8>>, cwd: Seq<u8>) -> bool {
    forall|i: int| 0 <= i < globs.len() ==> glob_ok(abs_comps(#[trigger] globs[i], cwd))
}

/// A set of compiled globs, their de-duplicated watch roots, and whether the
/// initial enumeration honours ignore files.
pub struct GlobWatcher {
    /// One compiled pattern per glob, in glob order.
    pub patterns: Vec<Pattern>,
    /// The de-duplicated base directories, as component sequences.
    pub roots: Vec<Vec<Vec<u8>>>,
    /// Whether the initial walk honours ignore files.
    pub read_ignores: bool,
}

impl GlobWatcher {
    /// The watcher is the compilation of `globs` against `cwd`: its patterns
    /// compile the globs in order, and its roots are the de-duplicated base
    /// directories.
    pub open spec fn models(&self, globs: Seq<Seq<u8>>, cwd: Seq<u8>) -> bool {
        &&& self.patterns@.len() == globs.len()
        &&& forall|i: int|
            0 <= i < globs.len() ==> (#[trigger] self.patterns@[i]).models(abs_comps(globs[i], cwd))
                && self.patterns@[i].wf()
        &&& forall|x: Seq<Seq<u8>>|
            #[trigger] self.roots.deep_view().contains(x) <==> (exists|j: int|
                0 <= j < globs.len() && globs_bases(globs, cwd)[j] == x && root_kept_at(
                    globs_bases(globs, cwd),
                    j,
                ))
        &&& self.roots.deep_view().no_duplicates()
        &&& forall|a: int, b: int|
            0 <= a < self.roots.deep_view().len() && 0 <= b < self.roots.deep_view().len() && a != b
                ==> !is_ancestor_or_self(
                #[trigger] self.roots.deep_view()[a],
                #[trigger] self.roots.deep_view()[b],
            )
    }

    /// Whether some glob accepts the path: the file matchers decide for
    /// files, the directory-prefix matchers for directories.
    pub fn matches(&self, path: &Vec<u8>, is_dir: bool) -> (r: bool)
        ensures
            r == if is_dir {
                any_dir_matches(self.patterns@, path@)
            } else {
                any_file_matches(self.patterns@, path@)
            },
    {
        let mut i: usize = 0;
        while i < self.patterns.len()
            invariant
                i <= self.patterns@.len(),
                forall|j: int|
                    0 <= j < i ==> !(if is_dir {
                        path_dir_matches((#[trigger] self.patterns@[j]).comps@, path@)
                    } else {
                        path_file_matches(self.patterns@[j].comps@, path@)
                    }),
            decreases self.patterns@.len() - i,
        {
            let hit = if is_dir {
                self.patterns[i].directory_prefix_matcher(path)
            } else {
                self.patterns[i].file_matcher(path)
            };
            if hit {
                return true;
            }
            i += 1;
        }
        false
    }

    /// Compiles one glob; the watcher holds that single pattern.
    pub fn from_pattern(glob: &Vec<u8>, read_ignores: bool, cwd: &Vec<u8>) -> (r: Result<
        GlobWatcher,
        CompileError,
    >)
        requires
            is_abs_path(cwd@),
        ensures
            r is Ok <==> glob_ok(abs_comps(glob@, cwd@)),
            r matches Ok(w) ==> w.models(seq![glob@], cwd@) && w.read_ignores == read_ignores,
            r matches Err(e) ==> e == glob_error(abs_comps(glob@, cwd@)),
    {
        let mut v: Vec<Vec<u8>> = Vec::new();
        v.push(clone_bytes(glob));
        proof {
            assert(v.deep_view() =~~= seq![glob@]);
        }
        let r = Self::from_patterns(&v, read_ignores, cwd);
        proof {
            assert(v.deep_view()[0] == glob@);
            if glob_ok(abs_comps(glob@, cwd@)) {
                assert(all_globs_ok(v.deep_view(), cwd@));
            }
            if all_globs_ok(v.deep_view(), cwd@) {
                assert(glob_ok(abs_comps(v.deep_view()[0], cwd@)));
            }
        }
        r
    }

    /// Compiles every glob of one rule and de-duplicates their base
    /// directories into the watch roots. Fails with the first glob's error
    /// when one does not compile.
    pub fn from_patterns(globs: &Vec<Vec<u8>>, read_ignores: bool, cwd: &Vec<u8>) -> (r: Result<
        GlobWatcher,
        CompileError,
    >)
        requires
            is_abs_path(cwd@),
        ensures
            r is Ok <==> all_globs_ok(globs.deep_view(), cwd@),
            r matches Ok(w) ==> w.models(globs.deep_view(), cwd@) && w.read_ignores
                == read_ignores,
            r matches Err(e) ==> (exists|i: int|
                0 <= i < globs.deep_view().len() && !glob_ok(
                    abs_comps(#[trigger] globs.deep_view()[i], cwd@),
                ) && (forall|j: int|
                    0 <= j < i ==> glob_ok(abs_comps(#[trigger] globs.deep_view()[j], cwd@)))
                    && e == glob_error(abs_comps(globs.deep_view()[i], cwd@))),
    {
        let ghost gv = globs.deep_view();
        let mut patterns: Vec<Pattern> = Vec::new();
        let mut bases: Vec<Vec<Vec<u8>>> = Vec::new();
        let mut i: usize = 0;
        while i < globs.len()
            invariant
                i <= globs.len(),
                gv == globs.deep_view(),
                is_abs_path(cwd@),
                patterns@.len() == i,
                bases@.len() == i,
                forall|j: int| 0 <= j < i ==> glob_ok(abs_comps(#[trigger] gv[j], cwd@)),
                forall|j: int|
                    0 <= j < i ==> (#[trigger] patterns@[j]).models(abs_comps(gv[j], cwd@))
                        && patterns@[j].wf(),
                forall|j: int|
                    0 <= j < i ==> #[trigger] bases.deep_view()[j] == globs_bases(gv, cwd@)[j],
            decreases globs.len() - i,
        {
            proof {
                assert(globs@[i as int]@ == gv[i as int]);
            }
            match Pattern::new(&globs[i], cwd) {
                Ok(p) => {
                    let ghost pre_b = bases.deep_view();
                    let ghost pre_bv = bases@;
                    bases.push(clone_comps(&p.base));
                    patterns.push(p);
                    proof {
                        assert forall|j: int|
                            0 <= j < i + 1 implies #[trigger] bases.deep_view()[j] == globs_bases(
                            gv,
                            cwd@,
                        )[j] by {
                            assert(globs_bases(gv, cwd@)[j] == abs_comps(gv[j], cwd@).take(
                                base_len(abs_comps(gv[j], cwd@)),
                            ));
                            if j < i {
                                assert(bases@[j] == pre_bv[j]);
                                assert(pre_bv[j].deep_view() == pre_b[j]);
                            } else {
                                assert(bases@[j].deep_view() == p.base.deep_view());
                            }
                        }
                    }
                },
                Err(e) => {
                    proof {
                        assert(!glob_ok(abs_comps(gv[i as int], cwd@)));
                    }
                    return Err(e);
                },
            }
            i += 1;
        }
        let roots = dedup_roots(&bases);
        proof {
            assert(bases.deep_view() =~= globs_bases(gv, cwd@));
        }
        Ok(GlobWatcher { patterns, roots, read_ignores })
    }

    /// The retained watch roots, joined back into absolute paths.
    pub fn root_paths(&self) -> (r: Vec<Vec<u8>>)
        ensures
            r.deep_view().len() == self.roots.deep_view().len(),
            forall|i: int|
                0 <= i < r.deep_view().len() ==> #[trigger] r.deep_view()[i] == join_comps(
                    self.roots.deep_view()[i],
                ),
    {
        let mut r: Vec<Vec<u8>> = Vec::new();
        let mut i: usize = 0;
        while i < self.roots.len()
            invariant
                i <= self.roots@.len(),
                r@.len() == i,
                forall|j: int|
                    0 <= j < i ==> #[trigger] r.deep_view()[j] == join_comps(
                        self.roots.deep_view()[j],
                    ),
            decreases self.roots@.len() - i,
        {
            let ghost pre = r.deep_view();
            let ghost pre_v = r@;
            r.push(join_path(&self.roots[i]));
            proof {
                assert forall|j: int|
                    0 <= j < i + 1 implies #[trigger] r.deep_view()[j] == join_comps(
                    self.roots.deep_view()[j],
                ) by {
                    if j < i {
                        assert(r@[j] == pre_v[j]);
                        assert(pre_v[j]@ == pre[j]);
                    } else {
                        assert(r@[j]@ == join_comps(self.roots.deep_view()[j]));
                    }
                }
            }
            i += 1;
        }
        r
    }
}

/// Every root of the list is covered after de-duplication: some retained
/// root is the root itself or a strict ancestor of it.
pub proof fn lemma_some_kept_ancestor(rv: Seq<Seq<Seq<u8>>>, j: int)
    requires
        0 <= j < rv.len(),
    ensures
        exists|k: int|
            0 <= k < rv.len() && root_kept_at(rv, k) && is_ancestor_or_self(
                #[trigger] rv[k],
                rv[j],
            ),
    decreases rv[j].len(), j,
{
    if root_kept_at(rv, j) {
        assert(rv[j] =~= rv[j].subrange(0, rv[j].len() as int));
        assert(root_kept_at(rv, j) && is_ancestor_or_self(rv[j], rv[j]));
    } else if exists|m: int| 0 <= m < rv.len() && is_strict_ancestor(#[trigger] rv[m], rv[j]) {
        let m = choose|m: int| 0 <= m < rv.len() && is_strict_ancestor(#[trigger] rv[m], rv[j]);
        lemma_some_kept_ancestor(rv, m);
        let k = choose|k: int|
            0 <= k < rv.len() && root_kept_at(rv, k) && is_ancestor_or_self(
                #[trigger] rv[k],
                rv[m],
            );
        lemma_ancestor_transitive(rv[k], rv[m], rv[j]);
        assert(root_kept_at(rv, k) && is_ancestor_or_self(rv[k], rv[j]));
    } else {
        assert forall|m: int|
            0 <= m < rv.len() implies !is_strict_ancestor(#[trigger] rv[m], rv[j]) by {
            if is_strict_ancestor(rv[m], rv[j]) {
                assert(exists|m2: int|
                    0 <= m2 < rv.len() && is_strict_ancestor(#[trigger] rv[m2], rv[j]));
            }
        }
        let m = choose|m: int| 0 <= m < j && #[trigger] rv[m] == rv[j];
        lemma_some_kept_ancestor(rv, m);
        let k = choose|k: int|
            0 <= k < rv.len() && root_kept_at(rv, k) && is_ancestor_or_self(
                #[trigger] rv[k],
                rv[m],
            );
        assert(root_kept_at(rv, k) && is_ancestor_or_self(rv[k], rv[j]));
    }
}

/// Watch coverage: every path that some file matcher of the watcher accepts
/// lies under one of the retained watch roots.
pub proof fn lemma_roots_cover_matches(
    w: GlobWatcher,
    globs: Seq<Seq<u8>>,
    cwd: Seq<u8>,
    comps: Seq<Seq<u8>>,
)
    requires
        w.models(globs, cwd),
        exists|i: int|
            0 <= i < w.patterns@.len() && file_matches((#[trigger] w.patterns@[i]).comps@, comps),
    ensures
        exists|x: Seq<Seq<u8>>|
            #[trigger] w.roots.deep_view().contains(x) && is_ancestor_or_self(x, comps),
{
    let i = choose|i: int|
        0 <= i < w.patterns@.len() && file_matches((#[trigger] w.patterns@[i]).comps@, comps);
    let cs = abs_comps(globs[i], cwd);
    assert(w.patterns@[i].models(cs) && w.patterns@[i].wf());
    lemma_base_is_ancestor(w.patterns@[i], comps);
    let bases = globs_bases(globs, cwd);
    assert(bases[i] == cs.take(base_len(cs)));
    assert(bases[i] == w.patterns@[i].base.deep_view());
    lemma_some_kept_ancestor(bases, i);
    let k = choose|k: int|
        0 <= k < bases.len() && root_kept_at(bases, k) && is_ancestor_or_self(
            #[trigger] bases[k],
            bases[i],
        );
    assert(w.roots.deep_view().contains(bases[k]));
    lemma_ancestor_transitive(bases[k], bases[i], comps);
    assert(w.roots.deep_view().contains(bases[k]) && is_ancestor_or_self(bases[k], comps));
}

} // verus!
