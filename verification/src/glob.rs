//! The glob compiler and the two compiled matchers.
//!
//! A glob is an absolute path whose components may contain `*` (any run of
//! bytes within one component) or be exactly `**` (one or more whole
//! components). A component mixing `**` with other text, or containing one of
//! the bytes `[ ] ( ) + $ ^ { } |`, is rejected: the glob language
//! intentionally excludes full pattern syntax.
//!
//! Compiling a glob yields a [`Pattern`]: the compiled components, matched by
//! [`Pattern::file_matcher`] against complete paths and by
//! [`Pattern::directory_prefix_matcher`] against directories on the way to a
//! possible match, plus the base directory, the longest wildcard-free prefix.

use vstd::prelude::*;

use crate::paths::{abs_comps, absolutize, clone_bytes, is_abs_path, norm_comps, split_comps,
    split_path, normalize_comps};

verus! {

broadcast use crate::views::lemma_bytes_deep_view, crate::views::lemma_comps_deep_view;

/// The wildcard byte (`*`).
pub const STAR: u8 = 42;

/// One compiled glob component: `**`, or a literal component in which `*`
/// matches any run of bytes.
pub enum GlobComp {
    /// A component that was exactly `**`: one or more whole components.
    Many,
    /// Any other component; `*` bytes in it match runs of bytes.
    Lit(Vec<u8>),
}

/// Whether a component pattern matches a component, with `*` standing for any
/// run of bytes.
pub open spec fn comp_pat_matches(pat: Seq<u8>, s: Seq<u8>) -> bool
    decreases pat.len() + s.len(),
{
    if pat.len() == 0 {
        s.len() == 0
    } else if pat[0] == STAR {
        comp_pat_matches(pat.skip(1), s) || (s.len() > 0 && comp_pat_matches(pat, s.skip(1)))
    } else {
        s.len() > 0 && pat[0] == s[0] && comp_pat_matches(pat.skip(1), s.skip(1))
    }
}

/// Whether the compiled components match a whole normalized path: a complete,
/// final match. `Many` consumes at least one component.
pub open spec fn file_matches(pats: Seq<GlobComp>, comps: Seq<Seq<u8>>) -> bool
    decreases pats.len() + comps.len(),
{
    if pats.len() == 0 {
        comps.len() == 0
    } else {
        match pats[0] {
            GlobComp::Many => comps.len() > 0 && (file_matches(pats.skip(1), comps.skip(1))
                || file_matches(pats, comps.skip(1))),
            GlobComp::Lit(l) => comps.len() > 0 && comp_pat_matches(l@, comps[0])
                && file_matches(pats.skip(1), comps.skip(1)),
        }
    }
}

/// Whether one compiled component is a literal that matches `c`.
pub open spec fn lit_matches(g: GlobComp, c: Seq<u8>) -> bool {
    g matches GlobComp::Lit(l) && comp_pat_matches(l@, c)
}

/// The number of literal components before the first `**`.
pub open spec fn lead_len(pats: Seq<GlobComp>) -> int
    decreases pats.len(),
{
    if pats.len() == 0 {
        0
    } else {
        match pats[0] {
            GlobComp::Many => 0,
            GlobComp::Lit(_) => 1 + lead_len(pats.skip(1)),
        }
    }
}

/// Whether a normalized path is a full match or a legitimate ancestor on the
/// way to a possible match: its components match the literal components before
/// the first `**` for as far as both run, and it does not run past the
/// pattern unless a `**` opens the pattern up.
pub open spec fn dir_matches(pats: Seq<GlobComp>, comps: Seq<Seq<u8>>) -> bool {
    let k = lead_len(pats);
    let m = if comps.len() <= k {
        comps.len() as int
    } else {
        k
    };
    (forall|i: int| 0 <= i < m ==> lit_matches(#[trigger] pats[i], comps[i])) && (comps.len() <= k
        || k < pats.len())
}

/// A file match over a path: the path is split and normalized first.
pub open spec fn path_file_matches(pats: Seq<GlobComp>, path: Seq<u8>) -> bool {
    file_matches(pats, norm_comps(split_comps(path)))
}

/// A directory-prefix match over a path.
pub open spec fn path_dir_matches(pats: Seq<GlobComp>, path: Seq<u8>) -> bool {
    dir_matches(pats, norm_comps(split_comps(path)))
}

/// Why a glob failed to compile.
#[derive(Clone, Copy, Debug, PartialEq, Eq, Structural)]
pub enum CompileError {
    /// A component combined `**` with other text.
    DoubleStar,
    /// A component held one of the bytes the glob language excludes.
    Metacharacter,
}

/// A byte the glob language excludes from components: `[ ] ( ) + $ ^ { } |`.
pub open spec fn is_meta_byte(b: u8) -> bool {
    b == 91 || b == 93 || b == 40 || b == 41 || b == 43 || b == 36 || b == 94 || b == 123 || b
        == 125 || b == 124
}

/// A component that is exactly `**`.
pub open spec fn is_dstar_comp(c: Seq<u8>) -> bool {
    c == seq![STAR, STAR]
}

/// A component holding two adjacent `*` bytes.
pub open spec fn has_adjacent_stars(c: Seq<u8>) -> bool {
    exists|i: int| 0 <= i && i + 1 < c.len() && #[trigger] c[i] == STAR && c[i + 1] == STAR
}

/// A component holding an excluded byte.
pub open spec fn has_meta(c: Seq<u8>) -> bool {
    exists|i: int| 0 <= i < c.len() && is_meta_byte(c[i])
}

/// A component the compiler accepts.
pub open spec fn comp_ok(c: Seq<u8>) -> bool {
    is_dstar_comp(c) || (!has_adjacent_stars(c) && !has_meta(c))
}

/// The error a bad component is rejected with; `**` misuse is reported before
/// excluded bytes.
pub open spec fn comp_error(c: Seq<u8>) -> CompileError {
    if has_adjacent_stars(c) {
        CompileError::DoubleStar
    } else {
        CompileError::Metacharacter
    }
}

/// Whether every component of a normalized glob is accepted.
pub open spec fn glob_ok(cs: Seq<Seq<u8>>) -> bool {
    forall|i: int| 0 <= i < cs.len() ==> comp_ok(#[trigger] cs[i])
}

/// The error of the first rejected component.
pub open spec fn glob_error(cs: Seq<Seq<u8>>) -> CompileError
    decreases cs.len(),
{
    if cs.len() == 0 {
        arbitrary()
    } else if !comp_ok(cs[0]) {
        comp_error(cs[0])
    } else {
        glob_error(cs.skip(1))
    }
}

/// Whether a compiled component is the compilation of a source component.
pub open spec fn comp_models(g: GlobComp, c: Seq<u8>) -> bool {
    if is_dstar_comp(c) {
        g is Many
    } else {
        g matches GlobComp::Lit(l) && l@ == c
    }
}

/// Whether a compiled component sequence is the compilation of a normalized
/// glob.
pub open spec fn pattern_models(pats: Seq<GlobComp>, cs: Seq<Seq<u8>>) -> bool {
    pats.len() == cs.len() && forall|i: int|
        0 <= i < cs.len() ==> comp_models(#[trigger] pats[i], cs[i])
}

/// A component with no wildcard byte.
pub open spec fn no_star(c: Seq<u8>) -> bool {
    forall|i: int| 0 <= i < c.len() ==> c[i] != STAR
}

/// The length of the longest wildcard-free leading run of a normalized glob:
/// the base directory.
pub open spec fn base_len(cs: Seq<Seq<u8>>) -> int
    decreases cs.len(),
{
    if cs.len() == 0 {
        0
    } else if !no_star(cs[0]) {
        0
    } else {
        1 + base_len(cs.skip(1))
    }
}

/// The number of leading wildcard-free literal components of a compiled
/// pattern.
pub open spec fn seg_base_len(pats: Seq<GlobComp>) -> int
    decreases pats.len(),
{
    if pats.len() == 0 {
        0
    } else {
        match pats[0] {
            GlobComp::Many => 0,
            GlobComp::Lit(l) => if no_star(l@) {
                1 + seg_base_len(pats.skip(1))
            } else {
                0
            },
        }
    }
}

/// One compiled glob: the matcher components and the base directory.
pub struct Pattern {
    /// The compiled components, in order.
    pub comps: Vec<GlobComp>,
    /// The components of the base directory: the longest wildcard-free prefix.
    pub base: Vec<Vec<u8>>,
}

impl Pattern {
    /// The stored base directory is exactly the wildcard-free leading run of
    /// the compiled components.
    pub open spec fn wf(&self) -> bool {
        &&& self.base.deep_view().len() == seg_base_len(self.comps@)
        &&& forall|i: int|
            0 <= i < self.base.deep_view().len() ==> ((#[trigger] self.comps@[i]) matches
                GlobComp::Lit(l) && l@ == self.base.deep_view()[i])
    }

    /// The pattern is the compilation of the normalized glob `cs`.
    pub open spec fn models(&self, cs: Seq<Seq<u8>>) -> bool {
        &&& pattern_models(self.comps@, cs)
        &&& self.base.deep_view() == cs.take(base_len(cs))
    }
}

/// `base_len` stays within the glob.
pub proof fn lemma_base_len_bounds(cs: Seq<Seq<u8>>)
    ensures
        0 <= base_len(cs) <= cs.len(),
    decreases cs.len(),
{
    if cs.len() > 0 && no_star(cs[0]) {
        lemma_base_len_bounds(cs.skip(1));
    }
}

/// `base_len` is the position of the first component with a wildcard.
pub proof fn lemma_base_len_char(cs: Seq<Seq<u8>>, k: int)
    requires
        0 <= k <= cs.len(),
        forall|i: int| 0 <= i < k ==> no_star(#[trigger] cs[i]),
        k < cs.len() ==> !no_star(cs[k]),
    ensures
        base_len(cs) == k,
    decreases k,
{
    if k == 0 {
    } else {
        assert(no_star(cs[0]));
        assert forall|i: int| 0 <= i < k - 1 implies no_star(#[trigger] cs.skip(1)[i]) by {
            assert(cs.skip(1)[i] == cs[i + 1]);
        }
        if k - 1 < cs.skip(1).len() {
            assert(cs.skip(1)[k - 1] == cs[k]);
        }
        lemma_base_len_char(cs.skip(1), k - 1);
    }
}

/// `lead_len` stays within the pattern, and everything before it is literal.
pub proof fn lemma_lead_len_lit(pats: Seq<GlobComp>)
    ensures
        0 <= lead_len(pats) <= pats.len(),
        forall|i: int| 0 <= i < lead_len(pats) ==> (#[trigger] pats[i]) is Lit,
        lead_len(pats) < pats.len() ==> pats[lead_len(pats)] is Many,
    decreases pats.len(),
{
    if pats.len() > 0 {
        match pats[0] {
            GlobComp::Many => {},
            GlobComp::Lit(_) => {
                lemma_lead_len_lit(pats.skip(1));
                assert forall|i: int| 0 <= i < lead_len(pats) implies (#[trigger] pats[i]) is Lit
                    by {
                    if i > 0 {
                        assert(pats.skip(1)[i - 1] == pats[i]);
                    }
                }
                if lead_len(pats) < pats.len() {
                    assert(pats.skip(1)[lead_len(pats) - 1] == pats[lead_len(pats)]);
                }
            },
        }
    }
}

/// The error reported for a glob is the error of its first bad component.
pub proof fn lemma_glob_error_at(cs: Seq<Seq<u8>>, i: int)
    requires
        0 <= i < cs.len(),
        !comp_ok(cs[i]),
        forall|j: int| 0 <= j < i ==> comp_ok(#[trigger] cs[j]),
    ensures
        glob_error(cs) == comp_error(cs[i]),
        !glob_ok(cs),
    decreases i,
{
    if i > 0 {
        assert(comp_ok(cs[0]));
        assert forall|j: int| 0 <= j < i - 1 implies comp_ok(#[trigger] cs.skip(1)[j]) by {
            assert(cs.skip(1)[j] == cs[j + 1]);
        }
        assert(cs.skip(1)[i - 1] == cs[i]);
        lemma_glob_error_at(cs.skip(1), i - 1);
    }
}

/// A pattern that compiles a glob has the glob's base directory.
pub proof fn lemma_models_base(pats: Seq<GlobComp>, cs: Seq<Seq<u8>>)
    requires
        pattern_models(pats, cs),
    ensures
        seg_base_len(pats) == base_len(cs),
    decreases pats.len(),
{
    if pats.len() > 0 {
        assert(comp_models(pats[0], cs[0]));
        if is_dstar_comp(cs[0]) {
            assert(cs[0][0] == STAR);
            assert(!no_star(cs[0]));
        } else {
            assert forall|i: int| 0 <= i < cs.len() - 1 implies comp_models(
                #[trigger] pats.skip(1)[i],
                cs.skip(1)[i],
            ) by {
                assert(pats.skip(1)[i] == pats[i + 1]);
                assert(cs.skip(1)[i] == cs[i + 1]);
            }
            lemma_models_base(pats.skip(1), cs.skip(1));
            let l = pats[0]->Lit_0;
            assert(l@ == cs[0]);
        }
    }
}

/// Tests a byte against the excluded set.
fn byte_is_meta(b: u8) -> (r: bool)
    ensures
        r == is_meta_byte(b),
{
    b == 91 || b == 93 || b == 40 || b == 41 || b == 43 || b == 36 || b == 94 || b == 123 || b
        == 125 || b == 124
}

/// Tests whether a component is exactly `**`.
fn comp_is_dstar(c: &Vec<u8>) -> (r: bool)
    ensures
        r == is_dstar_comp(c@),
{
    if c.len() == 2 && c[0] == STAR && c[1] == STAR {
        proof {
            assert(c@ =~= seq![STAR, STAR]);
        }
        true
    } else {
        proof {
            if c@ == seq![STAR, STAR] {
                assert(c@.len() == 2);
                assert(c@[0] == STAR);
                assert(c@[1] == STAR);
            }
        }
        false
    }
}

/// Tests whether a component holds two adjacent `*` bytes.
fn comp_has_adjacent_stars(c: &Vec<u8>) -> (r: bool)
    ensures
        r == has_adjacent_stars(c@),
{
    if c.len() < 2 {
        return false;
    }
    let mut j: usize = 0;
    while j + 1 < c.len()
        invariant
            j + 1 <= c.len(),
            c.len() >= 2,
            forall|i: int| 0 <= i < j ==> !(#[trigger] c@[i] == STAR && c@[i + 1] == STAR),
        decreases c.len() - j,
    {
        if c[j] == STAR && c[j + 1] == STAR {
            return true;
        }
        j += 1;
    }
    false
}

/// Tests whether a component holds an excluded byte.
fn comp_has_meta(c: &Vec<u8>) -> (r: bool)
    ensures
        r == has_meta(c@),
{
    let mut j: usize = 0;
    while j < c.len()
        invariant
            j <= c.len(),
            forall|i: int| 0 <= i < j ==> !is_meta_byte(c@[i]),
        decreases c.len() - j,
    {
        if byte_is_meta(c[j]) {
            return true;
        }
        j += 1;
    }
    false
}

/// Tests whether a component is free of `*`.
fn comp_no_star(c: &Vec<u8>) -> (r: bool)
    ensures
        r == no_star(c@),
{
    let mut j: usize = 0;
    while j < c.len()
        invariant
            j <= c.len(),
            forall|i: int| 0 <= i < j ==> c@[i] != STAR,
        decreases c.len() - j,
    {
        if c[j] == STAR {
            return false;
        }
        j += 1;
    }
    true
}

impl Pattern {
    /// Compiles one glob against the absolute directory `cwd`: the glob is
    /// normalized to an absolute path, each component is checked and
    /// compiled, and the base directory is the longest wildcard-free prefix.
    pub fn new(pattern: &Vec<u8>, cwd: &Vec<u8>) -> (r: Result<Pattern, CompileError>)
        requires
            is_abs_path(cwd@),
        ensures
            r is Ok <==> glob_ok(abs_comps(pattern@, cwd@)),
            r matches Ok(p) ==> p.models(abs_comps(pattern@, cwd@)) && p.wf(),
            r matches Err(e) ==> e == glob_error(abs_comps(pattern@, cwd@)),
    {
        let cs = absolutize(pattern, cwd);
        let ghost gcs = abs_comps(pattern@, cwd@);
        proof {
            assert(cs.deep_view() == gcs);
        }
        let mut comps: Vec<GlobComp> = Vec::new();
        let mut i: usize = 0;
        while i < cs.len()
            invariant
                i <= cs.len(),
                gcs == abs_comps(pattern@, cwd@),
                cs.deep_view() == gcs,
                comps@.len() == i,
                forall|j: int| 0 <= j < i ==> comp_ok(#[trigger] gcs[j]),
                forall|j: int| 0 <= j < i ==> comp_models(#[trigger] comps@[j], gcs[j]),
            decreases cs.len() - i,
        {
            let c = &cs[i];
            proof {
                assert(c@ == gcs[i as int]);
            }
            if comp_is_dstar(c) {
                comps.push(GlobComp::Many);
            } else {
                if comp_has_adjacent_stars(c) {
                    proof {
                        lemma_glob_error_at(gcs, i as int);
                    }
                    return Err(CompileError::DoubleStar);
                }
                if comp_has_meta(c) {
                    proof {
                        lemma_glob_error_at(gcs, i as int);
                    }
                    return Err(CompileError::Metacharacter);
                }
                comps.push(GlobComp::Lit(clone_bytes(c)));
            }
            i += 1;
        }
        let mut k: usize = 0;
        while k < cs.len() && comp_no_star(&cs[k])
            invariant
                k <= cs.len(),
                gcs == abs_comps(pattern@, cwd@),
                cs.deep_view() == gcs,
                forall|j: int| 0 <= j < k ==> no_star(#[trigger] gcs[j]),
            decreases cs.len() - k,
        {
            k += 1;
        }
        proof {
            lemma_base_len_char(gcs, k as int);
        }
        let mut base: Vec<Vec<u8>> = Vec::new();
        let mut b: usize = 0;
        while b < k
            invariant
                b <= k,
                k <= cs.len(),
                cs.deep_view() == gcs,
                base.deep_view() == gcs.take(b as int),
            decreases k - b,
        {
            base.push(clone_bytes(&cs[b]));
            proof {
                assert(base.deep_view() =~~= gcs.take(b + 1));
            }
            b += 1;
        }
        let p = Pattern { comps, base };
        proof {
            assert(p.base.deep_view() =~= gcs.take(base_len(gcs)));
            assert(p.models(gcs));
            lemma_models_base(p.comps@, gcs);
            assert forall|i2: int| 0 <= i2 < p.base.deep_view().len() implies ((
            #[trigger] p.comps@[i2]) matches GlobComp::Lit(l) && l@ == p.base.deep_view()[i2]) by {
                lemma_base_len_bounds(gcs);
                assert(comp_models(p.comps@[i2], gcs[i2]));
                assert(no_star(gcs[i2]));
                assert(!is_dstar_comp(gcs[i2])) by {
                    if is_dstar_comp(gcs[i2]) {
                        assert(gcs[i2][0] == STAR);
                    }
                }
            }
            assert(p.wf());
        }
        Ok(p)
    }
}

/// Recursive component match on suffixes of the pattern and the component.
fn comp_match_at(pat: &Vec<u8>, pi: usize, s: &Vec<u8>, si: usize) -> (r: bool)
    requires
        pi <= pat.len(),
        si <= s.len(),
    ensures
        r == comp_pat_matches(pat@.skip(pi as int), s@.skip(si as int)),
    decreases pat@.len() - pi + s@.len() - si,
{
    let ghost pp = pat@.skip(pi as int);
    let ghost ss = s@.skip(si as int);
    if pi == pat.len() {
        proof {
            assert(pp.len() == 0);
            assert(ss.len() == s@.len() - si);
        }
        si == s.len()
    } else {
        proof {
            assert(pp[0] == pat@[pi as int]);
            assert(pp.skip(1) =~= pat@.skip(pi + 1));
        }
        if pat[pi] == STAR {
            if comp_match_at(pat, pi + 1, s, si) {
                true
            } else if si < s.len() {
                proof {
                    assert(ss.skip(1) =~= s@.skip(si + 1));
                    assert(ss.len() > 0);
                }
                comp_match_at(pat, pi, s, si + 1)
            } else {
                proof {
                    assert(ss.len() == 0);
                }
                false
            }
        } else {
            if si < s.len() {
                proof {
                    assert(ss[0] == s@[si as int]);
                    assert(ss.skip(1) =~= s@.skip(si + 1));
                }
                if pat[pi] == s[si] {
                    comp_match_at(pat, pi + 1, s, si + 1)
                } else {
                    false
                }
            } else {
                proof {
                    assert(ss.len() == 0);
                }
                false
            }
        }
    }
}

/// Recursive path match on suffixes of the compiled components and the path
/// components.
fn file_match_at(pats: &Vec<GlobComp>, pi: usize, comps: &Vec<Vec<u8>>, ci: usize) -> (r: bool)
    requires
        pi <= pats.len(),
        ci <= comps.len(),
    ensures
        r == file_matches(pats@.skip(pi as int), comps.deep_view().skip(ci as int)),
    decreases pats@.len() - pi + comps@.len() - ci,
{
    let ghost pp = pats@.skip(pi as int);
    let ghost ss = comps.deep_view().skip(ci as int);
    proof {
        assert(ss.len() == comps@.len() - ci);
    }
    if pi == pats.len() {
        proof {
            assert(pp.len() == 0);
        }
        ci == comps.len()
    } else {
        proof {
            assert(pp[0] == pats@[pi as int]);
            assert(pp.skip(1) =~= pats@.skip(pi + 1));
        }
        match &pats[pi] {
            GlobComp::Many => {
                if ci == comps.len() {
                    false
                } else {
                    proof {
                        assert(ss.skip(1) =~~= comps.deep_view().skip(ci + 1));
                    }
                    if file_match_at(pats, pi + 1, comps, ci + 1) {
                        true
                    } else {
                        file_match_at(pats, pi, comps, ci + 1)
                    }
                }
            },
            GlobComp::Lit(l) => {
                if ci == comps.len() {
                    false
                } else {
                    proof {
                        assert(ss[0] == comps.deep_view()[ci as int]);
                        assert(comps.deep_view()[ci as int] == comps@[ci as int]@);
                        assert(ss.skip(1) =~~= comps.deep_view().skip(ci + 1));
                        assert(l@.skip(0) =~= l@);
                        assert(comps@[ci as int]@.skip(0) =~= comps@[ci as int]@);
                    }
                    if comp_match_at(l, 0, &comps[ci], 0) {
                        file_match_at(pats, pi + 1, comps, ci + 1)
                    } else {
                        false
                    }
                }
            },
        }
    }
}

impl Pattern {
    /// Whether `path`, once normalized, is a complete, final match of the
    /// glob.
    pub fn file_matcher(&self, path: &Vec<u8>) -> (r: bool)
        ensures
            r == path_file_matches(self.comps@, path@),
    {
        let raw = split_path(path);
        let comps = normalize_comps(&raw);
        proof {
            assert(self.comps@.skip(0) =~= self.comps@);
            assert(comps.deep_view().skip(0) =~~= comps.deep_view());
        }
        file_match_at(&self.comps, 0, &comps, 0)
    }

    /// Whether `path`, once normalized, is a full match or a legitimate
    /// ancestor directory on the way to a possible match.
    pub fn directory_prefix_matcher(&self, path: &Vec<u8>) -> (r: bool)
        ensures
            r == path_dir_matches(self.comps@, path@),
    {
        let raw = split_path(path);
        let comps = normalize_comps(&raw);
        let ghost cc = comps.deep_view();
        proof {
            lemma_lead_len_lit(self.comps@);
        }
        let mut k: usize = 0;
        while k < self.comps.len() && matches!(&self.comps[k], GlobComp::Lit(_))
            invariant
                k <= self.comps@.len(),
                forall|i: int| 0 <= i < k ==> (#[trigger] self.comps@[i]) is Lit,
            decreases self.comps@.len() - k,
        {
            k += 1;
        }
        proof {
            lemma_lead_len_char(self.comps@, k as int);
        }
        let m: usize = if comps.len() <= k {
            comps.len()
        } else {
            k
        };
        let mut i: usize = 0;
        while i < m
            invariant
                i <= m,
                m <= comps@.len(),
                m <= k,
                k as int == lead_len(self.comps@),
                cc == comps.deep_view(),
                cc == norm_comps(split_comps(path@)),
                m as int == (if cc.len() <= k { cc.len() as int } else { k as int }),
                forall|j: int| 0 <= j < i ==> lit_matches(#[trigger] self.comps@[j], cc[j]),
            decreases m - i,
        {
            proof {
                lemma_lead_len_lit(self.comps@);
                assert(self.comps@[i as int] is Lit);
            }
            match &self.comps[i] {
                GlobComp::Lit(l) => {
                    proof {
                        assert(l@.skip(0) =~= l@);
                        assert(comps@[i as int]@.skip(0) =~= comps@[i as int]@);
                        assert(cc[i as int] == comps@[i as int]@);
                    }
                    if !comp_match_at(l, 0, &comps[i], 0) {
                        proof {
                            assert(!lit_matches(self.comps@[i as int], cc[i as int]));
                        }
                        return false;
                    }
                },
                GlobComp::Many => {
                    proof {
                        assert(false);
                    }
                },
            }
            i += 1;
        }
        comps.len() <= k || k < self.comps.len()
    }
}

/// `lead_len` is the position of the first `**`.
pub proof fn lemma_lead_len_char(pats: Seq<GlobComp>, k: int)
    requires
        0 <= k <= pats.len(),
        forall|i: int| 0 <= i < k ==> (#[trigger] pats[i]) is Lit,
        k < pats.len() ==> !(pats[k] is Lit),
    ensures
        lead_len(pats) == k,
    decreases k,
{
    if k == 0 {
        if pats.len() > 0 {
            assert(pats[0] is Many || pats[0] is Lit);
        }
    } else {
        assert(pats[0] is Lit);
        assert forall|i: int| 0 <= i < k - 1 implies (#[trigger] pats.skip(1)[i]) is Lit by {
            assert(pats.skip(1)[i] == pats[i + 1]);
        }
        if k - 1 < pats.skip(1).len() {
            assert(pats.skip(1)[k - 1] == pats[k]);
        }
        lemma_lead_len_char(pats.skip(1), k - 1);
    }
}

/// A compiled pattern whose components are all literal and wildcard-free.
pub open spec fn all_literal(pats: Seq<GlobComp>) -> bool {
    forall|i: int|
        0 <= i < pats.len() ==> ((#[trigger] pats[i]) matches GlobComp::Lit(l) && no_star(l@))
}

/// The component bytes of an all-literal compiled pattern.
pub open spec fn literals_of(pats: Seq<GlobComp>) -> Seq<Seq<u8>> {
    pats.map_values(|g: GlobComp| g->Lit_0@)
}

/// A wildcard-free component pattern matches exactly itself.
pub proof fn lemma_no_star_exact(pat: Seq<u8>, s: Seq<u8>)
    requires
        no_star(pat),
    ensures
        comp_pat_matches(pat, s) <==> pat == s,
    decreases pat.len() + s.len(),
{
    if pat.len() == 0 {
        if comp_pat_matches(pat, s) {
            assert(pat =~= s);
        }
    } else {
        assert(pat[0] != STAR);
        assert forall|i: int| 0 <= i < pat.skip(1).len() implies pat.skip(1)[i] != STAR by {
            assert(pat.skip(1)[i] == pat[i + 1]);
        }
        if s.len() > 0 && pat[0] == s[0] {
            lemma_no_star_exact(pat.skip(1), s.skip(1));
            if comp_pat_matches(pat, s) {
                assert(pat.skip(1) == s.skip(1));
                assert forall|i: int| 0 <= i < pat.len() implies pat[i] == s[i] by {
                    if i > 0 {
                        assert(pat.skip(1)[i - 1] == s.skip(1)[i - 1]);
                    }
                }
                assert(pat =~= s);
            }
            if pat == s {
                assert(pat.skip(1) =~= s.skip(1));
            }
        } else {
            if pat == s {
                assert(s.len() > 0 && pat[0] == s[0]);
            }
        }
    }
}

/// A literal pattern with no wildcards accepts exactly its own components and
/// no others.
pub proof fn lemma_literal_glob_exact(pats: Seq<GlobComp>, comps: Seq<Seq<u8>>)
    requires
        all_literal(pats),
    ensures
        file_matches(pats, comps) <==> comps == literals_of(pats),
    decreases pats.len() + comps.len(),
{
    if pats.len() == 0 {
        if file_matches(pats, comps) {
            assert(comps =~= literals_of(pats));
        }
        if comps == literals_of(pats) {
            assert(comps.len() == 0);
        }
    } else {
        assert(pats[0] matches GlobComp::Lit(l) && no_star(l@));
        let l0 = pats[0]->Lit_0;
        assert forall|i: int|
            0 <= i < pats.skip(1).len() implies ((#[trigger] pats.skip(1)[i]) matches
            GlobComp::Lit(l) && no_star(l@)) by {
            assert(pats.skip(1)[i] == pats[i + 1]);
        }
        if comps.len() == 0 {
            assert(!file_matches(pats, comps));
            assert(literals_of(pats).len() == pats.len());
        } else {
            lemma_no_star_exact(l0@, comps[0]);
            lemma_literal_glob_exact(pats.skip(1), comps.skip(1));
            assert(literals_of(pats.skip(1)) =~= literals_of(pats).skip(1)) by {
                assert forall|i: int|
                    0 <= i < literals_of(pats.skip(1)).len() implies literals_of(pats.skip(1))[i]
                    == literals_of(pats).skip(1)[i] by {
                    assert(pats.skip(1)[i] == pats[i + 1]);
                }
            }
            assert(literals_of(pats)[0] == l0@);
            if file_matches(pats, comps) {
                assert(comps.skip(1) == literals_of(pats.skip(1)));
                assert forall|i: int| 0 <= i < comps.len() implies comps[i] == literals_of(
                    pats,
                )[i] by {
                    if i > 0 {
                        assert(comps.skip(1)[i - 1] == literals_of(pats).skip(1)[i - 1]);
                    }
                }
                assert(comps =~= literals_of(pats));
            }
            if comps == literals_of(pats) {
                assert(comps[0] == l0@);
                assert(comps.skip(1) =~= literals_of(pats).skip(1));
            }
        }
    }
}

/// A glob whose components are all wildcard-free is its own base directory.
pub proof fn lemma_literal_base_len(cs: Seq<Seq<u8>>)
    requires
        forall|i: int| 0 <= i < cs.len() ==> no_star(#[trigger] cs[i]),
    ensures
        base_len(cs) == cs.len(),
{
    lemma_base_len_char(cs, cs.len() as int);
}

/// Superset invariant, component form: a complete file match is accepted by
/// the directory-prefix matcher too.
pub proof fn lemma_file_match_implies_dir_match(pats: Seq<GlobComp>, comps: Seq<Seq<u8>>)
    requires
        file_matches(pats, comps),
    ensures
        dir_matches(pats, comps),
    decreases pats.len() + comps.len(),
{
    if pats.len() == 0 {
    } else {
        match pats[0] {
            GlobComp::Many => {
            },
            GlobComp::Lit(l) => {
                lemma_file_match_implies_dir_match(pats.skip(1), comps.skip(1));
                lemma_lead_len_lit(pats);
                lemma_lead_len_lit(pats.skip(1));
                let k = lead_len(pats);
                let k1 = lead_len(pats.skip(1));
                let m = if comps.len() <= k {
                    comps.len() as int
                } else {
                    k
                };
                let m1 = if comps.skip(1).len() <= k1 {
                    comps.skip(1).len() as int
                } else {
                    k1
                };
                assert(k == 1 + k1);
                assert(m == 1 + m1);
                assert forall|i: int| 0 <= i < m implies lit_matches(
                    #[trigger] pats[i],
                    comps[i],
                ) by {
                    if i == 0 {
                        assert(comp_pat_matches(l@, comps[0]));
                    } else {
                        assert(lit_matches(pats.skip(1)[i - 1], comps.skip(1)[i - 1]));
                        assert(pats.skip(1)[i - 1] == pats[i]);
                        assert(comps.skip(1)[i - 1] == comps[i]);
                    }
                }
            },
        }
    }
}

/// Superset invariant: for any compiled pattern and any path, a file match
/// implies a directory-prefix match.
pub proof fn lemma_matcher_superset(p: Pattern, path: Seq<u8>)
    requires
        path_file_matches(p.comps@, path),
    ensures
        path_dir_matches(p.comps@, path),
{
    lemma_file_match_implies_dir_match(p.comps@, norm_comps(split_comps(path)));
}

/// Everything before `seg_base_len` is a wildcard-free literal.
pub proof fn lemma_seg_base_lit(pats: Seq<GlobComp>)
    ensures
        0 <= seg_base_len(pats) <= pats.len(),
        forall|i: int|
            0 <= i < seg_base_len(pats) ==> ((#[trigger] pats[i]) matches GlobComp::Lit(l)
                && no_star(l@)),
    decreases pats.len(),
{
    if pats.len() > 0 {
        match pats[0] {
            GlobComp::Many => {},
            GlobComp::Lit(l) => {
                if no_star(l@) {
                    lemma_seg_base_lit(pats.skip(1));
                    assert forall|i: int|
                        0 <= i < seg_base_len(pats) implies ((#[trigger] pats[i]) matches
                        GlobComp::Lit(l2) && no_star(l2@)) by {
                        if i > 0 {
                            assert(pats.skip(1)[i - 1] == pats[i]);
                        }
                    }
                }
            },
        }
    }
}

/// A file match pins every component under the wildcard-free literal prefix.
proof fn lemma_lit_prefix_forced(pats: Seq<GlobComp>, comps: Seq<Seq<u8>>, n: int)
    requires
        0 <= n <= pats.len(),
        forall|i: int|
            0 <= i < n ==> ((#[trigger] pats[i]) matches GlobComp::Lit(l) && no_star(l@)),
        file_matches(pats, comps),
    ensures
        n <= comps.len(),
        forall|i: int| 0 <= i < n ==> comps[i] == (#[trigger] pats[i])->Lit_0@,
    decreases n,
{
    if n > 0 {
        assert(pats[0] matches GlobComp::Lit(l) && no_star(l@));
        let l0 = pats[0]->Lit_0;
        assert(comps.len() > 0);
        assert(comp_pat_matches(l0@, comps[0]));
        lemma_no_star_exact(l0@, comps[0]);
        assert forall|i: int|
            0 <= i < n - 1 implies ((#[trigger] pats.skip(1)[i]) matches GlobComp::Lit(l)
            && no_star(l@)) by {
            assert(pats.skip(1)[i] == pats[i + 1]);
        }
        lemma_lit_prefix_forced(pats.skip(1), comps.skip(1), n - 1);
        assert forall|i: int| 0 <= i < n implies comps[i] == (#[trigger] pats[i])->Lit_0@ by {
            if i > 0 {
                assert(comps.skip(1)[i - 1] == pats.skip(1)[i - 1]->Lit_0@);
                assert(pats.skip(1)[i - 1] == pats[i]);
                assert(comps.skip(1)[i - 1] == comps[i]);
            }
        }
    }
}

/// The base directory is an ancestor of, or equal to, every path the file
/// matcher accepts.
pub proof fn lemma_base_is_ancestor(p: Pattern, comps: Seq<Seq<u8>>)
    requires
        p.wf(),
        file_matches(p.comps@, comps),
    ensures
        p.base.deep_view().is_prefix_of(comps),
{
    broadcast use crate::views::lemma_comps_deep_view;

    let n = p.base.deep_view().len() as int;
    lemma_seg_base_lit(p.comps@);
    lemma_lit_prefix_forced(p.comps@, comps, n);
    assert forall|i: int| 0 <= i < n implies p.base.deep_view()[i] == comps.take(n)[i] by {
        assert(p.comps@[i] matches GlobComp::Lit(l) && l@ == p.base.deep_view()[i]);
        assert(comps[i] == p.comps@[i]->Lit_0@);
    }
    assert(p.base.deep_view() =~= comps.take(n));
}

/// A literal glob, one with no wildcard in any component, accepts exactly its
/// own absolute form and rejects every other path, and its base directory is
/// that absolute form.
pub proof fn lemma_literal_pattern_exact(p: Pattern, cs: Seq<Seq<u8>>, comps: Seq<Seq<u8>>)
    requires
        p.models(cs),
        forall|i: int| 0 <= i < cs.len() ==> no_star(#[trigger] cs[i]),
    ensures
        file_matches(p.comps@, comps) <==> comps == cs,
        p.base.deep_view() == cs,
{
    assert forall|i: int|
        0 <= i < p.comps@.len() implies ((#[trigger] p.comps@[i]) matches GlobComp::Lit(l)
        && no_star(l@)) by {
        assert(comp_models(p.comps@[i], cs[i]));
        assert(!is_dstar_comp(cs[i])) by {
            if is_dstar_comp(cs[i]) {
                assert(cs[i][0] == STAR);
            }
        }
    }
    assert(literals_of(p.comps@) =~= cs) by {
        assert forall|i: int| 0 <= i < cs.len() implies literals_of(p.comps@)[i] == cs[i] by {
            assert(comp_models(p.comps@[i], cs[i]));
            assert(!is_dstar_comp(cs[i])) by {
                if is_dstar_comp(cs[i]) {
                    assert(cs[i][0] == STAR);
                }
            }
        }
    }
    lemma_literal_glob_exact(p.comps@, comps);
    lemma_literal_base_len(cs);
    assert(p.base.deep_view() =~= cs) by {
        assert(p.base.deep_view() == cs.take(cs.len() as int));
        assert(cs.take(cs.len() as int) =~= cs);
    }
}

} // verus!
