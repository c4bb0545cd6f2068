//! Package lookups: by manifest path and by package name, and the
//! directory that contains a manifest.
//!
//! Manifest paths are byte strings; a package's directory is its manifest
//! path cut at the final path separator.

use vstd::prelude::*;
use crate::features::{Feature, Dep};
use crate::examples::Target;

verus! {

/// A package of the metadata snapshot.
pub struct Package {
    pub name: String,
    pub manifest_path: Vec<u8>,
    pub features: Vec<Feature>,
    pub dependencies: Vec<Dep>,
    pub targets: Vec<Target>,
}

/// Why a lookup failed: no package matched, or several did where at most
/// one may.
#[derive(Debug)]
pub enum LookupError {
    NotFound,
    Ambiguous,
}

/// How many packages satisfy `f`.
pub open spec fn count_matching(ps: Seq<Package>, f: spec_fn(Package) -> bool) -> nat
    decreases ps.len(),
{
    if ps.len() == 0 {
        0
    } else {
        count_matching(ps.drop_last(), f) + if f(ps.last()) {
            1nat
        } else {
            0nat
        }
    }
}

proof fn lemma_count_step(ps: Seq<Package>, f: spec_fn(Package) -> bool, i: int)
    requires
        0 <= i < ps.len(),
    ensures
        count_matching(ps.subrange(0, i + 1), f) == count_matching(ps.subrange(0, i), f) + if f(
            ps[i],
        ) {
            1nat
        } else {
            0nat
        },
{
    let a = ps.subrange(0, i + 1);
    assert(a.drop_last() =~= ps.subrange(0, i));
    assert(a.last() == ps[i]);
}

proof fn lemma_count_mono(ps: Seq<Package>, f: spec_fn(Package) -> bool, a: int, b: int)
    requires
        0 <= a <= b <= ps.len(),
    ensures
        count_matching(ps.subrange(0, a), f) <= count_matching(ps.subrange(0, b), f),
    decreases b - a,
{
    if a < b {
        lemma_count_mono(ps, f, a, b - 1);
        lemma_count_step(ps, f, b - 1);
    }
}

proof fn lemma_count_full(ps: Seq<Package>, f: spec_fn(Package) -> bool)
    ensures
        count_matching(ps.subrange(0, ps.len() as int), f) == count_matching(ps, f),
{
    assert(ps.subrange(0, ps.len() as int) =~= ps);
}

/// Whether two byte vectors hold the same bytes.
pub fn bytes_eq(a: &Vec<u8>, b: &Vec<u8>) -> (r: bool)
    ensures
        r == (a@ == b@),
{
    if a.len() != b.len() {
        return false;
    }
    let mut i: usize = 0;
    while i < a.len()
        invariant
            a@.len() == b@.len(),
            i <= a@.len(),
            forall|k: int| 0 <= k < i ==> a@[k] == b@[k],
        decreases a@.len() - i,
    {
        if a[i] != b[i] {
            return false;
        }
        i = i + 1;
    }
    proof {
        assert(a@ =~= b@);
    }
    true
}

/// The packages whose manifest path equals `m`.
pub open spec fn manifest_pred(m: Seq<u8>) -> spec_fn(Package) -> bool {
    |p: Package| p.manifest_path@ == m
}

/// The packages named `n`.
pub open spec fn name_pred(n: Seq<char>) -> spec_fn(Package) -> bool {
    |p: Package| p.name@ == n
}

/// The index of the single package whose manifest path is `manifest`.
/// `NotFound` when no package matches, `Ambiguous` when several do.
pub fn find_by_manifest(packages: &Vec<Package>, manifest: &Vec<u8>) -> (r: Result<
    usize,
    LookupError,
>)
    ensures
        match r {
            Ok(i) => i < packages@.len() && packages@[i as int].manifest_path@ == manifest@
                && count_matching(packages@, manifest_pred(manifest@)) == 1,
            Err(LookupError::NotFound) => count_matching(packages@, manifest_pred(manifest@))
                == 0,
            Err(LookupError::Ambiguous) => count_matching(packages@, manifest_pred(manifest@))
                >= 2,
        },
{
    let ghost f = manifest_pred(manifest@);
    let mut found: Option<usize> = None;
    let mut i: usize = 0;
    while i < packages.len()
        invariant
            i <= packages@.len(),
            f == manifest_pred(manifest@),
            match found {
                Some(fi) => fi < i && packages@[fi as int].manifest_path@ == manifest@
                    && count_matching(packages@.subrange(0, i as int), f) == 1,
                None => count_matching(packages@.subrange(0, i as int), f) == 0,
            },
        decreases packages@.len() - i,
    {
        let ghost i0 = i as int;
        if bytes_eq(&packages[i].manifest_path, manifest) {
            proof {
                lemma_count_step(packages@, f, i0);
            }
            if found.is_some() {
                proof {
                    lemma_count_mono(packages@, f, i0 + 1, packages@.len() as int);
                    lemma_count_full(packages@, f);
                }
                return Err(LookupError::Ambiguous);
            }
            found = Some(i);
        } else {
            proof {
                lemma_count_step(packages@, f, i0);
            }
        }
        i = i + 1;
    }
    proof {
        lemma_count_full(packages@, f);
    }
    match found {
        Some(fi) => Ok(fi),
        None => Err(LookupError::NotFound),
    }
}

/// The index of the single package named `name`. `NotFound` when no
/// package matches, `Ambiguous` when several do.
pub fn find_by_name(packages: &Vec<Package>, name: &String) -> (r: Result<usize, LookupError>)
    ensures
        match r {
            Ok(i) => i < packages@.len() && packages@[i as int].name@ == name@ && count_matching(
                packages@,
                name_pred(name@),
            ) == 1,
            Err(LookupError::NotFound) => count_matching(packages@, name_pred(name@)) == 0,
            Err(LookupError::Ambiguous) => count_matching(packages@, name_pred(name@)) >= 2,
        },
{
    let ghost f = name_pred(name@);
    let mut found: Option<usize> = None;
    let mut i: usize = 0;
    while i < packages.len()
        invariant
            i <= packages@.len(),
            f == name_pred(name@),
            match found {
                Some(fi) => fi < i && packages@[fi as int].name@ == name@ && count_matching(
                    packages@.subrange(0, i as int),
                    f,
                ) == 1,
                None => count_matching(packages@.subrange(0, i as int), f) == 0,
            },
        decreases packages@.len() - i,
    {
        let ghost i0 = i as int;
        if packages[i].name == *name {
            proof {
                lemma_count_step(packages@, f, i0);
            }
            if found.is_some() {
                proof {
                    lemma_count_mono(packages@, f, i0 + 1, packages@.len() as int);
                    lemma_count_full(packages@, f);
                }
                return Err(LookupError::Ambiguous);
            }
            found = Some(i);
        } else {
            proof {
                lemma_count_step(packages@, f, i0);
            }
        }
        i = i + 1;
    }
    proof {
        lemma_count_full(packages@, f);
    }
    match found {
        Some(fi) => Ok(fi),
        None => Err(LookupError::NotFound),
    }
}

/// The index of the last path separator, or a negative value when there
/// is none.
pub open spec fn last_slash(p: Seq<u8>) -> int
    decreases p.len(),
{
    if p.len() == 0 {
        -1
    } else if p[p.len() - 1] == 47 {
        p.len() - 1
    } else {
        last_slash(p.drop_last())
    }
}

/// The directory holding `p`: everything before the last separator; the
/// lone separator when it comes first; empty when there is none.
pub open spec fn parent_of(p: Seq<u8>) -> Seq<u8> {
    let k = last_slash(p);
    if k < 0 {
        Seq::empty()
    } else if k == 0 {
        p.subrange(0, 1)
    } else {
        p.subrange(0, k)
    }
}

fn copy_prefix(v: &Vec<u8>, k: usize) -> (r: Vec<u8>)
    requires
        k <= v@.len(),
    ensures
        r@ == v@.subrange(0, k as int),
{
    let mut r: Vec<u8> = Vec::new();
    let mut j: usize = 0;
    while j < k
        invariant
            j <= k <= v@.len(),
            r@ == v@.subrange(0, j as int),
        decreases k - j,
    {
        r.push(v[j]);
        proof {
            assert(r@ =~= v@.subrange(0, j + 1 as int));
        }
        j = j + 1;
    }
    r
}

/// Cut a manifest path down to the directory that contains it.
pub fn parent_dir(path: &Vec<u8>) -> (r: Vec<u8>)
    ensures
        r@ == parent_of(path@),
{
    let mut i: usize = path.len();
    proof {
        assert(path@.subrange(0, path@.len() as int) =~= path@);
    }
    while i > 0
        invariant
            i <= path@.len(),
            last_slash(path@) == last_slash(path@.subrange(0, i as int)),
        decreases i,
    {
        if path[i - 1] == 47 {
            proof {
                let pre = path@.subrange(0, i as int);
                assert(pre[pre.len() - 1] == 47);
                assert(last_slash(path@) == i - 1);
            }
            if i - 1 == 0 {
                return copy_prefix(path, 1);
            }
            return copy_prefix(path, i - 1);
        }
        proof {
            let pre = path@.subrange(0, i as int);
            assert(pre[pre.len() - 1] != 47);
            assert(pre.drop_last() =~= path@.subrange(0, i - 1 as int));
        }
        i = i - 1;
    }
    proof {
        assert(path@.subrange(0, 0) =~= Seq::<u8>::empty());
        assert(last_slash(path@) == -1);
    }
    Vec::new()
}

} // verus!
