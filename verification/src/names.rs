//! Vectors of strings treated as sets of names.
//!
//! Feature names, package names and dependency names are all plain strings.
//! Small vectors without duplicates stand for sets of such names; the spec
//! view of a vector is the set of the views of its elements.

use vstd::prelude::*;

verus! {

/// The views of the strings in `v`, in order.
pub open spec fn names_seq(v: Seq<String>) -> Seq<Seq<char>> {
    v.map_values(|s: String| s@)
}

/// The set of names held by `v`.
pub open spec fn names_set(v: Seq<String>) -> Set<Seq<char>> {
    names_seq(v).to_set()
}

/// Some string in `v` views to `name`.
pub open spec fn has_name(v: Seq<String>, name: Seq<char>) -> bool {
    exists|i: int| 0 <= i < v.len() && v[i]@ == name
}

/// No two strings in `v` view to the same name.
pub open spec fn distinct_names(v: Seq<String>) -> bool {
    forall|i: int, j: int| 0 <= i < j < v.len() ==> v[i]@ != v[j]@
}

pub broadcast proof fn lemma_names_set_contains(v: Seq<String>, name: Seq<char>)
    ensures
        #[trigger] names_set(v).contains(name) <==> has_name(v, name),
{
    if names_set(v).contains(name) {
        let i = choose|i: int| 0 <= i < names_seq(v).len() && names_seq(v)[i] == name;
        assert(v[i]@ == name);
    }
    if has_name(v, name) {
        let i = choose|i: int| 0 <= i < v.len() && v[i]@ == name;
        assert(names_seq(v)[i] == name);
        assert(names_seq(v).contains(name));
    }
}

pub broadcast proof fn lemma_names_set_finite(v: Seq<String>)
    ensures
        #[trigger] names_set(v).finite(),
{
    vstd::seq_lib::seq_to_set_is_finite::<Seq<char>>(names_seq(v));
}

/// A vector without duplicate names holds exactly as many strings as
/// its name set has elements.
pub proof fn lemma_distinct_names_card(v: Seq<String>)
    requires
        distinct_names(v),
    ensures
        names_set(v).len() == v.len(),
{
    assert(names_seq(v).no_duplicates());
    names_seq(v).unique_seq_to_set();
}

pub proof fn lemma_names_set_push(v: Seq<String>, s: String)
    ensures
        names_set(v.push(s)) == names_set(v).insert(s@),
{
    assert(names_seq(v.push(s)) =~= names_seq(v).push(s@));
    names_seq(v).lemma_push_to_set_commute(s@);
    assert(names_set(v.push(s)) =~= names_set(v).insert(s@));
}

pub proof fn lemma_distinct_names_push(v: Seq<String>, s: String)
    requires
        distinct_names(v),
        !has_name(v, s@),
    ensures
        distinct_names(v.push(s)),
{
    let w = v.push(s);
    assert forall|i: int, j: int| 0 <= i < j < w.len() implies w[i]@ != w[j]@ by {
        if j == v.len() {
            assert(v[i]@ != s@);
        }
    }
}

/// Removing the last string of a duplicate-free vector removes exactly
/// its name from the name set.
pub proof fn lemma_names_set_drop_last(v: Seq<String>)
    requires
        v.len() > 0,
        distinct_names(v),
    ensures
        names_set(v.drop_last()) == names_set(v).remove(v.last()@),
{
    let d = v.drop_last();
    assert forall|n: Seq<char>| names_set(d).contains(n)
        <==> names_set(v).remove(v.last()@).contains(n) by {
        lemma_names_set_contains(d, n);
        lemma_names_set_contains(v, n);
        if has_name(d, n) {
            let i = choose|i: int| 0 <= i < d.len() && d[i]@ == n;
            assert(v[i]@ == n);
            assert(v[i]@ != v[v.len() - 1]@);
        }
        if names_set(v).remove(v.last()@).contains(n) {
            let i = choose|i: int| 0 <= i < v.len() && v[i]@ == n;
            assert(i < v.len() - 1);
            assert(d[i]@ == n);
        }
    }
    assert(names_set(d) =~= names_set(v).remove(v.last()@));
}

/// Whether some string in `v` equals `name`.
pub fn contains_name(v: &Vec<String>, name: &String) -> (r: bool)
    ensures
        r == has_name(v@, name@),
{
    let mut i: usize = 0;
    while i < v.len()
        invariant
            i <= v@.len(),
            forall|k: int| 0 <= k < i ==> v@[k]@ != name@,
        decreases v@.len() - i,
    {
        if v[i] == *name {
            assert(v@[i as int]@ == name@);
            return true;
        }
        i = i + 1;
    }
    false
}

/// Push `name` unless an equal string is already present; the name set
/// gains exactly `name`, and distinctness is preserved.
pub fn insert_name(v: &mut Vec<String>, name: String) -> (added: bool)
    ensures
        added == !has_name(old(v)@, name@),
        added ==> final(v)@ == old(v)@.push(name),
        !added ==> final(v)@ == old(v)@,
        names_set(final(v)@) == names_set(old(v)@).insert(name@),
        distinct_names(old(v)@) ==> distinct_names(final(v)@),
{
    broadcast use lemma_names_set_contains;
    if contains_name(v, &name) {
        proof {
            assert(names_set(v@) =~= names_set(v@).insert(name@));
        }
        false
    } else {
        let ghost oldv = v@;
        v.push(name);
        proof {
            assert(names_seq(v@) =~= names_seq(oldv).push(name@));
            assert forall|n: Seq<char>| names_set(v@).contains(n)
                <==> names_set(oldv).insert(name@).contains(n) by {
                lemma_names_set_contains(v@, n);
                lemma_names_set_contains(oldv, n);
                if has_name(v@, n) && n != name@ {
                    let i = choose|i: int| 0 <= i < v@.len() && v@[i]@ == n;
                    assert(v@[i] == oldv[i]);
                }
                if has_name(oldv, n) {
                    let i = choose|i: int| 0 <= i < oldv.len() && oldv[i]@ == n;
                    assert(v@[i]@ == n);
                }
                if n == name@ {
                    assert(v@[v@.len() - 1]@ == n);
                }
            }
            assert(names_set(v@) =~= names_set(oldv).insert(name@));
        }
        true
    }
}

/// An element-wise copy of `v`.
pub fn clone_names(v: &Vec<String>) -> (r: Vec<String>)
    ensures
        r@ == v@,
{
    let mut r: Vec<String> = Vec::new();
    let mut i: usize = 0;
    while i < v.len()
        invariant
            i <= v@.len(),
            r@ == v@.subrange(0, i as int),
        decreases v@.len() - i,
    {
        r.push(v[i].clone());
        proof {
            assert(r@ =~= v@.subrange(0, i + 1 as int));
        }
        i = i + 1;
    }
    proof {
        assert(r@ =~= v@);
    }
    r
}


/// A copy of `v` without any string equal to `name`; the name set loses
/// exactly `name`.
pub fn without_name(v: &Vec<String>, name: &String) -> (r: Vec<String>)
    requires
        distinct_names(v@),
    ensures
        distinct_names(r@),
        names_set(r@) == names_set(v@).remove(name@),
{
    broadcast use lemma_names_set_contains;

    let mut r: Vec<String> = Vec::new();
    let mut i: usize = 0;
    while i < v.len()
        invariant
            i <= v@.len(),
            distinct_names(v@),
            distinct_names(r@),
            forall|nm: Seq<char>|
                #[trigger] names_set(r@).contains(nm) <==> (exists|k: int|
                    0 <= k < i && (#[trigger] v@[k])@ == nm) && nm != name@,
        decreases v@.len() - i,
    {
        let ghost i0 = i as int;
        let ghost r0 = r@;
        if !(v[i] == *name) {
            insert_name(&mut r, v[i].clone());
        }
        proof {
            assert forall|nm: Seq<char>| #[trigger] names_set(r@).contains(nm) <==> (exists|
                k: int,
            | 0 <= k < i0 + 1 && (#[trigger] v@[k])@ == nm) && nm != name@ by {
                if names_set(r@).contains(nm) {
                    if names_set(r0).contains(nm) {
                        let k = choose|k: int| 0 <= k < i0 && (#[trigger] v@[k])@ == nm;
                        assert(0 <= k < i0 + 1 && v@[k]@ == nm);
                    } else {
                        assert(nm == v@[i0]@);
                        assert(0 <= i0 < i0 + 1 && v@[i0]@ == nm);
                    }
                }
                if (exists|k: int| 0 <= k < i0 + 1 && (#[trigger] v@[k])@ == nm) && nm != name@ {
                    let k = choose|k: int| 0 <= k < i0 + 1 && (#[trigger] v@[k])@ == nm;
                    if k < i0 {
                        assert(names_set(r0).contains(nm));
                    }
                }
            }
        }
        i = i + 1;
    }
    proof {
        assert forall|nm: Seq<char>| #[trigger] names_set(r@).contains(nm) <==> names_set(
            v@,
        ).remove(name@).contains(nm) by {
            lemma_names_set_contains(v@, nm);
        }
        assert(names_set(r@) =~= names_set(v@).remove(name@));
    }
    r
}

} // verus!
