//! Selecting the example targets that are buildable under an enabled
//! feature set.

use vstd::prelude::*;
use crate::names::{
    names_set, has_name, distinct_names, contains_name, insert_name, lemma_names_set_contains,
};

verus! {

/// A build target: its name, its kind tags, and the features it requires.
pub struct Target {
    pub name: String,
    pub kinds: Vec<String>,
    pub required_features: Vec<String>,
}

/// The target is tagged as an example.
pub open spec fn is_example(t: Target) -> bool {
    has_name(t.kinds@, "example"@)
}

/// Every feature the target requires is enabled.
pub open spec fn required_enabled(t: Target, enabled: Set<Seq<char>>) -> bool {
    forall|j: int|
        0 <= j < t.required_features@.len() ==> enabled.contains(
            #[trigger] t.required_features@[j]@,
        )
}

/// The target is an example whose required features are all enabled.
pub open spec fn selected(t: Target, enabled: Set<Seq<char>>) -> bool {
    is_example(t) && required_enabled(t, enabled)
}

fn all_names_in(req: &Vec<String>, enabled: &Vec<String>) -> (r: bool)
    ensures
        r == (forall|j: int| 0 <= j < req@.len() ==> has_name(enabled@, #[trigger] req@[j]@)),
{
    let mut j: usize = 0;
    while j < req.len()
        invariant
            j <= req@.len(),
            forall|k: int| 0 <= k < j ==> has_name(enabled@, #[trigger] req@[k]@),
        decreases req@.len() - j,
    {
        if !contains_name(enabled, &req[j]) {
            return false;
        }
        j = j + 1;
    }
    true
}

/// The names, without duplicates, of exactly those targets that are tagged
/// `example` and whose required features are all in `enabled`.
pub fn select_examples(targets: &Vec<Target>, enabled: &Vec<String>) -> (r: Vec<String>)
    ensures
        distinct_names(r@),
        forall|n: Seq<char>|
            #[trigger] names_set(r@).contains(n) <==> exists|i: int|
                0 <= i < targets@.len() && selected(
                    #[trigger] targets@[i],
                    names_set(enabled@),
                ) && targets@[i].name@ == n,
{
    broadcast use lemma_names_set_contains;

    let ex = String::from_str("example");
    let mut r: Vec<String> = Vec::new();
    let mut i: usize = 0;
    while i < targets.len()
        invariant
            i <= targets@.len(),
            ex@ == "example"@,
            distinct_names(r@),
            forall|n: Seq<char>|
                #[trigger] names_set(r@).contains(n) <==> exists|k: int|
                    0 <= k < i && selected(#[trigger] targets@[k], names_set(enabled@))
                        && targets@[k].name@ == n,
        decreases targets@.len() - i,
    {
        let ghost i0 = i as int;
        let ghost r0 = r@;
        let is_ex = contains_name(&targets[i].kinds, &ex);
        let mut take = false;
        if is_ex {
            take = all_names_in(&targets[i].required_features, enabled);
        }
        proof {
            assert(take == selected(targets@[i0], names_set(enabled@))) by {
                let t = targets@[i0];
                if take {
                    assert forall|j: int| 0 <= j < t.required_features@.len() implies names_set(
                        enabled@,
                    ).contains(#[trigger] t.required_features@[j]@) by {
                        assert(t.required_features@[j] == targets@[i0].required_features@[j]);
                        assert(has_name(enabled@, targets@[i0].required_features@[j]@));
                        lemma_names_set_contains(enabled@, t.required_features@[j]@);
                    }
                } else {
                    if selected(t, names_set(enabled@)) {
                        assert(has_name(t.kinds@, ex@));
                        assert forall|j: int| 0 <= j < t.required_features@.len() implies has_name(
                            enabled@,
                            #[trigger] t.required_features@[j]@,
                        ) by {
                            lemma_names_set_contains(enabled@, t.required_features@[j]@);
                            assert(names_set(enabled@).contains(t.required_features@[j]@));
                        }
                    }
                }
            }
        }
        if take {
            let name = targets[i].name.clone();
            let ghost nv = name@;
            insert_name(&mut r, name);
            proof {
                assert(names_set(r@) == names_set(r0).insert(nv));
            }
        }
        proof {
            assert forall|n: Seq<char>| #[trigger] names_set(r@).contains(n) <==> exists|k: int|
                0 <= k < i0 + 1 && selected(#[trigger] targets@[k], names_set(enabled@))
                    && targets@[k].name@ == n by {
                if names_set(r@).contains(n) {
                    if names_set(r0).contains(n) {
                        let k = choose|k: int|
                            0 <= k < i0 && selected(#[trigger] targets@[k], names_set(enabled@))
                                && targets@[k].name@ == n;
                        assert(0 <= k < i0 + 1 && selected(targets@[k], names_set(enabled@))
                            && targets@[k].name@ == n);
                    } else {
                        assert(selected(targets@[i0], names_set(enabled@)) && targets@[i0].name@
                            == n);
                    }
                }
                if exists|k: int|
                    0 <= k < i0 + 1 && selected(#[trigger] targets@[k], names_set(enabled@))
                        && targets@[k].name@ == n {
                    let k = choose|k: int|
                        0 <= k < i0 + 1 && selected(#[trigger] targets@[k], names_set(enabled@))
                            && targets@[k].name@ == n;
                    if k < i0 {
                        assert(names_set(r0).contains(n));
                    }
                }
            }
        }
        i = i + 1;
    }
    r
}

} // verus!
