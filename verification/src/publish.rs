//! Publish-order planning over the intra-workspace dependency graph.
//!
//! A workspace member depends on another when its dependency list holds the
//! other's package name. A valid publish order lists every member exactly
//! once, each only after all members it depends on; such an order exists
//! exactly when the graph is acyclic.

use vstd::prelude::*;
use vstd::pervasive::VecAdditionalExecFns;
use crate::names::{
    names_seq, names_set, has_name, distinct_names, insert_name, without_name,
    lemma_names_set_contains, lemma_names_set_finite, lemma_distinct_names_card,
    lemma_names_set_push, lemma_distinct_names_push,
};
use vstd::seq_lib::seq_to_set_is_finite;
use vstd::set_lib::lemma_len_subset;

verus! {

/// A workspace member: its package name and the names of its declared
/// dependencies.
pub struct Member {
    pub name: String,
    pub deps: Vec<String>,
}

/// Pairwise distinct member names.
pub open spec fn members_wf(ms: Seq<Member>) -> bool {
    forall|i: int, j: int| 0 <= i < j < ms.len() ==> ms[i].name@ != ms[j].name@
}

/// Member `i` depends on member `j`: `j`'s name is among `i`'s dependency
/// names.
pub open spec fn edge(ms: Seq<Member>, i: int, j: int) -> bool {
    &&& 0 <= i < ms.len()
    &&& 0 <= j < ms.len()
    &&& has_name(ms[i].deps@, ms[j].name@)
}

/// The set of the members' names.
pub open spec fn member_name_set(ms: Seq<Member>) -> Set<Seq<char>> {
    ms.map_values(|m: Member| m.name@).to_set()
}

pub broadcast proof fn lemma_member_name_set_contains(ms: Seq<Member>, n: Seq<char>)
    ensures
        #[trigger] member_name_set(ms).contains(n) <==> exists|i: int|
            0 <= i < ms.len() && ms[i].name@ == n,
{
    let names = ms.map_values(|m: Member| m.name@);
    if member_name_set(ms).contains(n) {
        let i = choose|i: int| 0 <= i < names.len() && names[i] == n;
        assert(ms[i].name@ == n);
    }
    if exists|i: int| 0 <= i < ms.len() && ms[i].name@ == n {
        let i = choose|i: int| 0 <= i < ms.len() && ms[i].name@ == n;
        assert(names[i] == n);
        assert(names.contains(n));
    }
}

/// `p` lists member indices that form a cycle: consecutive members are
/// linked by dependency edges, and the last depends on the first.
pub open spec fn is_cycle(ms: Seq<Member>, p: Seq<int>) -> bool {
    &&& p.len() >= 1
    &&& forall|k: int| 0 <= k < p.len() ==> 0 <= #[trigger] p[k] < ms.len()
    &&& forall|k: int| 0 <= k < p.len() - 1 ==> edge(ms, #[trigger] p[k], p[k + 1])
    &&& edge(ms, p[p.len() - 1], p[0])
}

/// The intra-workspace dependency graph has a cycle.
pub open spec fn cyclic(ms: Seq<Member>) -> bool {
    exists|p: Seq<int>| is_cycle(ms, p)
}

/// `a` occurs somewhere before `b` in `names`.
pub open spec fn appears_before(names: Seq<Seq<char>>, a: Seq<char>, b: Seq<char>) -> bool {
    exists|ka: int, kb: int|
        0 <= ka < kb < names.len() && (#[trigger] names[ka]) == a && (#[trigger] names[kb]) == b
}

/// In a set of members each of which depends on another of the set, the
/// dependency graph is cyclic.
#[verifier::rlimit(60)]
proof fn lemma_stuck_cyclic(ms: Seq<Member>, alive: Set<int>)
    requires
        alive.finite(),
        alive.len() > 0,
        forall|i: int| #[trigger] alive.contains(i) ==> 0 <= i < ms.len(),
        forall|i: int| #[trigger] alive.contains(i) ==> exists|k: int|
            #[trigger] alive.contains(k) && edge(ms, i, k),
    ensures
        cyclic(ms),
{
    let start = alive.choose();
    assert(alive.contains(start));
    let p = build_path(ms, alive, start, alive.len());
    assert(p.len() > alive.len());
    assert(!p.no_duplicates()) by {
        if p.no_duplicates() {
            p.unique_seq_to_set();
            assert(p.to_set().subset_of(alive)) by {
                assert forall|x: int| p.to_set().contains(x) implies alive.contains(x) by {
                    let k = choose|k: int| 0 <= k < p.len() && p[k] == x;
                    assert(alive.contains(p[k]));
                }
            }
            lemma_len_subset(p.to_set(), alive);
        }
    }
    let (k1, k2) = choose|k1: int, k2: int|
        0 <= k1 < k2 < p.len() && (#[trigger] p[k1]) == (#[trigger] p[k2]);
    let c = p.subrange(k1, k2);
    assert(is_cycle(ms, c)) by {
        assert(c.len() >= 1);
        assert forall|k: int| 0 <= k < c.len() implies 0 <= #[trigger] c[k] < ms.len() by {
            assert(c[k] == p[k1 + k]);
            assert(alive.contains(p[k1 + k]));
        }
        assert forall|k: int| 0 <= k < c.len() - 1 implies edge(ms, #[trigger] c[k], c[k + 1]) by {
            assert(c[k] == p[k1 + k] && c[k + 1] == p[k1 + k + 1]);
            assert(edge(ms, p[k1 + k], p[k1 + k + 1]));
        }
        assert(c[c.len() - 1] == p[k2 - 1]);
        assert(edge(ms, p[k2 - 1], p[k2]));
        assert(c[0] == p[k1]);
    }
}

/// A path of the requested length through `alive`, following dependency
/// edges from `start`.
proof fn build_path(ms: Seq<Member>, alive: Set<int>, start: int, len: nat) -> (p: Seq<int>)
    requires
        alive.contains(start),
        forall|i: int| #[trigger] alive.contains(i) ==> 0 <= i < ms.len(),
        forall|i: int| #[trigger] alive.contains(i) ==> exists|k: int|
            #[trigger] alive.contains(k) && edge(ms, i, k),
    ensures
        p.len() == len + 1,
        p[0] == start,
        forall|k: int| 0 <= k < p.len() ==> alive.contains(#[trigger] p[k]),
        forall|k: int| 0 <= k < p.len() - 1 ==> edge(ms, #[trigger] p[k], p[k + 1]),
    decreases len,
{
    if len == 0 {
        let p = seq![start];
        p
    } else {
        let q = build_path(ms, alive, start, (len - 1) as nat);
        let last = q[q.len() - 1];
        assert(alive.contains(last));
        let k = choose|k: int| #[trigger] alive.contains(k) && edge(ms, last, k);
        let p = q.push(k);
        assert forall|t: int| 0 <= t < p.len() - 1 implies edge(ms, #[trigger] p[t], p[t + 1]) by {
            if t < q.len() - 1 {
                assert(p[t] == q[t] && p[t + 1] == q[t + 1]);
                assert(edge(ms, q[t], q[t + 1]));
            } else {
                assert(p[t] == last && p[t + 1] == k);
            }
        }
        p
    }
}

/// The first index holding `n`.
spec fn index_of(names: Seq<Seq<char>>, n: Seq<char>) -> int {
    choose|k: int| 0 <= k < names.len() && names[k] == n
}

proof fn lemma_appears_before_index(names: Seq<Seq<char>>, a: Seq<char>, b: Seq<char>)
    requires
        names.no_duplicates(),
        appears_before(names, a, b),
    ensures
        0 <= index_of(names, a) < index_of(names, b) < names.len(),
        names[index_of(names, a)] == a,
        names[index_of(names, b)] == b,
{
    let (ka, kb) = choose|ka: int, kb: int|
        0 <= ka < kb < names.len() && (#[trigger] names[ka]) == a && (#[trigger] names[kb]) == b;
    assert(names.contains(a)) by {
        assert(names[ka] == a);
    }
    let ia = index_of(names, a);
    let ib = index_of(names, b);
    assert(0 <= ia < names.len() && names[ia] == a);
    assert(0 <= ib < names.len() && names[ib] == b);
    assert(ia == ka) by {
        if ia != ka {
            assert(names[ia] == names[ka]);
        }
    }
    assert(ib == kb) by {
        if ib != kb {
            assert(names[ib] == names[kb]);
        }
    }
}

/// Along a dependency path, positions in such an order strictly decrease.
proof fn lemma_path_positions_decrease(
    ms: Seq<Member>,
    onames: Seq<Seq<char>>,
    p: Seq<int>,
    t: int,
)
    requires
        onames.no_duplicates(),
        forall|i: int, j: int|
            #[trigger] edge(ms, i, j) ==> appears_before(onames, ms[j].name@, ms[i].name@),
        is_cycle(ms, p),
        0 <= t < p.len(),
    ensures
        onames.contains(ms[p[t]].name@),
        index_of(onames, ms[p[t]].name@) <= index_of(onames, ms[p[0]].name@) - t,
    decreases t,
{
    if t == 0 {
        // the last element of the cycle depends on the first, so the first
        // element's name appears in the order
        assert(edge(ms, p[p.len() - 1], p[0]));
        lemma_appears_before_index(onames, ms[p[0]].name@, ms[p[p.len() - 1]].name@);
        assert(onames[index_of(onames, ms[p[0]].name@)] == ms[p[0]].name@);
    } else {
        lemma_path_positions_decrease(ms, onames, p, t - 1);
        assert(edge(ms, p[t - 1], p[t]));
        lemma_appears_before_index(onames, ms[p[t]].name@, ms[p[t - 1]].name@);
    }
}

/// An order in which every dependency precedes its dependent rules a cycle
/// out.
pub proof fn lemma_order_excludes_cycle(ms: Seq<Member>, onames: Seq<Seq<char>>)
    requires
        onames.no_duplicates(),
        forall|i: int, j: int|
            #[trigger] edge(ms, i, j) ==> appears_before(onames, ms[j].name@, ms[i].name@),
    ensures
        !cyclic(ms),
{
    if cyclic(ms) {
        let p = choose|p: Seq<int>| is_cycle(ms, p);
        lemma_path_positions_decrease(ms, onames, p, p.len() - 1);
        assert(edge(ms, p[p.len() - 1], p[0]));
        lemma_appears_before_index(onames, ms[p[0]].name@, ms[p[p.len() - 1]].name@);
    }
}

/// The planner's failure: the intra-workspace graph has a cycle.
#[derive(Debug)]
pub struct CycleError;

/// Some member bears the name `n`.
pub open spec fn has_member(ms: Seq<Member>, n: Seq<char>) -> bool {
    exists|i: int| 0 <= i < ms.len() && ms[i].name@ == n
}

proof fn lemma_member_card(ms: Seq<Member>)
    requires
        members_wf(ms),
    ensures
        member_name_set(ms).finite(),
        member_name_set(ms).len() == ms.len(),
{
    let names = ms.map_values(|m: Member| m.name@);
    assert(names.no_duplicates());
    seq_to_set_is_finite::<Seq<char>>(names);
    names.unique_seq_to_set();
}

/// Index of the member named `name`, if there is one.
pub fn find_member(members: &Vec<Member>, name: &String) -> (r: Option<usize>)
    ensures
        match r {
            Some(k) => k < members@.len() && members@[k as int].name@ == name@,
            None => !has_member(members@, name@),
        },
{
    let mut i: usize = 0;
    while i < members.len()
        invariant
            i <= members@.len(),
            forall|k: int| 0 <= k < i ==> members@[k].name@ != name@,
        decreases members@.len() - i,
    {
        if members[i].name == *name {
            return Some(i);
        }
        i = i + 1;
    }
    None
}

proof fn lemma_some_alive(ms: Seq<Member>, removed: Seq<bool>, order: Seq<String>)
    requires
        members_wf(ms),
        removed.len() == ms.len(),
        distinct_names(order),
        order.len() < ms.len(),
        forall|nm: Seq<char>|
            #[trigger] names_set(order).contains(nm) <==> exists|k: int|
                0 <= k < ms.len() && (#[trigger] removed[k]) && ms[k].name@ == nm,
    ensures
        exists|k: int| 0 <= k < ms.len() && !(#[trigger] removed[k]),
{
    if forall|k: int| 0 <= k < ms.len() ==> #[trigger] removed[k] {
        assert forall|nm: Seq<char>| member_name_set(ms).contains(nm) implies names_set(
            order,
        ).contains(nm) by {
            lemma_member_name_set_contains(ms, nm);
            let i = choose|i: int| 0 <= i < ms.len() && ms[i].name@ == nm;
            assert(removed[i]);
        }
        lemma_member_card(ms);
        lemma_distinct_names_card(order);
        lemma_names_set_finite(order);
        lemma_len_subset(member_name_set(ms), names_set(order));
        assert(false);
    }
}

proof fn lemma_finished(ms: Seq<Member>, removed: Seq<bool>, order: Seq<String>)
    requires
        members_wf(ms),
        removed.len() == ms.len(),
        distinct_names(order),
        order.len() == ms.len(),
        forall|nm: Seq<char>|
            #[trigger] names_set(order).contains(nm) <==> exists|k: int|
                0 <= k < ms.len() && (#[trigger] removed[k]) && ms[k].name@ == nm,
    ensures
        names_set(order) == member_name_set(ms),
        forall|k: int| 0 <= k < ms.len() ==> #[trigger] removed[k],
{
    lemma_member_card(ms);
    lemma_distinct_names_card(order);
    lemma_names_set_finite(order);
    assert(names_set(order).subset_of(member_name_set(ms))) by {
        assert forall|nm: Seq<char>| names_set(order).contains(nm) implies member_name_set(
            ms,
        ).contains(nm) by {
            let k = choose|k: int|
                0 <= k < ms.len() && (#[trigger] removed[k]) && ms[k].name@ == nm;
            lemma_member_name_set_contains(ms, nm);
        }
    }
    assert forall|nm: Seq<char>| member_name_set(ms).contains(nm) implies names_set(
        order,
    ).contains(nm) by {
        if !names_set(order).contains(nm) {
            names_set(order).lemma_subset_not_in_lt(member_name_set(ms), nm);
        }
    }
    assert(names_set(order) =~= member_name_set(ms));
    assert forall|k: int| 0 <= k < ms.len() implies #[trigger] removed[k] by {
        lemma_member_name_set_contains(ms, ms[k].name@);
        assert(member_name_set(ms).contains(ms[k].name@));
        assert(names_set(order).contains(ms[k].name@));
        let w = choose|w: int|
            0 <= w < ms.len() && (#[trigger] removed[w]) && ms[w].name@ == ms[k].name@;
        assert(w == k) by {
            if w != k {
                assert(ms[w].name@ != ms[k].name@);
            }
        }
    }
}

/// A publish order for the workspace members: every member's name exactly
/// once, each member only after every member it depends on. Fails exactly
/// when the intra-workspace dependency graph has a cycle.
#[verifier::rlimit(100)]
pub fn publish_order(members: &Vec<Member>) -> (r: Result<Vec<String>, CycleError>)
    requires
        members_wf(members@),
    ensures
        match r {
            Ok(order) => {
                &&& order@.len() == members@.len()
                &&& distinct_names(order@)
                &&& names_set(order@) == member_name_set(members@)
                &&& forall|i: int, j: int|
                    #[trigger] edge(members@, i, j) ==> appears_before(
                        names_seq(order@),
                        members@[j].name@,
                        members@[i].name@,
                    )
                &&& !cyclic(members@)
            },
            Err(_) => cyclic(members@),
        },
{
    broadcast use lemma_names_set_contains;

    let ghost ms = members@;
    let n = members.len();
    // per member, the names of the workspace members it depends on,
    // without duplicates
    let mut deps_left: Vec<Vec<String>> = Vec::new();
    let mut i: usize = 0;
    while i < n
        invariant
            n == ms.len(),
            ms == members@,
            members_wf(ms),
            i <= n,
            deps_left@.len() == i,
            forall|a: int| 0 <= a < i ==> distinct_names(#[trigger] deps_left@[a]@),
            forall|a: int, nm: Seq<char>|
                0 <= a < i ==> (#[trigger] names_set(deps_left@[a]@).contains(nm) <==> exists|
                    k: int,
                |
                    0 <= k < n && #[trigger] edge(ms, a, k) && ms[k].name@ == nm),
        decreases n - i,
    {
        let ghost i0 = i as int;
        let mut dl: Vec<String> = Vec::new();
        let mut j: usize = 0;
        let nd = members[i].deps.len();
        while j < nd
            invariant
                n == ms.len(),
                ms == members@,
                members_wf(ms),
                i0 == i as int,
                0 <= i0 < n,
                nd == ms[i0].deps@.len(),
                j <= nd,
                distinct_names(dl@),
                forall|nm: Seq<char>|
                    #[trigger] names_set(dl@).contains(nm) <==> (exists|jj: int|
                        0 <= jj < j && (#[trigger] ms[i0].deps@[jj])@ == nm) && has_member(ms, nm),
            decreases nd - j,
        {
            let ghost j0 = j as int;
            let ghost dl0 = dl@;
            let hit = find_member(members, &members[i].deps[j]);
            if hit.is_some() {
                insert_name(&mut dl, members[i].deps[j].clone());
            }
            proof {
                let dv = ms[i0].deps@[j0]@;
                assert forall|nm: Seq<char>| #[trigger] names_set(dl@).contains(nm) <==> (exists|
                    jj: int,
                |
                    0 <= jj < j0 + 1 && (#[trigger] ms[i0].deps@[jj])@ == nm) && has_member(
                    ms,
                    nm,
                ) by {
                    if names_set(dl@).contains(nm) {
                        if names_set(dl0).contains(nm) {
                            let jj = choose|jj: int|
                                0 <= jj < j0 && (#[trigger] ms[i0].deps@[jj])@ == nm;
                            assert(0 <= jj < j0 + 1 && ms[i0].deps@[jj]@ == nm);
                        } else {
                            assert(nm == dv);
                            assert(0 <= j0 < j0 + 1 && ms[i0].deps@[j0]@ == nm);
                        }
                    }
                    if (exists|jj: int| 0 <= jj < j0 + 1 && (#[trigger] ms[i0].deps@[jj])@ == nm)
                        && has_member(ms, nm) {
                        let jj = choose|jj: int|
                            0 <= jj < j0 + 1 && (#[trigger] ms[i0].deps@[jj])@ == nm;
                        if jj < j0 {
                            assert(names_set(dl0).contains(nm));
                        } else {
                            assert(nm == dv);
                            assert(hit.is_some());
                        }
                    }
                }
            }
            j = j + 1;
        }
        deps_left.push(dl);
        proof {
            assert forall|a: int, nm: Seq<char>| 0 <= a < i0 + 1 implies (#[trigger] names_set(
                deps_left@[a]@,
            ).contains(nm) <==> exists|k: int|
                0 <= k < n && #[trigger] edge(ms, a, k) && ms[k].name@ == nm) by {
                if a < i0 {
                    assert(deps_left@[a] == deps_left@.drop_last()[a]);
                } else {
                    assert(deps_left@[a]@ == dl@);
                    if names_set(dl@).contains(nm) {
                        let jj = choose|jj: int|
                            0 <= jj < nd && (#[trigger] ms[i0].deps@[jj])@ == nm;
                        let k = choose|k: int| 0 <= k < ms.len() && ms[k].name@ == nm;
                        assert(has_name(ms[a].deps@, ms[k].name@));
                        assert(edge(ms, a, k));
                    }
                    if exists|k: int| 0 <= k < n && #[trigger] edge(ms, a, k) && ms[k].name@
                        == nm {
                        let k = choose|k: int|
                            0 <= k < n && #[trigger] edge(ms, a, k) && ms[k].name@ == nm;
                        let jj = choose|jj: int|
                            0 <= jj < ms[a].deps@.len() && ms[a].deps@[jj]@ == ms[k].name@;
                        assert(0 <= jj < nd && ms[i0].deps@[jj]@ == nm);
                        assert(has_member(ms, nm));
                    }
                }
            }
        }
        i = i + 1;
    }
    let mut removed: Vec<bool> = Vec::new();
    let mut t: usize = 0;
    while t < n
        invariant
            t <= n,
            removed@.len() == t,
            forall|k: int| 0 <= k < t ==> !(#[trigger] removed@[k]),
        decreases n - t,
    {
        removed.push(false);
        t = t + 1;
    }
    let mut order: Vec<String> = Vec::new();
    proof {
        assert forall|a: int, nm: Seq<char>|
            0 <= a < n && !removed@[a] implies (#[trigger] names_set(
            deps_left@[a]@,
        ).contains(nm) <==> exists|k: int|
            0 <= k < n && !(#[trigger] removed@[k]) && edge(ms, a, k) && ms[k].name@ == nm) by {
            if names_set(deps_left@[a]@).contains(nm) {
                let k = choose|k: int| 0 <= k < n && #[trigger] edge(ms, a, k) && ms[k].name@ == nm;
                assert(!removed@[k] && edge(ms, a, k) && ms[k].name@ == nm);
            }
            if exists|k: int|
                0 <= k < n && !(#[trigger] removed@[k]) && edge(ms, a, k) && ms[k].name@ == nm {
                let k = choose|k: int|
                    0 <= k < n && !(#[trigger] removed@[k]) && edge(ms, a, k) && ms[k].name@ == nm;
                assert(0 <= k < n && edge(ms, a, k) && ms[k].name@ == nm);
                assert(names_set(deps_left@[a]@).contains(nm));
            }
        }
    }
    while order.len() < n
        invariant
            n == ms.len(),
            ms == members@,
            members_wf(ms),
            removed@.len() == n,
            deps_left@.len() == n,
            order@.len() <= n,
            distinct_names(order@),
            forall|nm: Seq<char>|
                #[trigger] names_set(order@).contains(nm) <==> exists|k: int|
                    0 <= k < n && (#[trigger] removed@[k]) && ms[k].name@ == nm,
            forall|a: int| 0 <= a < n ==> distinct_names(#[trigger] deps_left@[a]@),
            forall|a: int, nm: Seq<char>|
                0 <= a < n && !removed@[a] ==> (#[trigger] names_set(
                    deps_left@[a]@,
                ).contains(nm) <==> exists|k: int|
                    0 <= k < n && !(#[trigger] removed@[k]) && edge(ms, a, k) && ms[k].name@
                        == nm),
            forall|i2: int, j2: int|
                #[trigger] edge(ms, i2, j2) && removed@[i2] ==> removed@[j2] && appears_before(
                    names_seq(order@),
                    ms[j2].name@,
                    ms[i2].name@,
                ),
        decreases n - order@.len(),
    {
        // find a member with no unpublished dependencies left
        let mut pick: usize = n;
        let mut idx: usize = 0;
        while idx < n
            invariant
                n == ms.len(),
                removed@.len() == n,
                deps_left@.len() == n,
                idx <= n,
                pick <= n,
                pick == n ==> forall|t2: int|
                    0 <= t2 < idx ==> (removed@[t2] || #[trigger] deps_left@[t2]@.len() > 0),
                pick < n ==> !removed@[pick as int] && deps_left@[pick as int]@.len() == 0,
            decreases n - idx,
        {
            if pick == n && !removed[idx] && deps_left[idx].len() == 0 {
                pick = idx;
            }
            idx = idx + 1;
        }
        if pick == n {
            proof {
                lemma_some_alive(ms, removed@, order@);
                let alive = Set::new(|k: int| 0 <= k < n && !removed@[k]);
                vstd::set_lib::lemma_int_range(0, n as int);
                lemma_len_subset(alive, vstd::set_lib::set_int_range(0, n as int));
                let somek = choose|k: int| 0 <= k < ms.len() && !(#[trigger] removed@[k]);
                assert(alive.contains(somek));
                assert(alive.len() > 0) by {
                    if alive.len() == 0 {
                        alive.lemma_len0_is_empty();
                    }
                }
                assert forall|a: int| #[trigger] alive.contains(a) implies exists|k: int|
                    #[trigger] alive.contains(k) && edge(ms, a, k) by {
                    assert(deps_left@[a]@.len() > 0);
                    assert(has_name(deps_left@[a]@, deps_left@[a]@[0]@));
                    lemma_names_set_contains(deps_left@[a]@, deps_left@[a]@[0]@);
                    assert(names_set(deps_left@[a]@).contains(deps_left@[a]@[0]@));
                    let k = choose|k: int|
                        0 <= k < n && !(#[trigger] removed@[k]) && edge(ms, a, k) && ms[k].name@
                            == deps_left@[a]@[0]@;
                    assert(alive.contains(k) && edge(ms, a, k));
                }
                lemma_stuck_cyclic(ms, alive);
            }
            return Err(CycleError);
        }
        let ghost pick0 = pick as int;
        let ghost order0 = order@;
        let ghost removed0 = removed@;
        let pname = members[pick].name.clone();
        let ghost pv = pname@;
        proof {
            // everything the picked member depends on is already published
            assert forall|k: int| #[trigger] edge(ms, pick0, k) implies removed0[k] by {
                if !removed0[k] {
                    assert(names_set(deps_left@[pick0]@).contains(ms[k].name@));
                    assert(has_name(deps_left@[pick0]@, ms[k].name@));
                    let w = choose|w: int|
                        0 <= w < deps_left@[pick0]@.len() && (#[trigger] deps_left@[pick0]@[w])@
                            == ms[k].name@;
                }
            }
            assert(!has_name(order0, pv)) by {
                if has_name(order0, pv) {
                    lemma_names_set_contains(order0, pv);
                    assert(names_set(order0).contains(pv));
                    let k = choose|k: int|
                        0 <= k < n && (#[trigger] removed0[k]) && ms[k].name@ == pv;
                    assert(k == pick0) by {
                        if k != pick0 {
                            assert(ms[k].name@ != ms[pick0].name@);
                        }
                    }
                }
            }
            lemma_names_set_push(order0, pname);
            lemma_distinct_names_push(order0, pname);
        }
        order.push(pname);
        removed.set(pick, true);
        proof {
            assert(removed@ == removed0.update(pick0, true));
            assert forall|nm: Seq<char>| #[trigger] names_set(order@).contains(nm) <==> exists|
                k: int,
            | 0 <= k < n && (#[trigger] removed@[k]) && ms[k].name@ == nm by {
                if names_set(order@).contains(nm) {
                    if nm == pv {
                        assert(removed@[pick0] && ms[pick0].name@ == nm);
                    } else {
                        assert(names_set(order0).contains(nm));
                        let k = choose|k: int|
                            0 <= k < n && (#[trigger] removed0[k]) && ms[k].name@ == nm;
                        assert(removed@[k]);
                    }
                }
                if exists|k: int| 0 <= k < n && (#[trigger] removed@[k]) && ms[k].name@ == nm {
                    let k = choose|k: int|
                        0 <= k < n && (#[trigger] removed@[k]) && ms[k].name@ == nm;
                    if k == pick0 {
                        assert(names_set(order@).contains(pv));
                    } else {
                        assert(removed0[k]);
                        assert(names_set(order0).contains(nm));
                    }
                }
            }
        }
        proof {
            assert forall|a: int, nm: Seq<char>|
                0 <= a < n && !removed@[a] implies (#[trigger] names_set(
                deps_left@[a]@,
            ).contains(nm) <==> exists|k: int|
                0 <= k < n && (!(#[trigger] removed@[k]) || k == pick0) && edge(ms, a, k)
                    && ms[k].name@ == nm) by {
                assert(a != pick0);
                assert(!removed0[a]);
                if names_set(deps_left@[a]@).contains(nm) {
                    let k = choose|k: int|
                        0 <= k < n && !(#[trigger] removed0[k]) && edge(ms, a, k) && ms[k].name@
                            == nm;
                    assert((!removed@[k] || k == pick0) && edge(ms, a, k) && ms[k].name@ == nm);
                }
                if exists|k: int|
                    0 <= k < n && (!(#[trigger] removed@[k]) || k == pick0) && edge(ms, a, k)
                        && ms[k].name@ == nm {
                    let k = choose|k: int|
                        0 <= k < n && (!(#[trigger] removed@[k]) || k == pick0) && edge(ms, a, k)
                            && ms[k].name@ == nm;
                    assert(!removed0[k]);
                    assert(names_set(deps_left@[a]@).contains(nm));
                }
            }
        }
        // drop the published name from every member's pending dependencies
        let mut p: usize = 0;
        while p < n
            invariant
                n == ms.len(),
                ms == members@,
                members_wf(ms),
                removed@.len() == n,
                deps_left@.len() == n,
                p <= n,
                0 <= pick0 < n,
                pick0 == pick as int,
                pv == ms[pick0].name@,
                removed@[pick0],
                forall|a: int| 0 <= a < n ==> distinct_names(#[trigger] deps_left@[a]@),
                forall|a: int, nm: Seq<char>|
                    0 <= a < p && !removed@[a] ==> (#[trigger] names_set(
                        deps_left@[a]@,
                    ).contains(nm) <==> exists|k: int|
                        0 <= k < n && !(#[trigger] removed@[k]) && edge(ms, a, k) && ms[k].name@
                            == nm),
                forall|a: int, nm: Seq<char>|
                    p <= a < n && !removed@[a] ==> (#[trigger] names_set(
                        deps_left@[a]@,
                    ).contains(nm) <==> exists|k: int|
                        0 <= k < n && (!(#[trigger] removed@[k]) || k == pick0) && edge(ms, a, k)
                            && ms[k].name@ == nm),
            decreases n - p,
        {
            let ghost p0 = p as int;
            let ghost dlpre = deps_left@;
            let dln = without_name(&deps_left[p], &members[pick].name);
            deps_left.set(p, dln);
            proof {
                assert(deps_left@ == dlpre.update(p0, deps_left@[p0]));
                assert(names_set(deps_left@[p0]@) == names_set(dlpre[p0]@).remove(pv));
                assert forall|a: int, nm: Seq<char>|
                    0 <= a < p0 + 1 && !removed@[a] implies (#[trigger] names_set(
                    deps_left@[a]@,
                ).contains(nm) <==> exists|k: int|
                    0 <= k < n && !(#[trigger] removed@[k]) && edge(ms, a, k) && ms[k].name@
                        == nm) by {
                    if a < p0 {
                        assert(deps_left@[a] == dlpre[a]);
                        assert(names_set(dlpre[a]@).contains(nm) <==> exists|k: int|
                            0 <= k < n && !(#[trigger] removed@[k]) && edge(ms, a, k)
                                && ms[k].name@ == nm);
                    } else {
                        if names_set(deps_left@[a]@).contains(nm) {
                            assert(names_set(dlpre[a]@).contains(nm) && nm != pv);
                            let k = choose|k: int|
                                0 <= k < n && (!(#[trigger] removed@[k]) || k == pick0) && edge(
                                    ms,
                                    a,
                                    k,
                                ) && ms[k].name@ == nm;
                            assert(k != pick0) by {
                                if k == pick0 {
                                    assert(ms[k].name@ == pv);
                                }
                            }
                            assert(!removed@[k] && edge(ms, a, k) && ms[k].name@ == nm);
                        }
                        if exists|k: int|
                            0 <= k < n && !(#[trigger] removed@[k]) && edge(ms, a, k)
                                && ms[k].name@ == nm {
                            let k = choose|k: int|
                                0 <= k < n && !(#[trigger] removed@[k]) && edge(ms, a, k)
                                    && ms[k].name@ == nm;
                            assert(k != pick0);
                            assert(nm != pv) by {
                                if nm == pv {
                                    assert(ms[k].name@ == ms[pick0].name@);
                                }
                            }
                            assert(names_set(dlpre[a]@).contains(nm));
                            assert(names_set(deps_left@[a]@).contains(nm));
                        }
                    }
                }
                assert forall|a: int, nm: Seq<char>|
                    p0 + 1 <= a < n && !removed@[a] implies (#[trigger] names_set(
                    deps_left@[a]@,
                ).contains(nm) <==> exists|k: int|
                    0 <= k < n && (!(#[trigger] removed@[k]) || k == pick0) && edge(ms, a, k)
                        && ms[k].name@ == nm) by {
                    assert(deps_left@[a] == dlpre[a]);
                }
            }
            p = p + 1;
        }
        proof {
            assert forall|i2: int, j2: int|
                #[trigger] edge(ms, i2, j2) && removed@[i2] implies removed@[j2]
                && appears_before(names_seq(order@), ms[j2].name@, ms[i2].name@) by {
                if i2 != pick0 {
                    assert(removed0[i2]);
                    assert(removed0[j2] && appears_before(names_seq(order0), ms[j2].name@,
                        ms[i2].name@));
                    assert(removed@[j2]);
                    let (ka, kb) = choose|ka: int, kb: int|
                        0 <= ka < kb < names_seq(order0).len() && (#[trigger] names_seq(
                            order0,
                        )[ka]) == ms[j2].name@ && (#[trigger] names_seq(order0)[kb]) == ms[
                            i2
                        ].name@;
                    assert(names_seq(order@)[ka] == ms[j2].name@ && names_seq(order@)[kb] == ms[
                        i2
                    ].name@);
                } else {
                    assert(edge(ms, pick0, j2));
                    assert(removed0[j2]);
                    assert(j2 != pick0);
                    assert(removed@[j2]);
                    assert(names_set(order0).contains(ms[j2].name@));
                    assert(has_name(order0, ms[j2].name@));
                    let ka = choose|ka: int| 0 <= ka < order0.len() && (#[trigger] order0[ka])@
                        == ms[j2].name@;
                    let kb = order0.len() as int;
                    assert(names_seq(order@)[ka] == ms[j2].name@);
                    assert(order@[kb] == pname);
                    assert(names_seq(order@)[kb] == ms[i2].name@);
                    assert(0 <= ka < kb < names_seq(order@).len());
                }
            }
        }
    }
    proof {
        lemma_finished(ms, removed@, order@);
        assert(names_seq(order@).no_duplicates()) by {
            assert forall|a: int, b: int|
                0 <= a < b < names_seq(order@).len() implies names_seq(order@)[a] != names_seq(
                order@,
            )[b] by {
                assert(order@[a]@ != order@[b]@);
            }
        }
        lemma_order_excludes_cycle(ms, names_seq(order@));
    }
    Ok(order)
}

} // verus!
