//! Feature graphs and the feature resolver.
//!
//! A feature graph maps feature names to the features they imply. The
//! resolver closes a seed set of names under implication by worklist
//! expansion; its result is characterized exactly as the least set that
//! contains the seed and is closed under the graph's edges.

use vstd::prelude::*;
use crate::names::{
    names_seq, names_set, has_name, distinct_names, insert_name, lemma_names_set_contains,
    lemma_names_set_finite, lemma_names_set_push, lemma_distinct_names_push,
    lemma_names_set_drop_last, lemma_distinct_names_card,
};
use vstd::seq_lib::seq_to_set_is_finite;
use vstd::set_lib::lemma_len_subset;

verus! {

/// One node of a feature graph: a feature and the features it implies.
pub struct Feature {
    pub name: String,
    pub implies: Vec<String>,
}

/// The graph has a node named `n`.
pub open spec fn is_node(g: Seq<Feature>, n: Seq<char>) -> bool {
    exists|i: int| 0 <= i < g.len() && g[i].name@ == n
}

/// The names of the graph's nodes, in declaration order.
pub open spec fn node_names(g: Seq<Feature>) -> Seq<Seq<char>> {
    g.map_values(|f: Feature| f.name@)
}

/// The set of the graph's node names.
pub open spec fn node_set(g: Seq<Feature>) -> Set<Seq<char>> {
    node_names(g).to_set()
}

/// Well-formed graph: node names are pairwise distinct.
pub open spec fn graph_wf(g: Seq<Feature>) -> bool {
    forall|i: int, j: int| 0 <= i < j < g.len() ==> g[i].name@ != g[j].name@
}

/// Every implied name is itself a node of the graph.
pub open spec fn implies_are_nodes(g: Seq<Feature>) -> bool {
    forall|i: int, j: int|
        0 <= i < g.len() && 0 <= j < g[i].implies@.len() ==> is_node(
            g,
            #[trigger] g[i].implies@[j]@,
        )
}

/// `s` is closed under the graph's implication edges: whenever `s` holds a
/// node's name, it holds every name that node implies.
pub open spec fn closed_under(g: Seq<Feature>, s: Set<Seq<char>>) -> bool {
    forall|i: int, j: int|
        0 <= i < g.len() && 0 <= j < g[i].implies@.len() && s.contains(#[trigger] g[i].name@)
            ==> s.contains(#[trigger] g[i].implies@[j]@)
}

/// `r` is the resolution of `seed` in `g`: the least set that contains the
/// seed and is closed under implication.
pub open spec fn is_resolution(g: Seq<Feature>, seed: Set<Seq<char>>, r: Set<Seq<char>>) -> bool {
    &&& seed.subset_of(r)
    &&& closed_under(g, r)
    &&& forall|t: Set<Seq<char>>|
        seed.subset_of(t) && #[trigger] closed_under(g, t) ==> r.subset_of(t)
}

/// Every name implied by any node, as one sequence.
pub open spec fn all_implied(g: Seq<Feature>) -> Seq<Seq<char>>
    decreases g.len(),
{
    if g.len() == 0 {
        Seq::empty()
    } else {
        names_seq(g[0].implies@) + all_implied(g.drop_first())
    }
}

proof fn lemma_all_implied_contains(g: Seq<Feature>, i: int, j: int)
    requires
        0 <= i < g.len(),
        0 <= j < g[i].implies@.len(),
    ensures
        all_implied(g).contains(g[i].implies@[j]@),
    decreases i,
{
    if i == 0 {
        assert(all_implied(g)[j] == names_seq(g[0].implies@)[j]);
        assert(all_implied(g)[j] == g[0].implies@[j]@);
    } else {
        let rest = g.drop_first();
        lemma_all_implied_contains(rest, i - 1, j);
        assert(rest[i - 1] == g[i]);
        let k = choose|k: int|
            0 <= k < all_implied(rest).len() && all_implied(rest)[k] == g[i].implies@[j]@;
        assert(all_implied(g)[names_seq(g[0].implies@).len() + k] == g[i].implies@[j]@);
    }
}

pub broadcast proof fn lemma_node_set_contains(g: Seq<Feature>, n: Seq<char>)
    ensures
        #[trigger] node_set(g).contains(n) <==> is_node(g, n),
{
    if node_set(g).contains(n) {
        let i = choose|i: int| 0 <= i < node_names(g).len() && node_names(g)[i] == n;
        assert(g[i].name@ == n);
    }
    if is_node(g, n) {
        let i = choose|i: int| 0 <= i < g.len() && g[i].name@ == n;
        assert(node_names(g)[i] == n);
        assert(node_names(g).contains(n));
    }
}

/// The whole node set is closed under implication whenever every implied
/// name is itself a node.
pub proof fn lemma_node_set_closed(g: Seq<Feature>)
    requires
        implies_are_nodes(g),
    ensures
        closed_under(g, node_set(g)),
{
    broadcast use lemma_node_set_contains;

    assert forall|i: int, j: int|
        0 <= i < g.len() && 0 <= j < g[i].implies@.len() && node_set(g).contains(
            #[trigger] g[i].name@,
        ) implies node_set(g).contains(#[trigger] g[i].implies@[j]@) by {
        assert(is_node(g, g[i].implies@[j]@));
    }
}

/// Resolving a seed drawn from the nodes of a graph whose edges stay
/// among the nodes yields a set wedged between the seed and the nodes,
/// closed under implication.
pub proof fn lemma_resolution_in_nodes(g: Seq<Feature>, seed: Set<Seq<char>>, r: Set<Seq<char>>)
    requires
        is_resolution(g, seed, r),
        seed.subset_of(node_set(g)),
        implies_are_nodes(g),
    ensures
        seed.subset_of(r),
        r.subset_of(node_set(g)),
        closed_under(g, r),
{
    lemma_node_set_closed(g);
}

/// Resolution is idempotent: resolving again with the result as the seed
/// gives the result back.
pub proof fn lemma_resolution_idempotent(
    g: Seq<Feature>,
    seed: Set<Seq<char>>,
    r1: Set<Seq<char>>,
    r2: Set<Seq<char>>,
)
    requires
        is_resolution(g, seed, r1),
        is_resolution(g, r1, r2),
    ensures
        r2 == r1,
{
    assert(r1.subset_of(r2));
    assert(r2.subset_of(r1));
    assert(r1 =~= r2);
}

/// Even on a cyclic graph, the resolved set is no larger than the node set.
pub proof fn lemma_resolution_card(g: Seq<Feature>, seed: Set<Seq<char>>, r: Set<Seq<char>>)
    requires
        is_resolution(g, seed, r),
        seed.subset_of(node_set(g)),
        implies_are_nodes(g),
    ensures
        r.finite(),
        r.len() <= node_set(g).len(),
{
    lemma_resolution_in_nodes(g, seed, r);
    seq_to_set_is_finite::<Seq<char>>(node_names(g));
    lemma_len_subset(r, node_set(g));
}

/// Index of the node named `name`, if the graph has one.
pub fn lookup_feature(g: &Vec<Feature>, name: &String) -> (r: Option<usize>)
    ensures
        match r {
            Some(i) => i < g@.len() && g@[i as int].name@ == name@,
            None => !is_node(g@, name@),
        },
{
    let mut i: usize = 0;
    while i < g.len()
        invariant
            i <= g@.len(),
            forall|k: int| 0 <= k < i ==> g@[k].name@ != name@,
        decreases g@.len() - i,
    {
        if g[i].name == *name {
            return Some(i);
        }
        i = i + 1;
    }
    None
}

/// A declared dependency: its name, an optional rename, and whether it is
/// optional.
pub struct Dep {
    pub name: String,
    pub rename: Option<String>,
    pub optional: bool,
}

/// The name under which a dependency acts: its rename if present, else its
/// declared name.
pub open spec fn effective_name(d: Dep) -> Seq<char> {
    match d.rename {
        Some(r) => r@,
        None => d.name@,
    }
}

/// Some optional dependency in `deps` has `n` as its effective name.
pub open spec fn is_optional_dep(deps: Seq<Dep>, n: Seq<char>) -> bool {
    exists|i: int| 0 <= i < deps.len() && deps[i].optional && effective_name(deps[i]) == n
}

proof fn lemma_optional_dep_extend(deps: Seq<Dep>, a: int, b: int, n: Seq<char>)
    requires
        0 <= a <= b <= deps.len(),
        is_optional_dep(deps.subrange(0, a), n),
    ensures
        is_optional_dep(deps.subrange(0, b), n),
{
    let s = deps.subrange(0, a);
    let w = choose|w: int|
        0 <= w < s.len() && (#[trigger] s[w]).optional && effective_name(s[w]) == n;
    assert(deps.subrange(0, b)[w] == deps[w]);
    assert(s[w] == deps[w]);
    assert(0 <= w < deps.subrange(0, b).len() && deps.subrange(0, b)[w].optional
        && effective_name(deps.subrange(0, b)[w]) == n);
}

/// Build the feature graph of a package: every declared feature keeps its
/// name and its implied list unchanged, and each optional dependency whose
/// effective name collides with no declared feature contributes a node with
/// no outgoing edges. An explicit feature shadows a same-named optional
/// dependency.
pub fn build_feature_graph(features: Vec<Feature>, deps: &Vec<Dep>) -> (g: Vec<Feature>)
    requires
        graph_wf(features@),
    ensures
        graph_wf(g@),
        g@.len() >= features@.len(),
        forall|i: int| 0 <= i < features@.len() ==> g@[i] == features@[i],
        forall|k: int|
            features@.len() <= k < g@.len() ==> (#[trigger] g@[k]).implies@.len() == 0 && !is_node(
                features@,
                g@[k].name@,
            ) && is_optional_dep(deps@, g@[k].name@),
        forall|n: Seq<char>|
            #[trigger] is_node(g@, n) <==> is_node(features@, n) || is_optional_dep(deps@, n),
{
    let ghost feats = features@;
    let mut g = features;
    let nf = g.len();
    let mut di: usize = 0;
    while di < deps.len()
        invariant
            di <= deps@.len(),
            nf == feats.len(),
            g@.len() >= feats.len(),
            graph_wf(g@),
            forall|k: int| 0 <= k < feats.len() ==> g@[k] == feats[k],
            forall|k: int|
                feats.len() <= k < g@.len() ==> (#[trigger] g@[k]).implies@.len() == 0 && !is_node(
                    feats,
                    g@[k].name@,
                ) && is_optional_dep(deps@.subrange(0, di as int), g@[k].name@),
            forall|i: int|
                0 <= i < di && deps@[i].optional && !is_node(
                    feats,
                    #[trigger] effective_name(deps@[i]),
                ) ==> is_node(g@, effective_name(deps@[i])),
        decreases deps@.len() - di,
    {
        let ghost di0 = di as int;
        let ghost g0 = g@;
        if deps[di].optional {
            let en: String = match &deps[di].rename {
                Some(r) => r.clone(),
                None => deps[di].name.clone(),
            };
            proof {
                assert(en@ == effective_name(deps@[di0]));
            }
            if lookup_feature(&g, &en).is_none() {
                g.push(Feature { name: en, implies: Vec::new() });
                proof {
                    assert(g@ =~= g0.push(g@.last()));
                    assert(deps@.subrange(0, di0 + 1)[di0] == deps@[di0]);
                    assert(0 <= di0 < deps@.subrange(0, di0 + 1).len() && deps@.subrange(
                        0,
                        di0 + 1,
                    )[di0].optional && effective_name(deps@.subrange(0, di0 + 1)[di0]) == en@);
                    assert(is_optional_dep(deps@.subrange(0, di0 + 1), en@));
                    assert(g@[g@.len() - 1].name@ == en@);
                    assert(is_node(g@, en@));
                    assert(!is_node(feats, en@)) by {
                        if is_node(feats, en@) {
                            let k = choose|k: int|
                                0 <= k < feats.len() && (#[trigger] feats[k]).name@ == en@;
                            assert(g0[k].name@ == en@);
                        }
                    }
                }
            } else {
                proof {
                    assert(is_node(g@, en@));
                }
            }
        }
        proof {
            assert forall|k: int| feats.len() <= k < g@.len() implies (
            #[trigger] g@[k]).implies@.len() == 0 && !is_node(feats, g@[k].name@)
                && is_optional_dep(deps@.subrange(0, di0 + 1), g@[k].name@) by {
                if k < g0.len() {
                    assert(g@[k] == g0[k]);
                    assert(g0[k].implies@.len() == 0);
                    lemma_optional_dep_extend(deps@, di0, di0 + 1, g0[k].name@);
                }
            }
            assert forall|i: int|
                0 <= i < di0 + 1 && deps@[i].optional && !is_node(
                    feats,
                    #[trigger] effective_name(deps@[i]),
                ) implies is_node(g@, effective_name(deps@[i])) by {
                if i < di0 {
                    assert(is_node(g0, effective_name(deps@[i])));
                    let k = choose|k: int|
                        0 <= k < g0.len() && (#[trigger] g0[k]).name@ == effective_name(deps@[i]);
                    assert(g@[k] == g0[k]);
                    assert(g@[k].name@ == effective_name(deps@[i]));
                }
            }
        }
        di = di + 1;
    }
    proof {
        assert(deps@.subrange(0, deps@.len() as int) =~= deps@);
        assert forall|n: Seq<char>| #[trigger] is_node(g@, n) <==> is_node(feats, n)
            || is_optional_dep(deps@, n) by {
            if is_node(g@, n) {
                let k = choose|k: int| 0 <= k < g@.len() && (#[trigger] g@[k]).name@ == n;
                if k < feats.len() {
                    assert(feats[k].name@ == n);
                } else {
                    assert(is_optional_dep(deps@.subrange(0, deps@.len() as int), n));
                }
            }
            if is_node(feats, n) {
                let k = choose|k: int| 0 <= k < feats.len() && (#[trigger] feats[k]).name@ == n;
                assert(g@[k].name@ == n);
            }
        }
    }
    g
}

/// The requested names that are not nodes of the graph; an empty result
/// means every requested feature is valid.
pub fn invalid_requested(g: &Vec<Feature>, requested: &Vec<String>) -> (bad: Vec<String>)
    ensures
        distinct_names(bad@),
        forall|n: Seq<char>|
            #[trigger] names_set(bad@).contains(n) <==> names_set(requested@).contains(n)
                && !is_node(g@, n),
{
    broadcast use lemma_names_set_contains;

    let mut bad: Vec<String> = Vec::new();
    let mut i: usize = 0;
    while i < requested.len()
        invariant
            i <= requested@.len(),
            distinct_names(bad@),
            forall|n: Seq<char>|
                #[trigger] names_set(bad@).contains(n) <==> has_name(
                    requested@.subrange(0, i as int),
                    n,
                ) && !is_node(g@, n),
        decreases requested@.len() - i,
    {
        let ghost i0 = i as int;
        let ghost bad0 = bad@;
        if lookup_feature(g, &requested[i]).is_none() {
            let r = requested[i].clone();
            let ghost rv = r@;
            insert_name(&mut bad, r);
            proof {
                assert forall|n: Seq<char>| #[trigger] names_set(bad@).contains(n) <==> has_name(
                    requested@.subrange(0, i0 + 1),
                    n,
                ) && !is_node(g@, n) by {
                    assert(names_set(bad@) == names_set(bad0).insert(rv));
                    if n == rv {
                        assert(requested@.subrange(0, i0 + 1)[i0]@ == n);
                    } else {
                        assert(has_name(requested@.subrange(0, i0 + 1), n) == has_name(
                            requested@.subrange(0, i0),
                            n,
                        )) by {
                            if has_name(requested@.subrange(0, i0 + 1), n) {
                                let w = choose|w: int|
                                    0 <= w < i0 + 1 && (#[trigger] requested@.subrange(0, i0 + 1)[w])@ == n;
                                if w < i0 {
                                    assert(requested@.subrange(0, i0)[w]@ == n);
                                }
                            }
                            if has_name(requested@.subrange(0, i0), n) {
                                let w = choose|w: int|
                                    0 <= w < i0 && (#[trigger] requested@.subrange(0, i0)[w])@ == n;
                                assert(requested@.subrange(0, i0 + 1)[w]@ == n);
                            }
                        }
                    }
                }
            }
        } else {
            proof {
                assert forall|n: Seq<char>| #[trigger] names_set(bad@).contains(n) <==> has_name(
                    requested@.subrange(0, i0 + 1),
                    n,
                ) && !is_node(g@, n) by {
                    if has_name(requested@.subrange(0, i0 + 1), n) && !is_node(g@, n) {
                        let w = choose|w: int|
                            0 <= w < i0 + 1 && (#[trigger] requested@.subrange(0, i0 + 1)[w])@ == n;
                        assert(w < i0) by {
                            if w == i0 {
                                assert(requested@[i0]@ == n);
                            }
                        }
                        assert(requested@.subrange(0, i0)[w]@ == n);
                    }
                    if has_name(requested@.subrange(0, i0), n) {
                        let w = choose|w: int|
                            0 <= w < i0 && (#[trigger] requested@.subrange(0, i0)[w])@ == n;
                        assert(requested@.subrange(0, i0 + 1)[w]@ == n);
                    }
                }
            }
        }
        i = i + 1;
    }
    proof {
        assert(requested@.subrange(0, requested@.len() as int) =~= requested@);
        assert forall|n: Seq<char>| #[trigger] names_set(bad@).contains(n) <==> names_set(
            requested@,
        ).contains(n) && !is_node(g@, n) by {
            lemma_names_set_contains(requested@, n);
        }
    }
    bad
}

/// Close `seed` under the graph's implication edges.
///
/// The result lists, without duplicates, exactly the names of the least
/// set that contains the seed and is closed under implication. Cycles in
/// the graph are harmless: a name is inserted only once.
pub fn resolve_features(g: &Vec<Feature>, seed: &Vec<String>) -> (r: Vec<String>)
    requires
        graph_wf(g@),
    ensures
        distinct_names(r@),
        is_resolution(g@, names_set(seed@), names_set(r@)),
{
    broadcast use lemma_names_set_contains, lemma_names_set_finite;

    let ghost univ: Set<Seq<char>> = names_set(seed@).union(all_implied(g@).to_set());
    proof {
        seq_to_set_is_finite::<Seq<char>>(all_implied(g@));
        assert(univ.finite());
    }
    let mut enabled: Vec<String> = Vec::new();
    let mut stack: Vec<String> = Vec::new();
    let mut si: usize = 0;
    while si < seed.len()
        invariant
            si <= seed@.len(),
            distinct_names(enabled@),
            distinct_names(stack@),
            names_set(stack@) == names_set(enabled@),
            names_set(enabled@).subset_of(names_set(seed@)),
            forall|k: int| 0 <= k < si ==> names_set(enabled@).contains(seed@[k]@),
        decreases seed@.len() - si,
    {
        let s = seed[si].clone();
        let ghost sv = s@;
        let ghost stack0 = stack@;
        let ghost enabled0 = enabled@;
        proof {
            assert(seed@[si as int]@ == sv);
            assert(has_name(seed@, sv));
            lemma_names_set_contains(seed@, sv);
        }
        if insert_name(&mut enabled, s) {
            stack.push(seed[si].clone());
            proof {
                assert(stack@.last()@ == sv);
                lemma_names_set_contains(stack0, sv);
                lemma_names_set_contains(enabled0, sv);
                assert(!has_name(stack0, sv));
                lemma_names_set_push(stack0, stack@.last());
                lemma_distinct_names_push(stack0, stack@.last());
                assert(names_set(stack@) =~= names_set(enabled@));
            }
        } else {
            proof {
                assert(names_set(enabled@) =~= names_set(enabled@).insert(sv));
            }
        }
        si = si + 1;
    }
    proof {
        assert(names_set(seed@).subset_of(names_set(enabled@))) by {
            assert forall|n: Seq<char>| names_set(seed@).contains(n)
                implies names_set(enabled@).contains(n) by {
                let k = choose|k: int| 0 <= k < seed@.len() && seed@[k]@ == n;
                assert(names_set(enabled@).contains(seed@[k]@));
            }
        }
        assert(names_set(enabled@).subset_of(univ));
        lemma_distinct_names_card(enabled@);
        lemma_len_subset(names_set(enabled@), univ);
    }
    while stack.len() > 0
        invariant
            graph_wf(g@),
            distinct_names(enabled@),
            distinct_names(stack@),
            univ == names_set(seed@).union(all_implied(g@).to_set()),
            univ.finite(),
            names_set(stack@).subset_of(names_set(enabled@)),
            names_set(seed@).subset_of(names_set(enabled@)),
            names_set(enabled@).subset_of(univ),
            enabled@.len() <= univ.len(),
            enabled@.len() == names_set(enabled@).len(),
            forall|i: int, j: int|
                0 <= i < g@.len() && 0 <= j < g@[i].implies@.len() && names_set(
                    enabled@,
                ).contains(#[trigger] g@[i].name@) && !names_set(stack@).contains(g@[i].name@)
                    ==> names_set(enabled@).contains(#[trigger] g@[i].implies@[j]@),
            forall|t: Set<Seq<char>>|
                names_set(seed@).subset_of(t) && #[trigger] closed_under(g@, t) ==> names_set(
                    enabled@,
                ).subset_of(t),
        decreases univ.len() - enabled@.len(), stack@.len(),
    {
        let ghost stackpre = stack@;
        let ghost epre: int = enabled@.len() as int;
        let ghost spre: int = stack@.len() as int;
        let x = stack.pop().unwrap();
        proof {
            lemma_names_set_drop_last(stackpre);
            assert(stackpre[stackpre.len() - 1]@ == x@);
            assert(has_name(stackpre, x@));
            lemma_names_set_contains(stackpre, x@);
            assert(names_set(enabled@).contains(x@));
            assert(!names_set(stack@).contains(x@));
        }
        match lookup_feature(g, &x) {
            None => {
                proof {
                    assert forall|i: int, j: int|
                        0 <= i < g@.len() && 0 <= j < g@[i].implies@.len() && names_set(
                            enabled@,
                        ).contains(#[trigger] g@[i].name@) && !names_set(stack@).contains(
                            g@[i].name@,
                        ) implies names_set(enabled@).contains(#[trigger] g@[i].implies@[j]@) by {
                        if g@[i].name@ == x@ {
                            assert(is_node(g@, x@));
                        } else {
                            assert(names_set(stackpre).contains(g@[i].name@) == names_set(
                                stack@,
                            ).contains(g@[i].name@));
                        }
                    }
                }
            },
            Some(fi) => {
                let m = g[fi].implies.len();
                let mut j: usize = 0;
                while j < m
                    invariant
                        graph_wf(g@),
                        fi < g@.len(),
                        g@[fi as int].name@ == x@,
                        m == g@[fi as int].implies@.len(),
                        j <= m,
                        distinct_names(enabled@),
                        distinct_names(stack@),
                        univ == names_set(seed@).union(all_implied(g@).to_set()),
                        univ.finite(),
                        names_set(stack@).subset_of(names_set(enabled@)),
                        names_set(seed@).subset_of(names_set(enabled@)),
                        names_set(enabled@).subset_of(univ),
                        enabled@.len() <= univ.len(),
                        enabled@.len() == names_set(enabled@).len(),
                        enabled@.len() - epre == stack@.len() - (spre - 1),
                        enabled@.len() >= epre,
                        names_set(enabled@).contains(x@),
                        !names_set(stack@).contains(x@),
                        forall|jj: int|
                            0 <= jj < j ==> names_set(enabled@).contains(
                                #[trigger] g@[fi as int].implies@[jj]@,
                            ),
                        forall|i: int, jj: int|
                            0 <= i < g@.len() && 0 <= jj < g@[i].implies@.len() && g@[i].name@
                                != x@ && names_set(enabled@).contains(#[trigger] g@[i].name@)
                                && !names_set(stack@).contains(g@[i].name@) ==> names_set(
                                enabled@,
                            ).contains(#[trigger] g@[i].implies@[jj]@),
                        forall|t: Set<Seq<char>>|
                            names_set(seed@).subset_of(t) && #[trigger] closed_under(g@, t)
                                ==> names_set(enabled@).subset_of(t),
                    decreases m - j,
                {
                    let y = g[fi].implies[j].clone();
                    let ghost yv = y@;
                    let ghost enabled0 = enabled@;
                    let ghost stack1 = stack@;
                    if insert_name(&mut enabled, y) {
                        stack.push(g[fi].implies[j].clone());
                        proof {
                            lemma_all_implied_contains(g@, fi as int, j as int);
                            assert(univ.contains(yv));
                            assert(stack@.last()@ == yv);
                            lemma_names_set_contains(stack1, yv);
                            lemma_names_set_contains(enabled0, yv);
                            assert(!has_name(stack1, yv));
                            lemma_names_set_push(stack1, stack@.last());
                            lemma_distinct_names_push(stack1, stack@.last());
                            lemma_distinct_names_card(enabled@);
                            lemma_len_subset(names_set(enabled@), univ);
                            // the fresh name lands in every closed superset of the seed
                            assert forall|t: Set<Seq<char>>|
                                names_set(seed@).subset_of(t) && #[trigger] closed_under(g@, t)
                                implies names_set(enabled@).subset_of(t) by {
                                assert(names_set(enabled0).subset_of(t));
                                assert(t.contains(g@[fi as int].name@));
                                assert(t.contains(g@[fi as int].implies@[j as int]@));
                                assert(names_set(enabled@) =~= names_set(enabled0).insert(yv));
                            }
                        }
                    } else {
                        proof {
                            assert(names_set(enabled@) =~= names_set(enabled0).insert(yv));
                            assert(names_set(enabled@) =~= names_set(enabled0));
                        }
                    }
                    j = j + 1;
                }
                proof {
                    assert forall|i: int, jj: int|
                        0 <= i < g@.len() && 0 <= jj < g@[i].implies@.len() && names_set(
                            enabled@,
                        ).contains(#[trigger] g@[i].name@) && !names_set(stack@).contains(
                            g@[i].name@,
                        ) implies names_set(enabled@).contains(#[trigger] g@[i].implies@[jj]@) by {
                        if g@[i].name@ == x@ {
                            assert(i == fi) by {
                                if i != fi {
                                    assert(g@[i].name@ != g@[fi as int].name@);
                                }
                            }
                        }
                    }
                }
            },
        }
    }
    proof {
        assert(names_set(stack@) =~= Set::<Seq<char>>::empty());
        assert(closed_under(g@, names_set(enabled@))) by {
            assert forall|i: int, j: int|
                0 <= i < g@.len() && 0 <= j < g@[i].implies@.len() && names_set(enabled@).contains(
                    #[trigger] g@[i].name@,
                ) implies names_set(enabled@).contains(#[trigger] g@[i].implies@[j]@) by {
                assert(!names_set(stack@).contains(g@[i].name@));
            }
        }
    }
    enabled
}

/// The seed of the closure: every node under `--all-features`; otherwise the
/// requested names, plus `default` when it is a node and not switched off.
pub open spec fn spec_seed(
    g: Seq<Feature>,
    req: Set<Seq<char>>,
    no_default: bool,
    all: bool,
) -> Set<Seq<char>> {
    if all {
        node_set(g)
    } else if !no_default && is_node(g, "default"@) {
        req.insert("default"@)
    } else {
        req
    }
}

/// Pick the seed names for the closure.
pub fn seed_features(g: &Vec<Feature>, requested: &Vec<String>, no_default: bool, all: bool) -> (s:
    Vec<String>)
    ensures
        names_set(s@) == spec_seed(g@, names_set(requested@), no_default, all),
{
    broadcast use lemma_names_set_contains, lemma_node_set_contains;

    if all {
        let mut s: Vec<String> = Vec::new();
        let mut i: usize = 0;
        while i < g.len()
            invariant
                i <= g@.len(),
                forall|n: Seq<char>|
                    #[trigger] names_set(s@).contains(n) <==> exists|k: int|
                        0 <= k < i && (#[trigger] g@[k]).name@ == n,
            decreases g@.len() - i,
        {
            let ghost s0 = s@;
            let ghost i0 = i as int;
            s.push(g[i].name.clone());
            proof {
                lemma_names_set_push(s0, s@.last());
                assert(s@.last()@ == g@[i0].name@);
                assert forall|n: Seq<char>| #[trigger] names_set(s@).contains(n) <==> exists|k: int|
                    0 <= k < i0 + 1 && (#[trigger] g@[k]).name@ == n by {
                    if names_set(s@).contains(n) {
                        if n == g@[i0].name@ {
                            assert(0 <= i0 < i0 + 1 && g@[i0].name@ == n);
                        }
                    }
                    if exists|k: int| 0 <= k < i0 + 1 && (#[trigger] g@[k]).name@ == n {
                        let k = choose|k: int| 0 <= k < i0 + 1 && (#[trigger] g@[k]).name@ == n;
                        if k < i0 {
                            assert(names_set(s0).contains(n));
                        }
                    }
                }
            }
            i = i + 1;
        }
        proof {
            assert forall|n: Seq<char>| #[trigger] names_set(s@).contains(n) <==> node_set(
                g@,
            ).contains(n) by {
                if is_node(g@, n) {
                    let k = choose|k: int| 0 <= k < g@.len() && (#[trigger] g@[k]).name@ == n;
                }
            }
            assert(names_set(s@) =~= node_set(g@));
        }
        s
    } else {
        let mut s = crate::names::clone_names(requested);
        if !no_default {
            let d = String::from_str("default");
            if lookup_feature(g, &d).is_some() {
                let ghost s0 = s@;
                s.push(d);
                proof {
                    lemma_names_set_push(s0, s@.last());
                    assert(names_set(s@) =~= names_set(requested@).insert("default"@));
                }
            }
        }
        s
    }
}

/// Resolve the enabled feature set: reject any requested name that is not a
/// node, otherwise close the seed under implication. `Err` carries exactly
/// the invalid names.
pub fn enabled_features(
    g: &Vec<Feature>,
    requested: &Vec<String>,
    no_default: bool,
    all: bool,
) -> (r: Result<Vec<String>, Vec<String>>)
    requires
        graph_wf(g@),
    ensures
        match r {
            Ok(en) => names_set(requested@).subset_of(node_set(g@)) && distinct_names(en@)
                && is_resolution(
                g@,
                spec_seed(g@, names_set(requested@), no_default, all),
                names_set(en@),
            ),
            Err(bad) => !names_set(requested@).subset_of(node_set(g@)) && distinct_names(bad@)
                && bad@.len() > 0 && (forall|n: Seq<char>|
                #[trigger] names_set(bad@).contains(n) <==> names_set(requested@).contains(n)
                    && !node_set(g@).contains(n)),
        },
{
    broadcast use lemma_names_set_contains, lemma_node_set_contains;

    let bad = invalid_requested(g, requested);
    if bad.len() > 0 {
        proof {
            assert(has_name(bad@, bad@[0]@));
            assert(names_set(bad@).contains(bad@[0]@));
        }
        Err(bad)
    } else {
        proof {
            assert forall|n: Seq<char>| names_set(requested@).contains(n) implies node_set(
                g@,
            ).contains(n) by {
                if !is_node(g@, n) {
                    assert(names_set(bad@).contains(n));
                }
            }
        }
        let seed = seed_features(g, requested, no_default, all);
        let en = resolve_features(g, &seed);
        Ok(en)
    }
}

} // verus!
