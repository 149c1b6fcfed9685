//! Communities of models: the classes of models joined, directly or
//! through others, by strongly correlated pairs. They are found with a
//! union-find forest over the model indices.

use vstd::prelude::*;
use crate::names::{first_index_of, position_of, views};

verus! {

/// Every labelling of nodes that gives both ends of each of the first
/// `k` edges the same label.
pub open spec fn respects(label: spec_fn(int) -> int, edges: Seq<(int, int)>, k: int) -> bool {
    forall|e: int| 0 <= e < k ==> label(#[trigger] edges[e].0) == label(edges[e].1)
}

/// `x` and `y` are joined by the first `k` edges: every labelling that
/// respects those edges gives `x` and `y` the same label. This is the
/// least equivalence relation that holds of each edge's two ends, that is,
/// being connected by a chain of edges.
pub open spec fn joined_by(edges: Seq<(int, int)>, k: int, x: int, y: int) -> bool {
    forall|label: spec_fn(int) -> int| #[trigger] respects(label, edges, k) ==> label(x) == label(y)
}

/// `x` and `y` are joined by all of `edges`.
pub open spec fn joined(edges: Seq<(int, int)>, x: int, y: int) -> bool {
    joined_by(edges, edges.len() as int, x, y)
}

/// The members of `x`'s class among the nodes below `m`, in increasing order.
pub open spec fn class_below(edges: Seq<(int, int)>, x: int, m: int) -> Seq<int>
    decreases m,
{
    if m <= 0 {
        seq![]
    } else if joined(edges, x, m - 1) {
        class_below(edges, x, m - 1).push(m - 1)
    } else {
        class_below(edges, x, m - 1)
    }
}

/// `x` is the least node of its class.
pub open spec fn leads_class(edges: Seq<(int, int)>, x: int) -> bool {
    forall|y: int| 0 <= y < x ==> !joined(edges, y, x)
}

/// The classes of at least two nodes among nodes `0..n`, listed by their
/// least nodes below `m`, in increasing order of those least nodes.
pub open spec fn communities_below(edges: Seq<(int, int)>, n: int, m: int) -> Seq<Seq<int>>
    decreases m,
{
    if m <= 0 {
        seq![]
    } else {
        let x = m - 1;
        let earlier = communities_below(edges, n, m - 1);
        if leads_class(edges, x) && class_below(edges, x, n).len() >= 2 {
            earlier.push(class_below(edges, x, n))
        } else {
            earlier
        }
    }
}

/// All classes of at least two nodes among nodes `0..n`.
pub open spec fn community_classes(edges: Seq<(int, int)>, n: int) -> Seq<Seq<int>> {
    communities_below(edges, n, n)
}

/// The index of the first model named `name`, or `0` if there is none.
pub open spec fn index_or_first(models: Seq<Seq<char>>, name: Seq<char>) -> int {
    match first_index_of(models, name) {
        Some(i) => i,
        None => 0,
    }
}

/// The edges between model indices that the linked pairs of names give.
pub open spec fn link_edges(models: Seq<Seq<char>>, links: Seq<(String, String)>) -> Seq<
    (int, int),
> {
    Seq::new(
        links.len(),
        |k: int| (index_or_first(models, links[k].0@), index_or_first(models, links[k].1@)),
    )
}

// ---------------------------------------------------------------------
// Union-find forest

/// The forest `parent`, with the ghost `class` (the root of each node's
/// tree) and `depth` (decreasing towards the root), is well formed.
spec fn forest_wf(parent: Seq<usize>, class: Seq<int>, depth: Seq<nat>) -> bool {
    &&& parent.len() == class.len()
    &&& parent.len() == depth.len()
    &&& forall|x: int|
        #![trigger parent[x]]
        0 <= x < parent.len() ==> {
            &&& parent[x] < parent.len()
            &&& (parent[x] == x <==> depth[x] == 0)
            &&& (parent[x] != x ==> depth[parent[x] as int] < depth[x])
            &&& class[parent[x] as int] == class[x]
            &&& 0 <= class[x] < parent.len()
            &&& parent[class[x]] == class[x]
            &&& (parent[x] == x ==> class[x] == x)
        }
}

/// The root of `x`'s tree; compresses the path from `x` on the way.
fn find_root(parent: &mut Vec<usize>, x: usize, Ghost(class): Ghost<Seq<int>>, Ghost(depth): Ghost<Seq<nat>>) -> (root: usize)
    requires
        forest_wf(old(parent)@, class, depth),
        x < old(parent).len(),
    ensures
        forest_wf(final(parent)@, class, depth),
        final(parent).len() == old(parent).len(),
        root == class[x as int],
        root < final(parent).len(),
        final(parent)@[root as int] == root,
    decreases depth[x as int],
{
    let p = parent[x];
    assert(old(parent)@[x as int] == p);
    if p == x {
        return x;
    }
    let root = find_root(parent, p, Ghost(class), Ghost(depth));
    parent.set(x, root);
    root
}

/// `class` with the class `from` merged into the class `into`.
spec fn merged(class: Seq<int>, from: int, into: int) -> Seq<int> {
    Seq::new(class.len(), |i: int| if class[i] == from { into } else { class[i] })
}

/// `depth` with every node of the class `from` one level deeper.
spec fn deepened(class: Seq<int>, depth: Seq<nat>, from: int) -> Seq<nat> {
    Seq::new(depth.len(), |i: int| if class[i] == from { depth[i] + 1 } else { depth[i] })
}

/// Hanging the root `ra` below the root `rb` keeps the forest well formed,
/// with `ra`'s class merged into `rb`'s.
proof fn lemma_link_roots(
    parent: Seq<usize>,
    linked: Seq<usize>,
    class: Seq<int>,
    depth: Seq<nat>,
    ra: usize,
    rb: usize,
)
    requires
        forest_wf(parent, class, depth),
        ra < parent.len(),
        rb < parent.len(),
        ra != rb,
        parent[ra as int] == ra,
        parent[rb as int] == rb,
        linked == parent.update(ra as int, rb),
    ensures
        forest_wf(linked, merged(class, ra as int, rb as int), deepened(class, depth, ra as int)),
{
    let nc = merged(class, ra as int, rb as int);
    let nd = deepened(class, depth, ra as int);
    assert forall|x: int| #![trigger linked[x]] 0 <= x < linked.len() implies {
        &&& linked[x] < linked.len()
        &&& (linked[x] == x <==> nd[x] == 0)
        &&& (linked[x] != x ==> nd[linked[x] as int] < nd[x])
        &&& nc[linked[x] as int] == nc[x]
        &&& 0 <= nc[x] < linked.len()
        &&& linked[nc[x]] == nc[x]
        &&& (linked[x] == x ==> nc[x] == x)
    } by {
        assert(parent[x] < parent.len());
    }
}

/// Joining by the first `k + 1` edges includes joining by the first `k`.
proof fn lemma_joined_by_more(edges: Seq<(int, int)>, k: int, x: int, y: int)
    requires
        0 <= k,
        joined_by(edges, k, x, y),
    ensures
        joined_by(edges, k + 1, x, y),
{
    assert forall|label: spec_fn(int) -> int| #[trigger] respects(label, edges, k + 1) implies label(x)
        == label(y) by {
        assert(respects(label, edges, k));
    }
}

/// A class labelling that holds of the first `k` edges and joins only
/// joined nodes is exactly the relation of being joined.
proof fn lemma_class_is_joined(edges: Seq<(int, int)>, k: int, class: Seq<int>, x: int, y: int)
    requires
        0 <= x < class.len(),
        0 <= y < class.len(),
        forall|e: int| 0 <= e < k ==> class[#[trigger] edges[e].0] == class[edges[e].1],
        class[x] == class[y] ==> joined_by(edges, k, x, y),
    ensures
        class[x] == class[y] <==> joined_by(edges, k, x, y),
{
    if joined_by(edges, k, x, y) {
        let label = |i: int| class[i];
        assert(respects(label, edges, k));
    }
}

/// Merging the classes of the ends of edge `k` gives a labelling of the
/// first `k + 1` edges that still joins only joined nodes.
proof fn lemma_merge_joins(
    edges: Seq<(int, int)>,
    k: int,
    n: int,
    class: Seq<int>,
    ra: int,
    rb: int,
)
    requires
        0 <= k < edges.len(),
        class.len() == n,
        0 <= edges[k].0 < n,
        0 <= edges[k].1 < n,
        class[edges[k].0] == ra,
        class[edges[k].1] == rb,
        forall|e: int| 0 <= e < k ==> class[#[trigger] edges[e].0] == class[edges[e].1],
        forall|e: int| 0 <= e < edges.len() ==> 0 <= #[trigger] edges[e].0 < n && 0 <= edges[e].1 < n,
        forall|x: int, y: int|
            0 <= x < n && 0 <= y < n && #[trigger] class[x] == #[trigger] class[y] ==> joined_by(edges, k, x, y),
    ensures
        forall|e: int| 0 <= e < k + 1 ==> merged(class, ra, rb)[#[trigger] edges[e].0] == merged(class, ra, rb)[edges[e].1],
        forall|x: int, y: int|
            0 <= x < n && 0 <= y < n && #[trigger] merged(class, ra, rb)[x] == #[trigger] merged(class, ra, rb)[y] ==> joined_by(edges, k + 1, x, y),
{
    let nc = merged(class, ra, rb);
    let a = edges[k].0;
    let b = edges[k].1;
    assert forall|e: int| 0 <= e < k + 1 implies nc[#[trigger] edges[e].0] == nc[edges[e].1] by {
        if e < k {
            assert(class[edges[e].0] == class[edges[e].1]);
        }
    }
    assert forall|x: int, y: int|
        0 <= x < n && 0 <= y < n && #[trigger] nc[x] == #[trigger] nc[y] implies joined_by(edges, k + 1, x, y) by {
        assert forall|label: spec_fn(int) -> int| #[trigger] respects(label, edges, k + 1) implies label(x)
            == label(y) by {
            assert(respects(label, edges, k));
            assert(label(edges[k].0) == label(edges[k].1));
            if class[x] == class[y] {
                assert(joined_by(edges, k, x, y));
            } else {
                if class[x] == ra {
                    assert(joined_by(edges, k, x, a));
                    assert(joined_by(edges, k, b, y));
                } else {
                    assert(joined_by(edges, k, x, b));
                    assert(joined_by(edges, k, a, y));
                }
            }
        }
    }
}

/// `communities` names the models of `classes`, class by class.
pub open spec fn names_classes(communities: Seq<Vec<String>>, classes: Seq<Seq<int>>, models: Seq<String>) -> bool {
    &&& communities.len() == classes.len()
    &&& forall|g: int| 0 <= g < communities.len() ==> names_members(#[trigger] communities[g]@, classes[g], models)
}

/// `members` names the models of `class`, in order.
pub open spec fn names_members(members: Seq<String>, class: Seq<int>, models: Seq<String>) -> bool {
    &&& members.len() == class.len()
    &&& forall|i: int| 0 <= i < class.len() ==> (#[trigger] members[i])@ == models[class[i]]@
}

/// The classes of at least two models that the linked pairs join.
///
/// Each pair of `links` joins the first model of `models` named by its
/// first component with the first named by its second (a name that is not
/// in `models` stands for the first model). Each community lists the
/// names of its models in the order of `models`; communities come in the
/// order of their first models. Models that are joined to no other model
/// form no community.
pub fn group_communities(models: &Vec<String>, links: &Vec<(String, String)>) -> (communities: Vec<Vec<String>>)
    ensures
        names_classes(communities@, community_classes(link_edges(views(models@), links@), models.len() as int), models@),
{
    let n = models.len();
    let ghost edges = link_edges(views(models@), links@);
    if n == 0 {
        return Vec::new();
    }
    // the edges between model indices
    let mut ends: Vec<(usize, usize)> = Vec::new();
    let mut k: usize = 0;
    while k < links.len()
        invariant
            n == models.len(),
            n > 0,
            k <= links.len(),
            edges == link_edges(views(models@), links@),
            ends.len() == k,
            forall|e: int| 0 <= e < k ==> (#[trigger] ends@[e]).0 == edges[e].0 && ends@[e].1 == edges[e].1,
            forall|e: int| 0 <= e < k ==> (#[trigger] ends@[e]).0 < n && ends@[e].1 < n,
        decreases links.len() - k,
    {
        let a = match position_of(models, &links[k].0) {
            Some(i) => i,
            None => 0,
        };
        let b = match position_of(models, &links[k].1) {
            Some(i) => i,
            None => 0,
        };
        assert(a as int == index_or_first(views(models@), links@[k as int].0@));
        assert(b as int == index_or_first(views(models@), links@[k as int].1@));
        assert(edges[k as int] == (a as int, b as int));
        ends.push((a, b));
        k = k + 1;
    }
    assert(forall|e: int| 0 <= e < edges.len() ==> 0 <= #[trigger] edges[e].0 < n && 0 <= edges[e].1 < n) by {
        assert forall|e: int| 0 <= e < edges.len() implies 0 <= #[trigger] edges[e].0 < n && 0 <= edges[e].1 < n by {
            assert(ends@[e].0 < n);
        }
    }
    // the union-find forest: every model starts as its own root
    let mut parent: Vec<usize> = Vec::new();
    let mut x: usize = 0;
    while x < n
        invariant
            x <= n,
            parent.len() == x,
            forall|y: int| 0 <= y < x ==> #[trigger] parent@[y] == y,
        decreases n - x,
    {
        parent.push(x);
        x = x + 1;
    }
    let ghost mut class: Seq<int> = Seq::new(n as nat, |i: int| i);
    let ghost mut depth: Seq<nat> = Seq::new(n as nat, |i: int| 0nat);
    assert(forest_wf(parent@, class, depth)) by {
        assert forall|y: int| #![trigger parent@[y]] 0 <= y < parent@.len() implies parent@[y] == y by {}
    }
    k = 0;
    while k < ends.len()
        invariant
            n == models.len(),
            n > 0,
            k <= ends.len(),
            ends.len() == edges.len(),
            parent.len() == n,
            forall|e: int| 0 <= e < ends.len() ==> (#[trigger] ends@[e]).0 == edges[e].0 && ends@[e].1 == edges[e].1,
            forall|e: int| 0 <= e < edges.len() ==> 0 <= #[trigger] edges[e].0 < n && 0 <= edges[e].1 < n,
            forest_wf(parent@, class, depth),
            forall|e: int| 0 <= e < k ==> class[#[trigger] edges[e].0] == class[edges[e].1],
            forall|x: int, y: int|
                0 <= x < n && 0 <= y < n && #[trigger] class[x] == #[trigger] class[y] ==> joined_by(edges, k as int, x, y),
        decreases ends.len() - k,
    {
        let (a, b) = ends[k];
        assert(ends@[k as int].0 < n);
        let ra = find_root(&mut parent, a, Ghost(class), Ghost(depth));
        let rb = find_root(&mut parent, b, Ghost(class), Ghost(depth));
        if ra != rb {
            proof {
                lemma_merge_joins(edges, k as int, n as int, class, ra as int, rb as int);
            }
            let ghost before = parent@;
            parent.set(ra, rb);
            proof {
                lemma_link_roots(before, parent@, class, depth, ra, rb);
                depth = deepened(class, depth, ra as int);
                class = merged(class, ra as int, rb as int);
            }
        } else {
            proof {
                assert forall|x: int, y: int|
                    0 <= x < n && 0 <= y < n && #[trigger] class[x] == #[trigger] class[y] implies joined_by(edges, k + 1, x, y) by {
                    lemma_joined_by_more(edges, k as int, x, y);
                }
            }
        }
        k = k + 1;
    }
    // the root of every model's tree
    let mut roots: Vec<usize> = Vec::new();
    x = 0;
    while x < n
        invariant
            x <= n,
            parent.len() == n,
            forest_wf(parent@, class, depth),
            roots.len() == x,
            forall|y: int| 0 <= y < x ==> #[trigger] roots@[y] == class[y],
        decreases n - x,
    {
        let r = find_root(&mut parent, x, Ghost(class), Ghost(depth));
        roots.push(r);
        x = x + 1;
    }
    assert(forall|y: int, z: int|
        0 <= y < n && 0 <= z < n ==> (#[trigger] roots@[y] == #[trigger] roots@[z] <==> joined(edges, y, z))) by {
        assert forall|y: int, z: int|
            0 <= y < n && 0 <= z < n implies (#[trigger] roots@[y] == #[trigger] roots@[z] <==> joined(edges, y, z)) by {
            lemma_class_is_joined(edges, edges.len() as int, class, y, z);
        }
    }
    // the classes, each listed once from its least model
    let mut communities: Vec<Vec<String>> = Vec::new();
    x = 0;
    while x < n
        invariant
            x <= n,
            n == models.len(),
            roots.len() == n,
            edges == link_edges(views(models@), links@),
            forall|y: int, z: int|
                0 <= y < n && 0 <= z < n ==> (#[trigger] roots@[y] == #[trigger] roots@[z] <==> joined(edges, y, z)),
            names_classes(communities@, communities_below(edges, n as int, x as int), models@),
        decreases n - x,
    {
        let mut leads = true;
        let mut y: usize = 0;
        while y < x
            invariant
                y <= x,
                x < n,
                roots.len() == n,
                leads <==> forall|z: int| 0 <= z < y ==> roots@[z] != roots@[x as int],
            decreases x - y,
        {
            if roots[y] == roots[x] {
                leads = false;
            }
            y = y + 1;
        }
        proof {
            assert(leads <==> leads_class(edges, x as int)) by {
                if !leads {
                    let z = choose|z: int| 0 <= z < x && roots@[z] == roots@[x as int];
                    assert(joined(edges, z, x as int));
                } else {
                    assert forall|z: int| 0 <= z < x implies !joined(edges, z, x as int) by {
                        assert(roots@[z] != roots@[x as int]);
                    }
                }
            }
        }
        if leads {
            let mut members: Vec<String> = Vec::new();
            let mut m: usize = 0;
            while m < n
                invariant
                    m <= n,
                    x < n,
                    n == models.len(),
                    roots.len() == n,
                    forall|y: int, z: int|
                        0 <= y < n && 0 <= z < n ==> (#[trigger] roots@[y] == #[trigger] roots@[z] <==> joined(edges, y, z)),
                    names_members(members@, class_below(edges, x as int, m as int), models@),
                decreases n - m,
            {
                let ghost before = members@;
                if roots[m] == roots[x] {
                    members.push(models[m].clone());
                }
                proof {
                    let c = class_below(edges, x as int, m + 1);
                    assert(roots@[x as int] == roots@[m as int] <==> joined(edges, x as int, m as int));
                    assert forall|i: int| 0 <= i < c.len() implies (#[trigger] members@[i])@ == models@[c[i]]@ by {
                        if i < before.len() {
                            assert(members@[i] == before[i]);
                        }
                    }
                }
                m = m + 1;
            }
            if members.len() >= 2 {
                let ghost old_communities = communities@;
                let ghost new_members = members@;
                communities.push(members);
                proof {
                    let classes = communities_below(edges, n as int, x + 1);
                    assert forall|g: int| 0 <= g < communities.len() implies names_members(#[trigger] communities@[g]@, classes[g], models@) by {
                        if g < old_communities.len() {
                            assert(communities@[g] == old_communities[g]);
                        } else {
                            assert(communities@[g]@ == new_members);
                        }
                    }
                }
            }
        }
        x = x + 1;
    }
    communities
}

// ---------------------------------------------------------------------
// What the communities are

proof fn lemma_joined_symmetric(edges: Seq<(int, int)>, x: int, y: int)
    requires
        joined(edges, x, y),
    ensures
        joined(edges, y, x),
{
    assert forall|label: spec_fn(int) -> int| #[trigger] respects(label, edges, edges.len() as int) implies label(y)
        == label(x) by {}
}

proof fn lemma_joined_transitive(edges: Seq<(int, int)>, x: int, y: int, z: int)
    requires
        joined(edges, x, y),
        joined(edges, y, z),
    ensures
        joined(edges, x, z),
{
    assert forall|label: spec_fn(int) -> int| #[trigger] respects(label, edges, edges.len() as int) implies label(x)
        == label(z) by {}
}

/// `class_below(x, m)` lists, in increasing order, exactly the nodes below
/// `m` joined to `x`.
proof fn lemma_class_below(edges: Seq<(int, int)>, x: int, m: int)
    ensures
        forall|i: int| 0 <= i < class_below(edges, x, m).len() ==> {
            &&& 0 <= #[trigger] class_below(edges, x, m)[i] < m
            &&& joined(edges, x, class_below(edges, x, m)[i])
        },
        forall|i: int, j: int|
            0 <= i < j < class_below(edges, x, m).len() ==> #[trigger] class_below(edges, x, m)[i]
                < #[trigger] class_below(edges, x, m)[j],
        forall|y: int| 0 <= y < m && joined(edges, x, y) ==> #[trigger] class_below(edges, x, m).contains(y),
    decreases m,
{
    if m > 0 {
        lemma_class_below(edges, x, m - 1);
        let prev = class_below(edges, x, m - 1);
        let cur = class_below(edges, x, m);
        assert forall|y: int| 0 <= y < m && joined(edges, x, y) implies #[trigger] cur.contains(y) by {
            if y < m - 1 {
                assert(prev.contains(y));
                let w = choose|w: int| 0 <= w < prev.len() && prev[w] == y;
                assert(cur[w] == y);
            } else {
                assert(cur[cur.len() - 1] == y);
            }
        }
    }
}

/// Every listed community is the whole class of a least node below `m`,
/// of at least two members, and the least nodes of the listed communities
/// increase.
proof fn lemma_communities_below(edges: Seq<(int, int)>, n: int, m: int)
    ensures
        forall|g: int|
            0 <= g < communities_below(edges, n, m).len() ==> exists|x: int|
                0 <= x < m && leads_class(edges, x) && #[trigger] communities_below(edges, n, m)[g] == class_below(
                    edges,
                    x,
                    n,
                ) && class_below(edges, x, n).len() >= 2,
        forall|x: int|
            0 <= x < m && leads_class(edges, x) && class_below(edges, x, n).len() >= 2 ==> #[trigger] communities_below(
                edges,
                n,
                m,
            ).contains(class_below(edges, x, n)),
    decreases m,
{
    if m > 0 {
        lemma_communities_below(edges, n, m - 1);
        let prev = communities_below(edges, n, m - 1);
        let cur = communities_below(edges, n, m);
        assert forall|g: int| 0 <= g < cur.len() implies exists|x: int|
            0 <= x < m && leads_class(edges, x) && #[trigger] cur[g] == class_below(edges, x, n)
                && class_below(edges, x, n).len() >= 2 by {
            if g < prev.len() {
                assert(cur[g] == prev[g]);
                let x = choose|x: int|
                    0 <= x < m - 1 && leads_class(edges, x) && #[trigger] prev[g] == class_below(edges, x, n)
                        && class_below(edges, x, n).len() >= 2;
                assert(0 <= x < m);
            } else {
                assert(cur[g] == class_below(edges, m - 1, n));
            }
        }
        assert forall|x: int|
            0 <= x < m && leads_class(edges, x) && class_below(edges, x, n).len() >= 2 implies #[trigger] cur.contains(
            class_below(edges, x, n),
        ) by {
            if x < m - 1 {
                assert(prev.contains(class_below(edges, x, n)));
                let w = choose|w: int| 0 <= w < prev.len() && prev[w] == class_below(edges, x, n);
                assert(cur[w] == prev[w]);
            } else {
                assert(cur[cur.len() - 1] == class_below(edges, x, n));
            }
        }
    }
}

/// A community holds at least two models, listed in increasing order,
/// and any two of its models are joined.
pub proof fn lemma_community_members_joined(edges: Seq<(int, int)>, n: int, g: int, i: int, j: int)
    requires
        0 <= g < community_classes(edges, n).len(),
        0 <= i < community_classes(edges, n)[g].len(),
        0 <= j < community_classes(edges, n)[g].len(),
    ensures
        community_classes(edges, n)[g].len() >= 2,
        0 <= community_classes(edges, n)[g][i] < n,
        i < j ==> community_classes(edges, n)[g][i] < community_classes(edges, n)[g][j],
        joined(edges, community_classes(edges, n)[g][i], community_classes(edges, n)[g][j]),
{
    lemma_communities_below(edges, n, n);
    let c = community_classes(edges, n)[g];
    let x = choose|x: int|
        0 <= x < n && leads_class(edges, x) && #[trigger] communities_below(edges, n, n)[g] == class_below(edges, x, n)
            && class_below(edges, x, n).len() >= 2;
    lemma_class_below(edges, x, n);
    assert(joined(edges, x, c[i]));
    assert(joined(edges, x, c[j]));
    lemma_joined_symmetric(edges, x, c[i]);
    lemma_joined_transitive(edges, c[i], x, c[j]);
}

/// Two different communities share no model.
pub proof fn lemma_communities_disjoint(edges: Seq<(int, int)>, n: int, g1: int, g2: int, i1: int, i2: int)
    requires
        0 <= g1 < community_classes(edges, n).len(),
        0 <= g2 < community_classes(edges, n).len(),
        g1 != g2,
        0 <= i1 < community_classes(edges, n)[g1].len(),
        0 <= i2 < community_classes(edges, n)[g2].len(),
    ensures
        community_classes(edges, n)[g1][i1] != community_classes(edges, n)[g2][i2],
{
    lemma_communities_below(edges, n, n);
    if g1 < g2 {
        lemma_communities_leaders_increase(edges, n, n, g1, g2);
    } else {
        lemma_communities_leaders_increase(edges, n, n, g2, g1);
    }
    let cs = community_classes(edges, n);
    let x1 = choose|x: int|
        0 <= x < n && leads_class(edges, x) && #[trigger] communities_below(edges, n, n)[g1] == class_below(edges, x, n)
            && class_below(edges, x, n).len() >= 2;
    let x2 = choose|x: int|
        0 <= x < n && leads_class(edges, x) && #[trigger] communities_below(edges, n, n)[g2] == class_below(edges, x, n)
            && class_below(edges, x, n).len() >= 2;
    if cs[g1][i1] == cs[g2][i2] {
        lemma_class_below(edges, x1, n);
        lemma_class_below(edges, x2, n);
        let y = cs[g1][i1];
        assert(joined(edges, x1, y));
        assert(joined(edges, x2, y));
        lemma_joined_symmetric(edges, x2, y);
        lemma_joined_transitive(edges, x1, y, x2);
        lemma_joined_symmetric(edges, x1, x2);
        if x1 < x2 {
            assert(!joined(edges, x1, x2));
        } else if x2 < x1 {
            assert(!joined(edges, x2, x1));
        } else {
            assert(cs[g1] == cs[g2]);
        }
    }
}

/// Different communities are different classes.
proof fn lemma_communities_leaders_increase(edges: Seq<(int, int)>, n: int, m: int, g1: int, g2: int)
    requires
        0 <= g1 < g2 < communities_below(edges, n, m).len(),
    ensures
        communities_below(edges, n, m)[g1] != communities_below(edges, n, m)[g2],
    decreases m,
{
    let prev = communities_below(edges, n, m - 1);
    let cur = communities_below(edges, n, m);
    if g2 < prev.len() {
        assert(cur[g1] == prev[g1]);
        assert(cur[g2] == prev[g2]);
        lemma_communities_leaders_increase(edges, n, m - 1, g1, g2);
    } else {
        // cur[g2] is the class led by m - 1; cur[g1] is led by a node below m - 1
        lemma_communities_below(edges, n, m - 1);
        assert(cur[g1] == prev[g1]);
        let x = choose|x: int|
            0 <= x < m - 1 && leads_class(edges, x) && #[trigger] prev[g1] == class_below(edges, x, n)
                && class_below(edges, x, n).len() >= 2;
        lemma_class_below(edges, x, n);
        lemma_class_below(edges, m - 1, n);
        assert(cur[g2] == class_below(edges, m - 1, n));
        if cur[g1] == cur[g2] {
            let z = cur[g1][0];
            assert(joined(edges, x, z));
            assert(joined(edges, m - 1, z));
            lemma_joined_symmetric(edges, m - 1, z);
            lemma_joined_transitive(edges, x, z, m - 1);
            assert(!joined(edges, x, m - 1));
        }
    }
}

/// Any two different models below `n` that are joined lie together in one
/// community.
pub proof fn lemma_joined_models_share_community(edges: Seq<(int, int)>, n: int, x: int, y: int)
    requires
        0 <= x < n,
        0 <= y < n,
        x != y,
        joined(edges, x, y),
    ensures
        exists|g: int, i: int, j: int|
            0 <= g < community_classes(edges, n).len() && 0 <= i < community_classes(edges, n)[g].len() && 0 <= j
                < community_classes(edges, n)[g].len() && #[trigger] community_classes(edges, n)[g][i] == x
                && #[trigger] community_classes(edges, n)[g][j] == y,
{
    // the least node of x's class leads it
    assert(joined(edges, x, x));
    lemma_class_below(edges, x, n);
    let cx = class_below(edges, x, n);
    assert(cx.contains(x));
    let z = cx[0];
    assert(joined(edges, x, z));
    lemma_joined_symmetric(edges, x, z);
    assert forall|w: int| 0 <= w < z implies !joined(edges, w, z) by {
        if joined(edges, w, z) {
            lemma_joined_transitive(edges, x, z, w);
            lemma_joined_symmetric(edges, w, z);
            lemma_joined_transitive(edges, x, z, w);
            assert(cx.contains(w));
            let k = choose|k: int| 0 <= k < cx.len() && cx[k] == w;
            if k > 0 {
                assert(cx[0] < cx[k]);
            }
        }
    }
    lemma_class_below(edges, z, n);
    let cz = class_below(edges, z, n);
    lemma_joined_transitive(edges, z, x, y);
    assert(cz.contains(x));
    assert(cz.contains(y));
    let i = choose|i: int| 0 <= i < cz.len() && cz[i] == x;
    let j = choose|j: int| 0 <= j < cz.len() && cz[j] == y;
    assert(cz.len() >= 2);
    lemma_communities_below(edges, n, n);
    assert(communities_below(edges, n, n).contains(cz));
    let g = choose|g: int| 0 <= g < communities_below(edges, n, n).len() && communities_below(edges, n, n)[g] == cz;
    assert(community_classes(edges, n)[g][i] == x);
    assert(community_classes(edges, n)[g][j] == y);
}

/// Some edge joins `u` and `v`, in one direction or the other.
pub open spec fn adjacent(edges: Seq<(int, int)>, u: int, v: int) -> bool {
    exists|e: int|
        0 <= e < edges.len() && ((#[trigger] edges[e].0 == u && edges[e].1 == v) || (edges[e].0 == v
            && edges[e].1 == u))
}

/// `path` is a chain of nodes, each adjacent to the next.
pub open spec fn is_chain(edges: Seq<(int, int)>, path: Seq<int>) -> bool {
    &&& path.len() >= 1
    &&& forall|i: int| 0 <= i < path.len() - 1 ==> adjacent(edges, #[trigger] path[i], path[i + 1])
}

/// A chain of edges leads from `x` to `y`.
pub open spec fn chained(edges: Seq<(int, int)>, x: int, y: int) -> bool {
    exists|path: Seq<int>| #[trigger] is_chain(edges, path) && path[0] == x && path.last() == y
}

proof fn lemma_chain_keeps_label(edges: Seq<(int, int)>, path: Seq<int>, label: spec_fn(int) -> int, i: int)
    requires
        is_chain(edges, path),
        respects(label, edges, edges.len() as int),
        0 <= i < path.len(),
    ensures
        label(path[i]) == label(path[0]),
    decreases i,
{
    if i > 0 {
        lemma_chain_keeps_label(edges, path, label, i - 1);
        assert(adjacent(edges, path[i - 1], path[i]));
        let e = choose|e: int|
            0 <= e < edges.len() && ((#[trigger] edges[e].0 == path[i - 1] && edges[e].1 == path[i]) || (
            edges[e].0 == path[i] && edges[e].1 == path[i - 1]));
        assert(label(edges[e].0) == label(edges[e].1));
    }
}

proof fn lemma_chain_extends(edges: Seq<(int, int)>, x: int, u: int, v: int)
    requires
        chained(edges, x, u),
        adjacent(edges, u, v),
    ensures
        chained(edges, x, v),
{
    let path = choose|path: Seq<int>| #[trigger] is_chain(edges, path) && path[0] == x && path.last() == u;
    let longer = path.push(v);
    assert forall|i: int| 0 <= i < longer.len() - 1 implies adjacent(edges, #[trigger] longer[i], longer[i + 1]) by {
        if i < path.len() - 1 {
            assert(longer[i] == path[i]);
            assert(longer[i + 1] == path[i + 1]);
            assert(adjacent(edges, path[i], path[i + 1]));
        } else {
            assert(longer[i] == u);
        }
    }
    assert(is_chain(edges, longer));
    assert(longer[0] == x);
}

/// Being joined is being connected by a chain of edges: a community is a
/// set of models linked pairwise through strongly correlated pairs.
pub proof fn lemma_joined_iff_chained(edges: Seq<(int, int)>, x: int, y: int)
    ensures
        joined(edges, x, y) <==> chained(edges, x, y),
{
    if chained(edges, x, y) {
        let path = choose|path: Seq<int>| #[trigger] is_chain(edges, path) && path[0] == x && path.last() == y;
        assert forall|label: spec_fn(int) -> int| #[trigger] respects(label, edges, edges.len() as int) implies label(x)
            == label(y) by {
            lemma_chain_keeps_label(edges, path, label, path.len() - 1);
        }
    }
    if joined(edges, x, y) {
        let label = |i: int| if chained(edges, x, i) { 1int } else { 0int };
        let single = seq![x];
        assert(is_chain(edges, single));
        assert(chained(edges, x, x));
        assert forall|e: int| 0 <= e < edges.len() implies label(#[trigger] edges[e].0) == label(edges[e].1) by {
            let a = edges[e].0;
            let b = edges[e].1;
            assert(adjacent(edges, a, b));
            assert(adjacent(edges, b, a));
            if chained(edges, x, a) {
                lemma_chain_extends(edges, x, a, b);
            }
            if chained(edges, x, b) {
                lemma_chain_extends(edges, x, b, a);
            }
        }
        assert(respects(label, edges, edges.len() as int));
    }
}

// ---------------------------------------------------------------------
// Fewer links refine the communities

/// Every edge of `fewer` is also an edge of `more`.
pub open spec fn edges_within(fewer: Seq<(int, int)>, more: Seq<(int, int)>) -> bool {
    forall|e: int| 0 <= e < fewer.len() ==> #[trigger] more.contains(fewer[e])
}

/// Every linked pair of `fewer` is also a linked pair of `more`, name for
/// name.
pub open spec fn links_within(fewer: Seq<(String, String)>, more: Seq<(String, String)>) -> bool {
    forall|e: int|
        0 <= e < fewer.len() ==> exists|f: int|
            0 <= f < more.len() && #[trigger] more[f].0@ == (#[trigger] fewer[e]).0@ && more[f].1@
                == fewer[e].1@
}

/// Every member of `small` is a member of `big`.
pub open spec fn lies_within(small: Seq<int>, big: Seq<int>) -> bool {
    forall|i: int| 0 <= i < small.len() ==> #[trigger] big.contains(small[i])
}

/// Models joined by some edges are joined by any larger set of edges.
pub proof fn lemma_joined_by_more_edges(fewer: Seq<(int, int)>, more: Seq<(int, int)>, x: int, y: int)
    requires
        edges_within(fewer, more),
        joined(fewer, x, y),
    ensures
        joined(more, x, y),
{
    assert forall|label: spec_fn(int) -> int| #[trigger] respects(label, more, more.len() as int) implies label(x)
        == label(y) by {
        assert forall|e: int| 0 <= e < fewer.len() implies label(#[trigger] fewer[e].0) == label(fewer[e].1) by {
            assert(more.contains(fewer[e]));
            let f = choose|f: int| 0 <= f < more.len() && more[f] == fewer[e];
            assert(label(more[f].0) == label(more[f].1));
        }
        assert(respects(label, fewer, fewer.len() as int));
    }
}

/// With more edges the communities can only merge: each community of the
/// smaller set of edges lies inside one community of the larger.
pub proof fn lemma_communities_refine(fewer: Seq<(int, int)>, more: Seq<(int, int)>, n: int, g: int)
    requires
        edges_within(fewer, more),
        0 <= g < community_classes(fewer, n).len(),
    ensures
        exists|h: int|
            0 <= h < community_classes(more, n).len() && #[trigger] lies_within(
                community_classes(fewer, n)[g],
                community_classes(more, n)[h],
            ),
{
    let c = community_classes(fewer, n)[g];
    let cs = community_classes(more, n);
    lemma_communities_below(fewer, n, n);
    let leader = choose|x: int|
        0 <= x < n && leads_class(fewer, x) && #[trigger] communities_below(fewer, n, n)[g] == class_below(fewer, x, n)
            && class_below(fewer, x, n).len() >= 2;
    assert(c.len() >= 2);
    lemma_community_members_joined(fewer, n, g, 0, 0);
    lemma_community_members_joined(fewer, n, g, 1, 1);
    lemma_community_members_joined(fewer, n, g, 0, 1);
    let x = c[0];
    let y = c[1];
    lemma_joined_by_more_edges(fewer, more, x, y);
    lemma_joined_models_share_community(more, n, x, y);
    let (h, hi, hj) = choose|h: int, i: int, j: int|
        0 <= h < cs.len() && 0 <= i < cs[h].len() && 0 <= j < cs[h].len() && #[trigger] cs[h][i] == x
            && #[trigger] cs[h][j] == y;
    assert forall|i: int| 0 <= i < c.len() implies #[trigger] cs[h].contains(c[i]) by {
        let z = c[i];
        if z == x {
            assert(cs[h][hi] == z);
        } else {
            lemma_community_members_joined(fewer, n, g, i, i);
            lemma_community_members_joined(fewer, n, g, 0, i);
            lemma_joined_by_more_edges(fewer, more, x, z);
            lemma_joined_models_share_community(more, n, x, z);
            let (h2, i2, j2) = choose|h2: int, i2: int, j2: int|
                0 <= h2 < cs.len() && 0 <= i2 < cs[h2].len() && 0 <= j2 < cs[h2].len() && #[trigger] cs[h2][i2]
                    == x && #[trigger] cs[h2][j2] == z;
            if h2 != h {
                lemma_communities_disjoint(more, n, h, h2, hi, i2);
            }
            assert(cs[h][j2] == z);
        }
    }
    assert(lies_within(c, cs[h]));
}

/// Linking more pairs of models, as a lower correlation threshold does,
/// can only merge communities: when every linked pair of `fewer` is also
/// linked in `more`, each community that `group_communities` finds for
/// `fewer` lies inside one that it finds for `more`.
pub proof fn lemma_more_links_merge_communities(
    models: Seq<String>,
    fewer: Seq<(String, String)>,
    more: Seq<(String, String)>,
    g: int,
)
    requires
        links_within(fewer, more),
        0 <= g < community_classes(link_edges(views(models), fewer), models.len() as int).len(),
    ensures
        exists|h: int|
            0 <= h < community_classes(link_edges(views(models), more), models.len() as int).len()
                && #[trigger] lies_within(
                community_classes(link_edges(views(models), fewer), models.len() as int)[g],
                community_classes(link_edges(views(models), more), models.len() as int)[h],
            ),
{
    let ef = link_edges(views(models), fewer);
    let em = link_edges(views(models), more);
    assert forall|e: int| 0 <= e < ef.len() implies #[trigger] em.contains(ef[e]) by {
        let f = choose|f: int|
            0 <= f < more.len() && #[trigger] more[f].0@ == (#[trigger] fewer[e]).0@ && more[f].1@ == fewer[e].1@;
        assert(em[f] == ef[e]);
    }
    lemma_communities_refine(ef, em, models.len() as int, g);
}

} // verus!
