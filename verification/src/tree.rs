//! Junctions and the junction tree: deduplicated positions wired into a
//! spanning tree of directional links by a disjoint-set construction.

use vstd::prelude::*;
use vstd::seq_lib::*;
use crate::errors::NetError;
use crate::geometry::Pair;
use crate::geometry::Point;
use crate::geometry::Route;
use crate::geometry::Towards;
use crate::unionfind::UnionFind;
use crate::unionfind::lemma_new_classes;
use crate::unionfind::lemma_single_class;
use crate::unionfind::lemma_union_classes;
use crate::unionfind::num_classes;

verus! {

/// A directional link to a nearby junction.
#[derive(Clone, Copy, Debug, Eq, Hash, PartialEq, Structural)]
pub struct Pointer {
    /// Index of the neighbouring junction in the owning collection.
    pub index: usize,
    /// Layer on which the link runs.
    pub height: usize,
}

/// A junction: a deduplicated position, optionally tagged with a pin id,
/// holding up to four directional links. Layer-axis directions are never
/// stored as links.
#[derive(Clone, Copy, Debug)]
pub struct NetNode {
    /// The pin id at this position; `None` for a synthetic bend/via junction.
    pub id: Option<usize>,
    /// The 2-dimensional position.
    pub position: Pair,
    /// Link towards greater row numbers.
    pub up: Option<Pointer>,
    /// Link towards smaller row numbers.
    pub down: Option<Pointer>,
    /// Link towards smaller column numbers.
    pub left: Option<Pointer>,
    /// Link towards greater column numbers.
    pub right: Option<Pointer>,
}

/// The link a junction stores in a given direction (layer-axis directions
/// store none).
pub open spec fn link_of(n: NetNode, d: Towards) -> Option<Pointer> {
    match d {
        Towards::Up => n.up,
        Towards::Down => n.down,
        Towards::Left => n.left,
        Towards::Right => n.right,
        Towards::Top | Towards::Bottom => None,
    }
}

/// The junction with the link in direction `d` replaced.
pub open spec fn set_link(n: NetNode, d: Towards, p: Pointer) -> NetNode {
    match d {
        Towards::Up => NetNode { up: Some(p), ..n },
        Towards::Down => NetNode { down: Some(p), ..n },
        Towards::Left => NetNode { left: Some(p), ..n },
        Towards::Right => NetNode { right: Some(p), ..n },
        Towards::Top | Towards::Bottom => n,
    }
}

/// How many links a junction stores.
pub open spec fn degree(n: NetNode) -> nat {
    (if n.up is Some {
        1nat
    } else {
        0nat
    }) + (if n.down is Some {
        1nat
    } else {
        0nat
    }) + (if n.left is Some {
        1nat
    } else {
        0nat
    }) + (if n.right is Some {
        1nat
    } else {
        0nat
    })
}

/// The total number of stored links over a junction collection (each tree
/// edge counts twice, once per endpoint).
pub open spec fn count_links(nodes: Seq<NetNode>) -> nat
    decreases nodes.len(),
{
    if nodes.len() == 0 {
        0
    } else {
        count_links(nodes.drop_last()) + degree(nodes.last())
    }
}

proof fn lemma_count_links_update(nodes: Seq<NetNode>, i: int, v: NetNode)
    requires
        0 <= i < nodes.len(),
    ensures
        count_links(nodes.update(i, v)) + degree(nodes[i]) == count_links(nodes) + degree(v),
    decreases nodes.len(),
{
    if i == nodes.len() - 1 {
        assert(nodes.update(i, v).drop_last() =~= nodes.drop_last());
    } else {
        assert(nodes.update(i, v).drop_last() =~= nodes.drop_last().update(i, v));
        lemma_count_links_update(nodes.drop_last(), i, v);
    }
}

proof fn lemma_count_links_none(nodes: Seq<NetNode>)
    requires
        forall|j: int| 0 <= j < nodes.len() ==> links_none(#[trigger] nodes[j]),
    ensures
        count_links(nodes) == 0,
    decreases nodes.len(),
{
    if nodes.len() > 0 {
        lemma_count_links_none(nodes.drop_last());
        assert(links_none(nodes.last()));
    }
}

/// Positions are unique across a junction collection.
pub open spec fn positions_distinct(nodes: Seq<NetNode>) -> bool {
    forall|i: int, j: int|
        0 <= i < j < nodes.len() ==> nodes[i].position != nodes[j].position
}

/// Every stored link points inside the collection, never back at its own
/// junction, and is mirrored by an inverse-direction link on the same layer.
pub open spec fn links_wf(nodes: Seq<NetNode>) -> bool {
    forall|j: int, d: Towards|
        0 <= j < nodes.len() && d.is_planar() && (#[trigger] link_of(nodes[j], d)) is Some
            ==> {
            let p = link_of(nodes[j], d).unwrap();
            &&& p.index < nodes.len()
            &&& p.index != j
            &&& link_of(nodes[p.index as int], d.spec_inv()) == Some(
                Pointer { index: j as usize, height: p.height },
            )
        }
}

/// The links of junction `j` agree with the grid: an up-link points to a
/// junction on the same column and a greater row, and so on for the other
/// three directions; every link runs to a junction inside the collection.
pub open spec fn geom_ok(nodes: Seq<NetNode>, j: int) -> bool {
    let n = nodes[j];
    &&& (n.up matches Some(p) ==> p.index < nodes.len()
        && nodes[p.index as int].position.1 == n.position.1
        && nodes[p.index as int].position.0 > n.position.0)
    &&& (n.down matches Some(p) ==> p.index < nodes.len()
        && nodes[p.index as int].position.1 == n.position.1
        && nodes[p.index as int].position.0 < n.position.0)
    &&& (n.left matches Some(p) ==> p.index < nodes.len()
        && nodes[p.index as int].position.0 == n.position.0
        && nodes[p.index as int].position.1 < n.position.1)
    &&& (n.right matches Some(p) ==> p.index < nodes.len()
        && nodes[p.index as int].position.0 == n.position.0
        && nodes[p.index as int].position.1 > n.position.1)
}

/// Every stored link agrees with the grid geometry.
pub open spec fn links_geometric(nodes: Seq<NetNode>) -> bool {
    forall|j: int| 0 <= j < nodes.len() ==> #[trigger] geom_ok(nodes, j)
}

/// Adding one mirrored link pair for a planar segment keeps the links
/// geometric, provided the two junctions sit at the segment's flattened
/// endpoints.
proof fn lemma_connect_preserves_geometry(
    before: Seq<NetNode>,
    si: int,
    ti: int,
    h: usize,
    t: Towards,
    rt: Route,
)
    requires
        links_geometric(before),
        before.len() <= usize::MAX,
        0 <= si < before.len(),
        0 <= ti < before.len(),
        si != ti,
        rt.spec_towards() == Some(t),
        t.is_planar(),
        before[si].position == rt.0.spec_flatten(),
        before[ti].position == rt.1.spec_flatten(),
    ensures
        ({
            let ps = Pointer { index: ti as usize, height: h };
            let po = Pointer { index: si as usize, height: h };
            links_geometric(
                before.update(si, set_link(before[si], t, ps)).update(
                    ti,
                    set_link(before[ti], t.spec_inv(), po),
                ),
            )
        }),
{
    let ps = Pointer { index: ti as usize, height: h };
    let po = Pointer { index: si as usize, height: h };
    let ns = set_link(before[si], t, ps);
    let no = set_link(before[ti], t.spec_inv(), po);
    let after = before.update(si, ns).update(ti, no);
    assert forall|j: int| 0 <= j < after.len() implies #[trigger] geom_ok(after, j) by {
        assert(geom_ok(before, j));
        assert(forall|m: int|
            0 <= m < before.len() ==> (#[trigger] after[m]).position == before[m].position);
        if j == si {
            assert(after[j] == ns);
        } else if j == ti {
            assert(after[j] == no);
        } else {
            assert(after[j] == before[j]);
        }
    }
}

/// Junction `a` stores a link to junction `b`.
pub open spec fn linked(nodes: Seq<NetNode>, a: int, b: int) -> bool {
    exists|d: Towards|
        d.is_planar() && (#[trigger] link_of(nodes[a], d)) is Some && link_of(
            nodes[a],
            d,
        ).unwrap().index == b
}

/// A walk along stored links: non-empty, every index in range, and every
/// consecutive pair linked.
pub open spec fn is_path(nodes: Seq<NetNode>, path: Seq<int>) -> bool {
    &&& path.len() >= 1
    &&& forall|k: int| 0 <= k < path.len() ==> 0 <= #[trigger] path[k] < nodes.len()
    &&& forall|k: int| 0 <= k < path.len() - 1 ==> linked(nodes, #[trigger] path[k], path[k + 1])
}

/// Junction `b` can be reached from junction `a` along stored links.
pub open spec fn reachable(nodes: Seq<NetNode>, a: int, b: int) -> bool {
    exists|path: Seq<int>| is_path(nodes, path) && path.first() == a && path.last() == b
}

/// Every junction can be reached from the first one.
pub open spec fn connected(nodes: Seq<NetNode>) -> bool {
    forall|j: int| 0 <= j < nodes.len() ==> reachable(nodes, 0, j)
}

pub proof fn lemma_reachable_refl(nodes: Seq<NetNode>, a: int)
    requires
        0 <= a < nodes.len(),
    ensures
        reachable(nodes, a, a),
{
    let path = seq![a];
    assert(is_path(nodes, path));
    assert(path.first() == a && path.last() == a);
}

pub proof fn lemma_reachable_step(nodes: Seq<NetNode>, a: int, b: int)
    requires
        0 <= a < nodes.len(),
        0 <= b < nodes.len(),
        linked(nodes, a, b),
    ensures
        reachable(nodes, a, b),
{
    let path = seq![a, b];
    assert(path[0] == a && path[1] == b);
    assert(linked(nodes, path[0], path[1]));
    assert(is_path(nodes, path));
    assert(path.first() == a);
    assert(path.last() == b);
}

pub proof fn lemma_reachable_trans(nodes: Seq<NetNode>, a: int, b: int, c: int)
    requires
        reachable(nodes, a, b),
        reachable(nodes, b, c),
    ensures
        reachable(nodes, a, c),
{
    let p1 = choose|p: Seq<int>| is_path(nodes, p) && p.first() == a && p.last() == b;
    let p2 = choose|p: Seq<int>| is_path(nodes, p) && p.first() == b && p.last() == c;
    let q = p1 + p2.drop_first();
    assert(q.len() == p1.len() + p2.len() - 1);
    assert forall|k: int| 0 <= k < q.len() implies 0 <= #[trigger] q[k] < nodes.len() by {
        if k < p1.len() {
            assert(q[k] == p1[k]);
        } else {
            assert(q[k] == p2[k - p1.len() + 1]);
        }
    }
    assert forall|k: int| 0 <= k < q.len() - 1 implies linked(nodes, #[trigger] q[k], q[k + 1]) by {
        if k + 1 < p1.len() {
            assert(q[k] == p1[k] && q[k + 1] == p1[k + 1]);
        } else if k + 1 == p1.len() {
            if p2.len() >= 2 {
                assert(q[k] == p1[k] && p1[k] == p1.last());
                assert(q[k + 1] == p2[1]);
                assert(linked(nodes, p2[0], p2[1]));
            }
        } else {
            assert(q[k] == p2[k - p1.len() + 1]);
            assert(q[k + 1] == p2[k - p1.len() + 2]);
            assert(linked(nodes, p2[k - p1.len() + 1], p2[k - p1.len() + 2]));
        }
    }
    assert(is_path(nodes, q));
    assert(q.first() == a);
    assert(q.last() == c) by {
        if p2.len() >= 2 {
            assert(q.last() == p2.last());
        } else {
            assert(q =~= p1);
        }
    }
}

/// Along well-formed links every step can be walked back, so reachability
/// is symmetric.
pub proof fn lemma_reachable_sym(nodes: Seq<NetNode>, a: int, b: int)
    requires
        links_wf(nodes),
        nodes.len() <= usize::MAX,
        reachable(nodes, a, b),
    ensures
        reachable(nodes, b, a),
{
    let p = choose|p: Seq<int>| is_path(nodes, p) && p.first() == a && p.last() == b;
    lemma_path_reverse(nodes, p);
}

proof fn lemma_path_reverse(nodes: Seq<NetNode>, p: Seq<int>)
    requires
        links_wf(nodes),
        nodes.len() <= usize::MAX,
        is_path(nodes, p),
    ensures
        reachable(nodes, p.last(), p.first()),
    decreases p.len(),
{
    if p.len() == 1 {
        lemma_reachable_refl(nodes, p.first());
    } else {
        let rest = p.drop_first();
        assert(is_path(nodes, rest)) by {
            assert(forall|k: int| 0 <= k < rest.len() ==> rest[k] == p[k + 1]);
            assert(forall|k: int|
                0 <= k < rest.len() - 1 ==> linked(nodes, #[trigger] rest[k], rest[k + 1]));
        }
        lemma_path_reverse(nodes, rest);
        assert(linked(nodes, p[0], p[1]));
        let d = choose|d: Towards|
            d.is_planar() && (#[trigger] link_of(nodes[p[0]], d)) is Some && link_of(
                nodes[p[0]],
                d,
            ).unwrap().index == p[1];
        let q = link_of(nodes[p[0]], d).unwrap();
        assert(link_of(nodes[p[1]], d.spec_inv()) == Some(
            Pointer { index: p[0] as usize, height: q.height },
        ));
        assert(linked(nodes, p[1], p[0])) by {
            assert(d.spec_inv().is_planar());
            assert(link_of(nodes[p[1]], d.spec_inv()).unwrap().index == p[0]);
        }
        lemma_reachable_step(nodes, p[1], p[0]);
        lemma_reachable_trans(nodes, p.last(), p[1], p[0]);
        assert(rest.first() == p[1] && rest.last() == p.last());
    }
}

/// A marking of junctions is closed when no marked junction links to an
/// unmarked one.
pub open spec fn closed_links(nodes: Seq<NetNode>, vis: Seq<bool>) -> bool {
    forall|j: int, d: Towards|
        0 <= j < nodes.len() && vis[j] && d.is_planar() && (#[trigger] link_of(
            nodes[j],
            d,
        )) is Some ==> vis[link_of(nodes[j], d).unwrap().index as int]
}

/// Whatever is reachable from a marked junction is itself marked, provided
/// the marking is closed under links.
pub proof fn lemma_closed_covers(nodes: Seq<NetNode>, vis: Seq<bool>, path: Seq<int>)
    requires
        vis.len() == nodes.len(),
        links_wf(nodes),
        closed_links(nodes, vis),
        is_path(nodes, path),
        vis[path.first()],
    ensures
        vis[path.last()],
    decreases path.len(),
{
    if path.len() > 1 {
        assert(linked(nodes, path[0], path[1]));
        let d = choose|d: Towards|
            d.is_planar() && (#[trigger] link_of(nodes[path[0]], d)) is Some && link_of(
                nodes[path[0]],
                d,
            ).unwrap().index == path[1];
        assert(vis[path[1]]);
        let rest = path.drop_first();
        assert(is_path(nodes, rest)) by {
            assert(forall|k: int| 0 <= k < rest.len() ==> rest[k] == path[k + 1]);
            assert(forall|k: int|
                0 <= k < rest.len() - 1 ==> linked(nodes, #[trigger] rest[k], rest[k + 1]));
        }
        lemma_closed_covers(nodes, vis, rest);
        assert(path.last() == rest.last());
    }
}

/// How many junctions a marking has marked.
pub open spec fn count_marked(vis: Seq<bool>) -> nat
    decreases vis.len(),
{
    if vis.len() == 0 {
        0
    } else {
        count_marked(vis.drop_last()) + (if vis.last() {
            1nat
        } else {
            0nat
        })
    }
}

proof fn lemma_count_marked_update(vis: Seq<bool>, i: int)
    requires
        0 <= i < vis.len(),
        !vis[i],
    ensures
        count_marked(vis.update(i, true)) == count_marked(vis) + 1,
    decreases vis.len(),
{
    if i == vis.len() - 1 {
        assert(vis.update(i, true).drop_last() =~= vis.drop_last());
    } else {
        assert(vis.update(i, true).drop_last() =~= vis.drop_last().update(i, true));
        lemma_count_marked_update(vis.drop_last(), i);
    }
}

proof fn lemma_count_marked_all(vis: Seq<bool>)
    requires
        forall|i: int| 0 <= i < vis.len() ==> vis[i],
    ensures
        count_marked(vis) == vis.len(),
    decreases vis.len(),
{
    if vis.len() > 0 {
        lemma_count_marked_all(vis.drop_last());
    }
}

impl NetNode {
    /// The four directional links, in the order up, down, left, right.
    pub fn neightbors(&self) -> (r: [Option<Pointer>; 4])
        ensures
            r@ =~= seq![self.up, self.down, self.left, self.right],
    {
        [self.up, self.down, self.left, self.right]
    }

    /// The lesser of `acc` and a link's layer.
    pub open spec fn fold_min(acc: usize, o: Option<Pointer>) -> usize {
        match o {
            Some(p) => if p.height < acc {
                p.height
            } else {
                acc
            },
            None => acc,
        }
    }

    /// The greater of `acc` and a link's layer.
    pub open spec fn fold_max(acc: usize, o: Option<Pointer>) -> usize {
        match o {
            Some(p) => if p.height > acc {
                p.height
            } else {
                acc
            },
            None => acc,
        }
    }

    /// The minimum and maximum layer among the present links; the sentinel
    /// (maximum representable, minimum representable) when no link is stored.
    pub open spec fn spec_span(self) -> (usize, usize) {
        (
            Self::fold_min(
                Self::fold_min(
                    Self::fold_min(Self::fold_min(usize::MAX, self.up), self.down),
                    self.left,
                ),
                self.right,
            ),
            Self::fold_max(
                Self::fold_max(
                    Self::fold_max(Self::fold_max(0, self.up), self.down),
                    self.left,
                ),
                self.right,
            ),
        )
    }

    /// The vertical via extent at this junction, inferred from the layers of
    /// its present links. An isolated junction (no stored links) yields the
    /// sentinel (maximum representable, minimum representable): no via needed.
    pub fn span(&self) -> (r: (usize, usize))
        ensures
            r == self.spec_span(),
            self.up is None && self.down is None && self.left is None && self.right is None
                ==> r == (usize::MAX, 0usize),
    {
        let mut min = usize::MAX;
        let mut max: usize = 0;
        if let Some(p) = self.up {
            if p.height < min {
                min = p.height;
            }
            if p.height > max {
                max = p.height;
            }
        }
        if let Some(p) = self.down {
            if p.height < min {
                min = p.height;
            }
            if p.height > max {
                max = p.height;
            }
        }
        if let Some(p) = self.left {
            if p.height < min {
                min = p.height;
            }
            if p.height > max {
                max = p.height;
            }
        }
        if let Some(p) = self.right {
            if p.height < min {
                min = p.height;
            }
            if p.height > max {
                max = p.height;
            }
        }
        (min, max)
    }

    /// The link stored in a planar direction.
    pub fn index(self, towards: Towards) -> (r: Option<Pointer>)
        requires
            towards.is_planar(),
        ensures
            r == link_of(self, towards),
    {
        match towards {
            Towards::Up => self.up,
            Towards::Down => self.down,
            Towards::Left => self.left,
            Towards::Right => self.right,
            Towards::Top | Towards::Bottom => None,
        }
    }
}

/// How many junctions have not been marked yet.
pub open spec fn count_unmarked(vis: Seq<bool>) -> nat {
    (vis.len() - count_marked(vis)) as nat
}

proof fn lemma_count_marked_le(vis: Seq<bool>)
    ensures
        count_marked(vis) <= vis.len(),
    decreases vis.len(),
{
    if vis.len() > 0 {
        lemma_count_marked_le(vis.drop_last());
    }
}

/// The segment a stored link stands for: both endpoints on the link's layer.
pub open spec fn edge_of_link(nodes: Seq<NetNode>, j: int, d: Towards) -> Route {
    let p = link_of(nodes[j], d).unwrap();
    Route(
        Point(nodes[j].position.0, nodes[j].position.1, p.height),
        Point(nodes[p.index as int].position.0, nodes[p.index as int].position.1, p.height),
    )
}

/// The record renders some stored link of the collection.
pub open spec fn record_is_link(nodes: Seq<NetNode>, r: Route) -> bool {
    exists|j: int, d: Towards|
        0 <= j < nodes.len() && d.is_planar() && (#[trigger] link_of(nodes[j], d)) is Some && r
            == edge_of_link(nodes, j, d)
}

/// Every emitted record's target sits at a marked junction.
pub open spec fn targets_marked(nodes: Seq<NetNode>, out: Seq<Route>, vis: Seq<bool>) -> bool {
    forall|i: int|
        0 <= i < out.len() ==> exists|m: int|
            0 <= m < nodes.len() && vis[m] && nodes[m].position == (
            #[trigger] out[i]).1.spec_flatten()
}

/// No two emitted records share a target position: each one enters a
/// different junction.
pub open spec fn targets_distinct(out: Seq<Route>) -> bool {
    forall|i1: int, i2: int|
        0 <= i1 < i2 < out.len() ==> (#[trigger] out[i1]).1.spec_flatten() != (
        #[trigger] out[i2]).1.spec_flatten()
}

/// Every marked junction except the root has been entered by some record.
pub open spec fn marks_entered(nodes: Seq<NetNode>, out: Seq<Route>, vis: Seq<bool>, root: int) -> bool {
    forall|m: int|
        0 <= m < nodes.len() && #[trigger] vis[m] && m != root ==> exists|i: int|
            0 <= i < out.len() && nodes[m].position == (#[trigger] out[i]).1.spec_flatten()
}

/// Every emitted record leaves from a marked junction.
pub open spec fn sources_marked(nodes: Seq<NetNode>, out: Seq<Route>, vis: Seq<bool>) -> bool {
    forall|i: int|
        0 <= i < out.len() ==> exists|m: int|
            0 <= m < nodes.len() && vis[m] && nodes[m].position == (
            #[trigger] out[i]).0.spec_flatten()
}

/// Processes one outward direction of junction `j`: if a link is stored there
/// and its neighbour is unmarked, marks it, emits the edge record, and keeps
/// walking outward from the neighbour.
#[verifier::rlimit(100)]
#[verifier::spinoff_prover]
fn step_dir(
    nodes: &Vec<NetNode>,
    j: usize,
    d: Towards,
    visited: &mut Vec<bool>,
    out: &mut Vec<Route>,
    root: Ghost<int>,
)
    requires
        links_wf(nodes@),
        j < nodes@.len(),
        d.is_planar(),
        positions_distinct(nodes@),
        old(visited)@.len() == nodes@.len(),
        old(visited)@[j as int],
        0 <= root@ < nodes@.len(),
        old(visited)@[root@],
        targets_marked(nodes@, old(out)@, old(visited)@),
        targets_distinct(old(out)@),
        marks_entered(nodes@, old(out)@, old(visited)@, root@),
        sources_marked(nodes@, old(out)@, old(visited)@),
    ensures
        final(visited)@.len() == nodes@.len(),
        forall|i: int| 0 <= i < nodes@.len() && old(visited)@[i] ==> final(visited)@[i],
        link_of(nodes@[j as int], d) matches Some(p) ==> final(visited)@[p.index as int],
        forall|m: int|
            0 <= m < nodes@.len() && !old(visited)@[m] && final(visited)@[m] ==> reachable(
                nodes@,
                j as int,
                m,
            ),
        forall|m: int, d2: Towards|
            0 <= m < nodes@.len() && !old(visited)@[m] && final(visited)@[m] && d2.is_planar()
                && (#[trigger] link_of(nodes@[m], d2)) is Some ==> final(visited)@[link_of(
                nodes@[m],
                d2,
            ).unwrap().index as int],
        old(out)@.is_prefix_of(final(out)@),
        forall|i: int|
            old(out)@.len() <= i < final(out)@.len() ==> record_is_link(
                nodes@,
                #[trigger] final(out)@[i],
            ),
        final(out)@.len() + count_marked(old(visited)@) == old(out)@.len() + count_marked(
            final(visited)@,
        ),
        targets_marked(nodes@, final(out)@, final(visited)@),
        targets_distinct(final(out)@),
        forall|i: int, m: int|
            #![trigger final(out)@[i], nodes@[m]]
            old(out)@.len() <= i < final(out)@.len() && 0 <= m < nodes@.len()
                && nodes@[m].position == final(out)@[i].1.spec_flatten() ==> !old(
                visited,
            )@[m],
        marks_entered(nodes@, final(out)@, final(visited)@, root@),
        sources_marked(nodes@, final(out)@, final(visited)@),
    decreases count_unmarked(old(visited)@), 0int,
{
    let nd = nodes[j];
    match nd.index(d) {
        None => {},
        Some(ptr) => {
            proof {
                assert(link_of(nodes@[j as int], d) is Some);
            }
            let child = ptr.index;
            if !visited[child] {
                visited[child] = true;
                proof {
                    lemma_count_marked_update(old(visited)@, child as int);
                }
                let sp = nd.position.with(ptr.height);
                let tp = nodes[child].position.with(ptr.height);
                let ghost out_pre = out@;
                out.push(Route(sp, tp));
                proof {
                    assert(Route(sp, tp) == edge_of_link(nodes@, j as int, d));
                    assert(record_is_link(nodes@, Route(sp, tp)));
                    assert(linked(nodes@, j as int, child as int));
                    lemma_reachable_step(nodes@, j as int, child as int);
                    lemma_count_marked_le(visited@);
                    assert(tp.spec_flatten() == nodes@[child as int].position);
                    assert forall|i: int|
                        0 <= i < out@.len() implies exists|m: int|
                            0 <= m < nodes@.len() && visited@[m] && nodes@[m].position == (
                            #[trigger] out@[i]).1.spec_flatten() by {
                        if i < out_pre.len() {
                            assert(out@[i] == out_pre[i]);
                            let m = choose|m: int|
                                0 <= m < nodes@.len() && old(visited)@[m] && nodes@[m].position
                                    == out_pre[i].1.spec_flatten();
                            assert(visited@[m]);
                        } else {
                            assert(out@[i] == Route(sp, tp));
                            assert(visited@[child as int]);
                        }
                    }
                    assert forall|i1: int, i2: int|
                        0 <= i1 < i2 < out@.len() implies (#[trigger] out@[i1]).1.spec_flatten()
                        != (#[trigger] out@[i2]).1.spec_flatten() by {
                        if i2 >= out_pre.len() && i1 < out_pre.len() {
                            let m = choose|m: int|
                                0 <= m < nodes@.len() && old(visited)@[m] && nodes@[m].position
                                    == out_pre[i1].1.spec_flatten();
                            assert(m != child as int);
                            assert(nodes@[m].position != nodes@[child as int].position) by {
                                if m < child as int {
                                } else {
                                }
                            }
                        }
                    }
                    assert(out@[out_pre.len() as int] == Route(sp, tp));
                    assert(Route(sp, tp).1.spec_flatten() == nodes@[child as int].position);
                    assert(Route(sp, tp).0.spec_flatten() == nodes@[j as int].position);
                    assert(marks_entered(nodes@, out@, visited@, root@)) by {
                        assert forall|m: int|
                            0 <= m < nodes@.len() && visited@[m] && m != root@ implies exists|
                            i: int,
                        |
                            0 <= i < out@.len() && nodes@[m].position == (
                            #[trigger] out@[i]).1.spec_flatten() by {
                            if m == child as int {
                                assert(nodes@[m].position == out@[
                                    out_pre.len() as int
                                ].1.spec_flatten());
                            } else {
                                assert(old(visited)@[m]);
                                let i = choose|i: int|
                                    0 <= i < out_pre.len() && nodes@[m].position == (
                                    #[trigger] out_pre[i]).1.spec_flatten();
                                assert(out@[i] == out_pre[i]);
                            }
                        }
                    }
                    assert(sources_marked(nodes@, out@, visited@)) by {
                        assert forall|i: int|
                            0 <= i < out@.len() implies exists|m: int|
                                0 <= m < nodes@.len() && visited@[m] && nodes@[m].position == (
                                #[trigger] out@[i]).0.spec_flatten() by {
                            if i < out_pre.len() {
                                assert(out@[i] == out_pre[i]);
                                let m = choose|m: int|
                                    0 <= m < nodes@.len() && old(visited)@[m] && nodes@[m].position
                                        == out_pre[i].0.spec_flatten();
                                assert(visited@[m]);
                            } else {
                                assert(visited@[j as int]);
                                assert(nodes@[j as int].position == out@[i].0.spec_flatten());
                            }
                        }
                    }
                }
                let ghost vis_mid = visited@;
                let ghost out_mid = out@;
                walk(nodes, child, d, visited, out, root);
                proof {
                    assert forall|m: int|
                        0 <= m < nodes@.len() && !old(visited)@[m] && final(visited)@[m]
                            implies reachable(nodes@, j as int, m) by {
                        if m == child as int {
                        } else {
                            assert(!vis_mid[m]);
                            assert(reachable(nodes@, child as int, m));
                            lemma_reachable_trans(nodes@, j as int, child as int, m);
                        }
                    }
                    assert forall|m: int, d2: Towards|
                        0 <= m < nodes@.len() && !old(visited)@[m] && final(visited)@[m]
                            && d2.is_planar() && (#[trigger] link_of(nodes@[m], d2)) is Some
                            implies final(visited)@[link_of(nodes@[m], d2).unwrap().index as int] by {
                        if m == child as int {
                            if d2 == d.spec_inv() {
                                assert(link_of(nodes@[child as int], d.spec_inv()) == Some(
                                    Pointer { index: j, height: ptr.height },
                                ));
                            }
                        } else {
                            assert(!vis_mid[m]);
                        }
                    }
                    assert forall|i: int|
                        old(out)@.len() <= i < final(out)@.len() implies record_is_link(
                        nodes@,
                        #[trigger] final(out)@[i],
                    ) by {
                        if i < out_mid.len() {
                            assert(final(out)@[i] == out_mid[i]);
                        }
                    }
                    assert forall|i: int, m: int|
                        #![trigger final(out)@[i], nodes@[m]]
                        old(out)@.len() <= i < final(out)@.len() && 0 <= m < nodes@.len()
                            && nodes@[m].position == final(out)@[i].1.spec_flatten() implies !old(
                        visited,
                    )@[m] by {
                        if i < out_mid.len() {
                            assert(final(out)@[i] == out_mid[i]);
                            assert(out_mid[i] == Route(sp, tp));
                            assert(m == child as int) by {
                                if m < child as int {
                                    assert(nodes@[m].position != nodes@[child as int].position);
                                } else if (child as int) < m {
                                    assert(nodes@[child as int].position != nodes@[m].position);
                                }
                            }
                        } else {
                            assert(!vis_mid[m]);
                        }
                    }
                }
            }
        },
    }
}

/// Walks the tree outward from junction `j`, which was arrived at moving in
/// direction `arrived`: every present link in a direction other than the one
/// just arrived from is followed, already-marked junctions are skipped, and
/// each followed link emits one edge record.
#[verifier::rlimit(100)]
#[verifier::spinoff_prover]
fn walk(
    nodes: &Vec<NetNode>,
    j: usize,
    arrived: Towards,
    visited: &mut Vec<bool>,
    out: &mut Vec<Route>,
    root: Ghost<int>,
)
    requires
        links_wf(nodes@),
        j < nodes@.len(),
        arrived.is_planar(),
        positions_distinct(nodes@),
        old(visited)@.len() == nodes@.len(),
        old(visited)@[j as int],
        0 <= root@ < nodes@.len(),
        old(visited)@[root@],
        targets_marked(nodes@, old(out)@, old(visited)@),
        targets_distinct(old(out)@),
        marks_entered(nodes@, old(out)@, old(visited)@, root@),
        sources_marked(nodes@, old(out)@, old(visited)@),
    ensures
        final(visited)@.len() == nodes@.len(),
        forall|i: int| 0 <= i < nodes@.len() && old(visited)@[i] ==> final(visited)@[i],
        forall|d: Towards|
            d.is_planar() && d != arrived.spec_inv() && (#[trigger] link_of(
                nodes@[j as int],
                d,
            )) is Some ==> final(visited)@[link_of(nodes@[j as int], d).unwrap().index as int],
        forall|m: int|
            0 <= m < nodes@.len() && !old(visited)@[m] && final(visited)@[m] ==> reachable(
                nodes@,
                j as int,
                m,
            ),
        forall|m: int, d2: Towards|
            0 <= m < nodes@.len() && !old(visited)@[m] && final(visited)@[m] && d2.is_planar()
                && (#[trigger] link_of(nodes@[m], d2)) is Some ==> final(visited)@[link_of(
                nodes@[m],
                d2,
            ).unwrap().index as int],
        old(out)@.is_prefix_of(final(out)@),
        forall|i: int|
            old(out)@.len() <= i < final(out)@.len() ==> record_is_link(
                nodes@,
                #[trigger] final(out)@[i],
            ),
        final(out)@.len() + count_marked(old(visited)@) == old(out)@.len() + count_marked(
            final(visited)@,
        ),
        targets_marked(nodes@, final(out)@, final(visited)@),
        targets_distinct(final(out)@),
        forall|i: int, m: int|
            #![trigger final(out)@[i], nodes@[m]]
            old(out)@.len() <= i < final(out)@.len() && 0 <= m < nodes@.len()
                && nodes@[m].position == final(out)@[i].1.spec_flatten() ==> !old(
                visited,
            )@[m],
        marks_entered(nodes@, final(out)@, final(visited)@, root@),
        sources_marked(nodes@, final(out)@, final(visited)@),
    decreases count_unmarked(old(visited)@), 1int,
{
    let arrived_inv = arrived.inv();
    let ghost vis0 = visited@;
    let ghost out0 = out@;
    if !(arrived_inv == Towards::Up) {
        step_dir(nodes, j, Towards::Up, visited, out, root);
    }
    let ghost vis1 = visited@;
    let ghost out1 = out@;
    if !(arrived_inv == Towards::Down) {
        proof {
            lemma_count_marked_le(vis1);
        }
        step_dir(nodes, j, Towards::Down, visited, out, root);
    }
    let ghost vis2 = visited@;
    let ghost out2 = out@;
    if !(arrived_inv == Towards::Left) {
        proof {
            lemma_count_marked_le(vis2);
        }
        step_dir(nodes, j, Towards::Left, visited, out, root);
    }
    let ghost vis3 = visited@;
    let ghost out3 = out@;
    if !(arrived_inv == Towards::Right) {
        proof {
            lemma_count_marked_le(vis3);
        }
        step_dir(nodes, j, Towards::Right, visited, out, root);
    }
    proof {
        assert forall|m: int|
            0 <= m < nodes@.len() && !old(visited)@[m] && final(visited)@[m] implies reachable(
            nodes@,
            j as int,
            m,
        ) by {
            if vis1[m] {
            } else if vis2[m] {
            } else if vis3[m] {
            }
        }
        assert forall|m: int, d2: Towards|
            0 <= m < nodes@.len() && !old(visited)@[m] && final(visited)@[m] && d2.is_planar()
                && (#[trigger] link_of(nodes@[m], d2)) is Some implies final(visited)@[link_of(
            nodes@[m],
            d2,
        ).unwrap().index as int] by {
            if vis1[m] {
            } else if vis2[m] {
            } else if vis3[m] {
            }
        }
        assert forall|i: int|
            old(out)@.len() <= i < final(out)@.len() implies record_is_link(
            nodes@,
            #[trigger] final(out)@[i],
        ) by {
            if i < out1.len() {
                assert(final(out)@[i] == out1[i]);
            } else if i < out2.len() {
                assert(final(out)@[i] == out2[i]);
            } else if i < out3.len() {
                assert(final(out)@[i] == out3[i]);
            }
        }
        assert forall|i: int, m: int|
            #![trigger final(out)@[i], nodes@[m]]
            old(out)@.len() <= i < final(out)@.len() && 0 <= m < nodes@.len()
                && nodes@[m].position == final(out)@[i].1.spec_flatten() implies !old(
            visited,
        )@[m] by {
            if i < out1.len() {
                assert(final(out)@[i] == out1[i]);
            } else if i < out2.len() {
                assert(final(out)@[i] == out2[i]);
                assert(!vis1[m]);
            } else if i < out3.len() {
                assert(final(out)@[i] == out3[i]);
                assert(!vis2[m]);
            } else {
                assert(!vis3[m]);
            }
        }
        assert(out0.is_prefix_of(final(out)@));
    }
}

/// A junction with no stored links.
pub open spec fn links_none(n: NetNode) -> bool {
    n.up is None && n.down is None && n.left is None && n.right is None
}

/// Some junction of the collection sits at position `p`.
pub open spec fn has_position(nodes: Seq<NetNode>, p: Pair) -> bool {
    exists|j: int| 0 <= j < nodes.len() && (#[trigger] nodes[j]).position == p
}

/// The position recorded for a pin id: the first matching entry of the
/// lookup table, if any.
pub open spec fn pin_lookup(pp: Seq<(usize, Pair)>, id: usize) -> Option<Pair>
    decreases pp.len(),
{
    if pp.len() == 0 {
        None
    } else if pp[0].0 == id {
        Some(pp[0].1)
    } else {
        pin_lookup(pp.drop_first(), id)
    }
}

/// The pin tag a position ends up with: the last listed pin whose recorded
/// position is `p` (last write wins), or `None` when no listed pin sits there.
pub open spec fn last_pin_at(pins: Seq<usize>, pp: Seq<(usize, Pair)>, p: Pair) -> Option<usize>
    decreases pins.len(),
{
    if pins.len() == 0 {
        None
    } else if pin_lookup(pp, pins.last()) == Some(p) {
        Some(pins.last())
    } else {
        last_pin_at(pins.drop_last(), pp, p)
    }
}

/// The flattened endpoints of every segment.
pub open spec fn seg_positions(segs: Seq<Route>) -> Set<Pair> {
    Set::new(
        |p: Pair|
            exists|i: int|
                0 <= i < segs.len() && ((#[trigger] segs[i]).0.spec_flatten() == p
                    || segs[i].1.spec_flatten() == p),
    )
}

/// The recorded positions of the listed pins.
pub open spec fn pin_positions(pins: Seq<usize>, pp: Seq<(usize, Pair)>) -> Set<Pair> {
    Set::new(
        |p: Pair|
            exists|i: int|
                0 <= i < pins.len() && pin_lookup(pp, #[trigger] pins[i]) == Some(p),
    )
}

/// Every candidate junction position: segment endpoints and pin positions.
pub open spec fn input_positions(
    segs: Seq<Route>,
    pins: Seq<usize>,
    pp: Seq<(usize, Pair)>,
) -> Set<Pair> {
    seg_positions(segs).union(pin_positions(pins, pp))
}

/// Whether a segment is planar: well formed with a direction along the row
/// or column axis. Layer-axis segments never become links.
pub open spec fn is_planar_seg(r: Route) -> bool {
    r.spec_towards() is Some && r.spec_towards().unwrap().is_planar()
}

/// How many segments of the set are planar.
pub open spec fn planar_count(segs: Seq<Route>) -> nat
    decreases segs.len(),
{
    if segs.len() == 0 {
        0
    } else {
        planar_count(segs.drop_last()) + (if is_planar_seg(segs.last()) {
            1nat
        } else {
            0nat
        })
    }
}

/// Connectivity: in a collection with well-formed links where every junction
/// is reachable from the first, every junction reaches every other junction,
/// so a walk over the directional links from any junction covers the tree.
pub proof fn lemma_connectivity(nodes: Seq<NetNode>, j: int, k: int)
    requires
        links_wf(nodes),
        connected(nodes),
        nodes.len() <= usize::MAX,
        0 <= j < nodes.len(),
        0 <= k < nodes.len(),
    ensures
        reachable(nodes, j, k),
{
    lemma_reachable_sym(nodes, 0, j);
    lemma_reachable_trans(nodes, j, 0, k);
}

proof fn lemma_last_pin_at_distinct(pins: Seq<usize>, pp: Seq<(usize, Pair)>, i: int)
    requires
        0 <= i < pins.len(),
        forall|k1: int, k2: int|
            0 <= k1 < k2 < pins.len() ==> pin_lookup(pp, #[trigger] pins[k1]) != pin_lookup(
                pp,
                #[trigger] pins[k2],
            ),
        pin_lookup(pp, pins[i]) is Some,
    ensures
        last_pin_at(pins, pp, pin_lookup(pp, pins[i]).unwrap()) == Some(pins[i]),
    decreases pins.len(),
{
    let p = pin_lookup(pp, pins[i]).unwrap();
    if i == pins.len() - 1 {
        assert(pin_lookup(pp, pins.last()) == Some(p));
    } else {
        assert(pin_lookup(pp, pins.last()) != pin_lookup(pp, pins[i]));
        assert(pins.drop_last()[i] == pins[i]);
        lemma_last_pin_at_distinct(pins.drop_last(), pp, i);
    }
}

proof fn lemma_last_pin_at_lookup(pins: Seq<usize>, pp: Seq<(usize, Pair)>, pos: Pair)
    requires
        last_pin_at(pins, pp, pos) is Some,
    ensures
        pin_lookup(pp, last_pin_at(pins, pp, pos).unwrap()) == Some(pos),
    decreases pins.len(),
{
    if pins.len() > 0 && pin_lookup(pp, pins.last()) == Some(pos) {
    } else {
        lemma_last_pin_at_lookup(pins.drop_last(), pp, pos);
    }
}

/// Pin tagging: when the listed pins sit at pairwise different recorded
/// positions, every listed pin id appears as the tag of exactly one
/// junction — the junction at its recorded position.
pub proof fn lemma_pin_tagging(
    nodes: Seq<NetNode>,
    pins: Seq<usize>,
    pp: Seq<(usize, Pair)>,
    i: int,
)
    requires
        positions_distinct(nodes),
        ids_match(nodes, pins, pp),
        pins_present(nodes, pins, pp),
        forall|k1: int, k2: int|
            0 <= k1 < k2 < pins.len() ==> pin_lookup(pp, #[trigger] pins[k1]) != pin_lookup(
                pp,
                #[trigger] pins[k2],
            ),
        0 <= i < pins.len(),
    ensures
        exists|j: int|
            0 <= j < nodes.len() && (#[trigger] nodes[j]).id == Some(pins[i])
                && nodes[j].position == pin_lookup(pp, pins[i]).unwrap(),
        forall|j1: int, j2: int|
            0 <= j1 < nodes.len() && 0 <= j2 < nodes.len() && (#[trigger] nodes[j1]).id == Some(
                pins[i],
            ) && (#[trigger] nodes[j2]).id == Some(pins[i]) ==> j1 == j2,
{
    let p = pin_lookup(pp, pins[i]).unwrap();
    assert(has_position(nodes, p));
    let j = choose|j: int| 0 <= j < nodes.len() && (#[trigger] nodes[j]).position == p;
    lemma_last_pin_at_distinct(pins, pp, i);
    assert(nodes[j].id == Some(pins[i]));
    assert forall|j1: int, j2: int|
        0 <= j1 < nodes.len() && 0 <= j2 < nodes.len() && (#[trigger] nodes[j1]).id == Some(
            pins[i],
        ) && (#[trigger] nodes[j2]).id == Some(pins[i]) implies j1 == j2 by {
        lemma_last_pin_at_lookup(pins, pp, nodes[j1].position);
        lemma_last_pin_at_lookup(pins, pp, nodes[j2].position);
        assert(nodes[j1].position == nodes[j2].position);
        if j1 < j2 {
            assert(false);
        } else if j2 < j1 {
            assert(false);
        }
    }
}

/// Every segment endpoint has a junction at its flattened position.
pub open spec fn endpoints_present(nodes: Seq<NetNode>, segs: Seq<Route>) -> bool {
    forall|k: int|
        0 <= k < segs.len() ==> has_position(nodes, (#[trigger] segs[k]).0.spec_flatten())
            && has_position(nodes, segs[k].1.spec_flatten())
}

/// Every listed pin has a recorded position and a junction there.
pub open spec fn pins_present(nodes: Seq<NetNode>, pins: Seq<usize>, pp: Seq<(usize, Pair)>) -> bool {
    forall|k: int|
        0 <= k < pins.len() ==> pin_lookup(pp, #[trigger] pins[k]) is Some && has_position(
            nodes,
            pin_lookup(pp, pins[k]).unwrap(),
        )
}

/// Every junction position comes from a segment endpoint or a pin position.
pub open spec fn positions_covered(
    nodes: Seq<NetNode>,
    segs: Seq<Route>,
    pins: Seq<usize>,
    pp: Seq<(usize, Pair)>,
) -> bool {
    forall|j: int|
        0 <= j < nodes.len() ==> input_positions(segs, pins, pp).contains(
            (#[trigger] nodes[j]).position,
        )
}

/// Every junction carries the tag of the last listed pin at its position
/// (or no tag, where no listed pin sits).
pub open spec fn ids_match(nodes: Seq<NetNode>, pins: Seq<usize>, pp: Seq<(usize, Pair)>) -> bool {
    forall|j: int|
        0 <= j < nodes.len() ==> (#[trigger] nodes[j]).id == last_pin_at(
            pins,
            pp,
            nodes[j].position,
        )
}

/// A position found in a collection is still found in one that keeps every
/// position (and possibly adds junctions).
proof fn lemma_has_position_mono(a: Seq<NetNode>, b: Seq<NetNode>, p: Pair)
    requires
        a.len() <= b.len(),
        forall|j: int| 0 <= j < a.len() ==> (#[trigger] b[j]).position == a[j].position,
        has_position(a, p),
    ensures
        has_position(b, p),
{
    let j = choose|j: int| 0 <= j < a.len() && (#[trigger] a[j]).position == p;
    assert(b[j].position == p);
}

/// Adding one mirrored link pair to two free slots keeps the links well
/// formed, adds two to the stored-link count, and moves no junction.
proof fn lemma_connect_preserves_wf(before: Seq<NetNode>, si: int, ti: int, h: usize, t: Towards)
    requires
        links_wf(before),
        before.len() <= usize::MAX,
        0 <= si < before.len(),
        0 <= ti < before.len(),
        si != ti,
        t.is_planar(),
        link_of(before[si], t) is None,
        link_of(before[ti], t.spec_inv()) is None,
    ensures
        ({
            let ps = Pointer { index: ti as usize, height: h };
            let po = Pointer { index: si as usize, height: h };
            let after = before.update(si, set_link(before[si], t, ps)).update(
                ti,
                set_link(before[ti], t.spec_inv(), po),
            );
            &&& links_wf(after)
            &&& count_links(after) == count_links(before) + 2
            &&& forall|j: int|
                0 <= j < before.len() ==> (#[trigger] after[j]).position == before[j].position
                    && after[j].id == before[j].id
        }),
{
    let ps = Pointer { index: ti as usize, height: h };
    let po = Pointer { index: si as usize, height: h };
    let ns = set_link(before[si], t, ps);
    let no = set_link(before[ti], t.spec_inv(), po);
    let after = before.update(si, ns).update(ti, no);
    lemma_count_links_update(before, si, ns);
    lemma_count_links_update(before.update(si, ns), ti, no);
    assert(degree(ns) == degree(before[si]) + 1);
    assert(before.update(si, ns)[ti] == before[ti]);
    assert(degree(no) == degree(before[ti]) + 1);
    assert forall|j: int, d: Towards|
        0 <= j < after.len() && d.is_planar() && (#[trigger] link_of(after[j], d)) is Some implies {
        let p = link_of(after[j], d).unwrap();
        &&& p.index < after.len()
        &&& p.index != j
        &&& link_of(after[p.index as int], d.spec_inv()) == Some(
            Pointer { index: j as usize, height: p.height },
        )
    } by {
        let p = link_of(after[j], d).unwrap();
        if j == si && d == t {
            assert(link_of(after[j], d) == Some(ps));
            assert(link_of(after[ti], t.spec_inv()) == Some(po));
        } else if j == ti && d == t.spec_inv() {
            assert(link_of(after[j], d) == Some(po));
            assert(t.spec_inv().spec_inv() == t);
            assert(link_of(after[si], t) == Some(ps));
        } else {
            assert(link_of(after[j], d) == link_of(before[j], d));
            assert(link_of(before[j], d) is Some);
            assert(p.index < before.len() && p.index != j);
            assert(link_of(before[p.index as int], d.spec_inv()) == Some(
                Pointer { index: j as usize, height: p.height },
            ));
            if p.index == si as usize && d.spec_inv() == t {
                // the mirror of this older link would occupy the slot that
                // was required to be free
                assert(false);
            } else if p.index == ti as usize && d.spec_inv() == t.spec_inv() {
                assert(false);
            } else {
                assert(link_of(after[p.index as int], d.spec_inv()) == link_of(
                    before[p.index as int],
                    d.spec_inv(),
                ));
            }
        }
    }
}

/// A junction with no tag and no links, at a position.
pub open spec fn bare_node(p: Pair) -> NetNode {
    NetNode { id: None, position: p, up: None, down: None, left: None, right: None }
}

/// Adds a junction for a position unless one is already there.
pub open spec fn add_endpoint(nodes: Seq<NetNode>, p: Pair) -> Seq<NetNode> {
    if has_position(nodes, p) {
        nodes
    } else {
        nodes.push(bare_node(p))
    }
}

/// The junctions after deduplicating the flattened endpoints of every
/// segment, source before target, in segment order.
pub open spec fn collect_endpoints(nodes: Seq<NetNode>, segs: Seq<Route>) -> Seq<NetNode>
    decreases segs.len(),
{
    if segs.len() == 0 {
        nodes
    } else {
        collect_endpoints(
            add_endpoint(
                add_endpoint(nodes, segs.first().0.spec_flatten()),
                segs.first().1.spec_flatten(),
            ),
            segs.drop_first(),
        )
    }
}

/// The index of the junction at a position. Junction positions are unique,
/// so at most one index qualifies.
pub open spec fn junction_at(nodes: Seq<NetNode>, p: Pair) -> int {
    choose|j: int| 0 <= j < nodes.len() && nodes[j].position == p
}

/// The junctions after tagging the listed pins in order, last write
/// winning; a pin without a recorded position aborts the construction.
pub open spec fn tag_pins(nodes: Seq<NetNode>, pins: Seq<usize>, pp: Seq<(usize, Pair)>) -> Result<
    Seq<NetNode>,
    NetError,
>
    decreases pins.len(),
{
    if pins.len() == 0 {
        Ok(nodes)
    } else {
        match pin_lookup(pp, pins.first()) {
            None => Err(NetError::PinNotFound),
            Some(p) => {
                let tagged = if has_position(nodes, p) {
                    nodes.update(
                        junction_at(nodes, p),
                        NetNode { id: Some(pins.first()), ..nodes[junction_at(nodes, p)] },
                    )
                } else {
                    nodes.push(
                        NetNode {
                            id: Some(pins.first()),
                            position: p,
                            up: None,
                            down: None,
                            left: None,
                            right: None,
                        },
                    )
                };
                tag_pins(tagged, pins.drop_first(), pp)
            },
        }
    }
}

/// One wiring step per segment, in order: a malformed segment aborts; a
/// layer-axis segment stores no link; a planar segment between two
/// already-connected junctions is redundant and stores no link (a second
/// redundant segment aborts); every other planar segment merges the two
/// label classes and stores the mirrored link pair on the segment's shared
/// layer, aborting if either directional slot is already taken.
pub open spec fn wire_segments(
    nodes: Seq<NetNode>,
    labels: Seq<usize>,
    segs: Seq<Route>,
    red: nat,
) -> Result<(Seq<NetNode>, Seq<usize>, nat), NetError>
    decreases segs.len(),
{
    if segs.len() == 0 {
        Ok((nodes, labels, red))
    } else {
        let r = segs.first();
        match r.spec_towards() {
            None => Err(NetError::MalformedSegment),
            Some(t) => {
                if !t.is_planar() {
                    wire_segments(nodes, labels, segs.drop_first(), red)
                } else {
                    let sj = junction_at(nodes, r.0.spec_flatten());
                    let tj = junction_at(nodes, r.1.spec_flatten());
                    if labels[sj] == labels[tj] {
                        if red >= 1 {
                            Err(NetError::ExtraRedundancy)
                        } else {
                            wire_segments(nodes, labels, segs.drop_first(), red + 1)
                        }
                    } else if link_of(nodes[sj], t) is Some || link_of(
                        nodes[tj],
                        t.spec_inv(),
                    ) is Some {
                        Err(NetError::LinkConflict)
                    } else {
                        wire_segments(
                            nodes.update(
                                sj,
                                set_link(
                                    nodes[sj],
                                    t,
                                    Pointer { index: tj as usize, height: r.0.2 },
                                ),
                            ).update(
                                tj,
                                set_link(
                                    nodes[tj],
                                    t.spec_inv(),
                                    Pointer { index: sj as usize, height: r.0.2 },
                                ),
                            ),
                            Seq::new(
                                labels.len(),
                                |i: int|
                                    if labels[i] == labels[tj] {
                                        labels[sj]
                                    } else {
                                        labels[i]
                                    },
                            ),
                            segs.drop_first(),
                            red,
                        )
                    }
                }
            },
        }
    }
}

/// The model's tail: wire the segments, then require the links to connect
/// every junction.
pub open spec fn finish_construct(
    nodes: Seq<NetNode>,
    labels: Seq<usize>,
    segs: Seq<Route>,
    red: nat,
) -> Result<Seq<NetNode>, NetError> {
    match wire_segments(nodes, labels, segs, red) {
        Err(e) => Err(e),
        Ok(s) => if connected(s.0) {
            Ok(s.0)
        } else {
            Err(NetError::Disconnected)
        },
    }
}

/// The model from the tagged junctions on, starting with singleton labels.
pub open spec fn after_pins_construct(nodes: Seq<NetNode>, segs: Seq<Route>) -> Result<
    Seq<NetNode>,
    NetError,
> {
    finish_construct(nodes, Seq::new(nodes.len(), |i: int| i as usize), segs, 0)
}

/// The whole construction, junction collection and links included, as a
/// function of the inputs: endpoint deduplication, pin tagging, segment
/// wiring, then the connectivity gate. `NetTree::new` returns exactly this.
pub open spec fn spec_construct(
    pins: Seq<usize>,
    segs: Seq<Route>,
    pp: Seq<(usize, Pair)>,
) -> Result<Seq<NetNode>, NetError> {
    match tag_pins(collect_endpoints(Seq::<NetNode>::empty(), segs), pins, pp) {
        Err(e) => Err(e),
        Ok(nodes) => after_pins_construct(nodes, segs),
    }
}

/// Every stored link joins two junctions that carry the same label.
pub open spec fn labels_respect_links(nodes: Seq<NetNode>, labels: Seq<usize>) -> bool {
    forall|i: int, j: int|
        0 <= i < nodes.len() && 0 <= j < nodes.len() && #[trigger] linked(nodes, i, j)
            ==> labels[i] == labels[j]
}

/// Along a path of links the label never changes.
proof fn lemma_path_labels(nodes: Seq<NetNode>, labels: Seq<usize>, path: Seq<int>)
    requires
        labels_respect_links(nodes, labels),
        is_path(nodes, path),
    ensures
        labels[path.first()] == labels[path.last()],
    decreases path.len(),
{
    if path.len() > 1 {
        let rest = path.drop_first();
        assert(is_path(nodes, rest)) by {
            assert(forall|k: int| 0 <= k < rest.len() ==> rest[k] == path[k + 1]);
            assert(forall|k: int|
                0 <= k < rest.len() - 1 ==> linked(nodes, #[trigger] rest[k], rest[k + 1]));
        }
        assert(linked(nodes, path[0], path[1]));
        lemma_path_labels(nodes, labels, rest);
    }
}

/// After adding one mirrored link pair, every stored link either existed
/// before or joins the two newly linked junctions.
proof fn lemma_connect_new_links(before: Seq<NetNode>, si: int, ti: int, h: usize, t: Towards)
    requires
        before.len() <= usize::MAX,
        0 <= si < before.len(),
        0 <= ti < before.len(),
        si != ti,
        t.is_planar(),
    ensures
        ({
            let ps = Pointer { index: ti as usize, height: h };
            let po = Pointer { index: si as usize, height: h };
            let after = before.update(si, set_link(before[si], t, ps)).update(
                ti,
                set_link(before[ti], t.spec_inv(), po),
            );
            forall|x: int, y: int|
                0 <= x < after.len() && #[trigger] linked(after, x, y) ==> linked(before, x, y)
                    || (x == si && y == ti) || (x == ti && y == si)
        }),
{
    let ps = Pointer { index: ti as usize, height: h };
    let po = Pointer { index: si as usize, height: h };
    let after = before.update(si, set_link(before[si], t, ps)).update(
        ti,
        set_link(before[ti], t.spec_inv(), po),
    );
    assert forall|x: int, y: int|
        0 <= x < after.len() && #[trigger] linked(after, x, y) implies linked(before, x, y) || (x
        == si && y == ti) || (x == ti && y == si) by {
        let d = choose|d: Towards|
            d.is_planar() && (#[trigger] link_of(after[x], d)) is Some && link_of(
                after[x],
                d,
            ).unwrap().index == y;
        if x == si {
            if d == t {
                assert(link_of(after[x], d) == Some(ps));
            } else {
                assert(link_of(after[x], d) == link_of(before[x], d));
                assert(linked(before, x, y));
            }
        } else if x == ti {
            if d == t.spec_inv() {
                assert(link_of(after[x], d) == Some(po));
            } else {
                assert(link_of(after[x], d) == link_of(before[x], d));
                assert(linked(before, x, y));
            }
        } else {
            assert(link_of(after[x], d) == link_of(before[x], d));
            assert(linked(before, x, y));
        }
    }
}

/// One accepted planar segment advances the wiring fold by exactly the
/// mirrored link pair and the label merge, and keeps labels respecting links.
proof fn lemma_wire_step_ok(
    before: Seq<NetNode>,
    labs: Seq<usize>,
    after: Seq<NetNode>,
    labs2: Seq<usize>,
    segs: Seq<Route>,
    k: int,
    sj: int,
    tj: int,
    t: Towards,
    red: nat,
)
    requires
        0 <= k < segs.len(),
        segs[k].spec_towards() == Some(t),
        t.is_planar(),
        before.len() <= usize::MAX,
        0 <= sj < before.len(),
        0 <= tj < before.len(),
        sj != tj,
        labs.len() == before.len(),
        junction_at(before, segs[k].0.spec_flatten()) == sj,
        junction_at(before, segs[k].1.spec_flatten()) == tj,
        labs[sj] != labs[tj],
        link_of(before[sj], t) is None,
        link_of(before[tj], t.spec_inv()) is None,
        after == before.update(
            sj,
            set_link(before[sj], t, Pointer { index: tj as usize, height: segs[k].0.2 }),
        ).update(
            tj,
            set_link(before[tj], t.spec_inv(), Pointer { index: sj as usize, height: segs[k].0.2 }),
        ),
        labs2 == Seq::new(
            labs.len(),
            |i: int|
                if labs[i] == labs[tj] {
                    labs[sj]
                } else {
                    labs[i]
                },
        ),
        labels_respect_links(before, labs),
    ensures
        wire_segments(before, labs, segs.skip(k), red) == wire_segments(
            after,
            labs2,
            segs.skip(k + 1),
            red,
        ),
        labels_respect_links(after, labs2),
{
    assert(segs.skip(k).first() == segs[k]);
    assert(segs.skip(k).drop_first() =~= segs.skip(k + 1));
    lemma_connect_new_links(before, sj, tj, segs[k].0.2, t);
    assert forall|x: int, y: int|
        0 <= x < after.len() && 0 <= y < after.len() && #[trigger] linked(after, x, y)
            implies labs2[x] == labs2[y] by {
        if linked(before, x, y) {
            assert(labs[x] == labs[y]);
        }
    }
}

/// When labels respect the links and the links connect everything, every
/// junction carries one and the same label.
proof fn lemma_connected_one_label(nodes: Seq<NetNode>, labels: Seq<usize>)
    requires
        labels_respect_links(nodes, labels),
        connected(nodes),
    ensures
        forall|i: int, j: int|
            0 <= i < nodes.len() && 0 <= j < nodes.len() ==> labels[i] == labels[j],
{
    assert forall|i: int, j: int|
        0 <= i < nodes.len() && 0 <= j < nodes.len() implies labels[i] == labels[j] by {
        assert(reachable(nodes, 0, i));
        let p1 = choose|pt: Seq<int>| is_path(nodes, pt) && pt.first() == 0 && pt.last() == i;
        lemma_path_labels(nodes, labels, p1);
        assert(reachable(nodes, 0, j));
        let p2 = choose|pt: Seq<int>| is_path(nodes, pt) && pt.first() == 0 && pt.last() == j;
        lemma_path_labels(nodes, labels, p2);
    }
}

/// The number of junctions equals the number of distinct candidate
/// positions, because positions are unique and exactly cover the inputs.
proof fn lemma_junction_count(
    nodes: Seq<NetNode>,
    segs: Seq<Route>,
    pins: Seq<usize>,
    pp: Seq<(usize, Pair)>,
)
    requires
        positions_distinct(nodes),
        positions_covered(nodes, segs, pins, pp),
        endpoints_present(nodes, segs),
        pins_present(nodes, pins, pp),
    ensures
        nodes.len() == input_positions(segs, pins, pp).len(),
{
    let ips = input_positions(segs, pins, pp);
    let posseq = nodes.map(|i: int, nd: NetNode| nd.position);
    assert forall|i: int, j: int|
        0 <= i < posseq.len() && 0 <= j < posseq.len() && i != j implies posseq[i]
        != posseq[j] by {
        if i < j {
            assert(nodes[i].position != nodes[j].position);
        } else {
            assert(nodes[j].position != nodes[i].position);
        }
    }
    assert(posseq.no_duplicates());
    posseq.unique_seq_to_set();
    assert(posseq.to_set() =~= ips) by {
        assert forall|p: Pair| posseq.to_set().contains(p) implies ips.contains(p) by {
            let i = choose|i: int| 0 <= i < posseq.len() && posseq[i] == p;
            assert(ips.contains(nodes[i].position));
        }
        assert forall|p: Pair| ips.contains(p) implies posseq.to_set().contains(p) by {
            if seg_positions(segs).contains(p) {
                let i = choose|i: int|
                    0 <= i < segs.len() && ((#[trigger] segs[i]).0.spec_flatten() == p
                        || segs[i].1.spec_flatten() == p);
                assert(has_position(nodes, p));
            } else {
                let i = choose|i: int|
                    0 <= i < pins.len() && pin_lookup(pp, #[trigger] pins[i]) == Some(p);
                assert(has_position(nodes, p));
            }
            let j = choose|j: int| 0 <= j < nodes.len() && (#[trigger] nodes[j]).position == p;
            assert(posseq[j] == p);
            assert(posseq.contains(p));
        }
    }
}

/// Finds the junction at position `p`, if one exists.
fn find_position(nodes: &Vec<NetNode>, p: Pair) -> (r: Option<usize>)
    ensures
        r matches Some(j) ==> j < nodes@.len() && nodes@[j as int].position == p,
        r is None ==> !has_position(nodes@, p),
{
    let mut i: usize = 0;
    while i < nodes.len()
        invariant
            i <= nodes@.len(),
            forall|k: int| 0 <= k < i ==> (#[trigger] nodes@[k]).position != p,
        decreases nodes@.len() - i,
    {
        if nodes[i].position == p {
            return Some(i);
        }
        i = i + 1;
    }
    None
}

/// Looks a pin id up in the position table.
fn lookup_pin(pp: &Vec<(usize, Pair)>, id: usize) -> (r: Option<Pair>)
    ensures
        r == pin_lookup(pp@, id),
{
    let mut i: usize = 0;
    proof {
        assert(pp@.skip(0) =~= pp@);
    }
    while i < pp.len()
        invariant
            i <= pp@.len(),
            pin_lookup(pp@, id) == pin_lookup(pp@.skip(i as int), id),
        decreases pp@.len() - i,
    {
        proof {
            assert(pp@.skip(i as int)[0] == pp@[i as int]);
            assert(pp@.skip(i as int).drop_first() =~= pp@.skip(i as int + 1));
        }
        let e = pp[i];
        if e.0 == id {
            return Some(e.1);
        }
        i = i + 1;
    }
    None
}

/// Writes the link for one planar direction of a junction.
fn set_link_exec(n: NetNode, d: Towards, p: Pointer) -> (r: NetNode)
    requires
        d.is_planar(),
    ensures
        r == set_link(n, d, p),
{
    match d {
        Towards::Up => NetNode { up: Some(p), ..n },
        Towards::Down => NetNode { down: Some(p), ..n },
        Towards::Left => NetNode { left: Some(p), ..n },
        Towards::Right => NetNode { right: Some(p), ..n },
        Towards::Top | Towards::Bottom => n,
    }
}

/// Connects two different junctions with a bidirectional link pair on the
/// given layer: the source junction points in the segment's direction, the
/// target junction points back. Fails (changing nothing) when either slot is
/// already occupied.
fn connect(
    nodes: &mut Vec<NetNode>,
    sindex: usize,
    oindex: usize,
    height: usize,
    diff: Towards,
) -> (r: bool)
    requires
        sindex < old(nodes)@.len(),
        oindex < old(nodes)@.len(),
        sindex != oindex,
        diff.is_planar(),
    ensures
        r <==> (link_of(old(nodes)@[sindex as int], diff) is None && link_of(
            old(nodes)@[oindex as int],
            diff.spec_inv(),
        ) is None),
        r ==> final(nodes)@ == old(nodes)@.update(
            sindex as int,
            set_link(
                old(nodes)@[sindex as int],
                diff,
                Pointer { index: oindex, height },
            ),
        ).update(
            oindex as int,
            set_link(
                old(nodes)@[oindex as int],
                diff.spec_inv(),
                Pointer { index: sindex, height },
            ),
        ),
        !r ==> final(nodes)@ == old(nodes)@,
{
    let s = nodes[sindex];
    let o = nodes[oindex];
    let di = diff.inv();
    let s_free = s.index(diff).is_none();
    let o_free = o.index(di).is_none();
    if !(s_free && o_free) {
        return false;
    }
    let ns = set_link_exec(s, diff, Pointer { index: oindex, height });
    nodes[sindex] = ns;
    let no = set_link_exec(o, di, Pointer { index: sindex, height });
    nodes[oindex] = no;
    true
}

/// Whether a walk over the stored links from the first junction reaches
/// every junction.
fn reaches_all(nodes: &Vec<NetNode>) -> (r: bool)
    requires
        links_wf(nodes@),
        positions_distinct(nodes@),
        nodes@.len() > 0,
    ensures
        r <==> connected(nodes@),
{
    let n = nodes.len();
    let mut visited: Vec<bool> = Vec::new();
    let mut vi: usize = 0;
    while vi < n
        invariant
            vi <= n,
            visited@.len() == vi,
            count_marked(visited@) == 0,
            forall|q: int| 0 <= q < vi ==> !(#[trigger] visited@[q]),
        decreases n - vi,
    {
        let ghost old_vis = visited@;
        visited.push(false);
        proof {
            assert(visited@.drop_last() =~= old_vis);
        }
        vi = vi + 1;
    }
    let ghost vinit = visited@;
    visited[0] = true;
    proof {
        lemma_count_marked_update(vinit, 0);
    }
    let mut dump: Vec<Route> = Vec::new();
    let ghost va = visited@;
    walk(nodes, 0, Towards::Up, &mut visited, &mut dump, Ghost(0));
    let ghost vb = visited@;
    walk(nodes, 0, Towards::Down, &mut visited, &mut dump, Ghost(0));
    let ghost vc = visited@;
    walk(nodes, 0, Towards::Left, &mut visited, &mut dump, Ghost(0));
    let ghost vd = visited@;
    walk(nodes, 0, Towards::Right, &mut visited, &mut dump, Ghost(0));
    proof {
        assert forall|m: int|
            0 <= m < n && (#[trigger] visited@[m]) && !va[m] implies reachable(
            nodes@,
            0,
            m,
        ) by {
            if vb[m] {
            } else if vc[m] {
            } else if vd[m] {
            }
        }
        assert(closed_links(nodes@, visited@)) by {
            assert forall|j: int, d: Towards|
                0 <= j < nodes@.len() && visited@[j] && d.is_planar() && (#[trigger] link_of(
                    nodes@[j],
                    d,
                )) is Some implies visited@[link_of(nodes@[j], d).unwrap().index as int] by {
                if va[j] {
                    assert(j == 0);
                    if d != Towards::Up.spec_inv() {
                        assert(vb[link_of(nodes@[j], d).unwrap().index as int]);
                    } else {
                        assert(d != Towards::Down.spec_inv());
                        assert(vc[link_of(nodes@[j], d).unwrap().index as int]);
                    }
                } else if vb[j] {
                } else if vc[j] {
                } else if vd[j] {
                }
            }
        }
        assert(visited@[0]);
    }
    let mut q: usize = 0;
    while q < n
        invariant
            q <= n,
            n == nodes@.len(),
            visited@.len() == n,
            links_wf(nodes@),
            closed_links(nodes@, visited@),
            visited@[0],
            forall|m: int| 0 <= m < q ==> (#[trigger] visited@[m]),
            forall|m: int|
                0 <= m < n && (#[trigger] visited@[m]) && !va[m] ==> reachable(nodes@, 0, m),
            va.len() == n && va[0] && forall|m: int| 1 <= m < n ==> !(#[trigger] va[m]),
        decreases n - q,
    {
        if !visited[q] {
            proof {
                assert(!connected(nodes@)) by {
                    if connected(nodes@) {
                        assert(reachable(nodes@, 0, q as int));
                        let pth = choose|pt: Seq<int>|
                            is_path(nodes@, pt) && pt.first() == 0 && pt.last() == q as int;
                        lemma_closed_covers(nodes@, visited@, pth);
                        assert(false);
                    }
                }
            }
            return false;
        }
        q = q + 1;
    }
    proof {
        assert forall|m: int| 0 <= m < n implies reachable(nodes@, 0, m) by {
            if m == 0 {
                lemma_reachable_refl(nodes@, 0);
            } else {
                assert(!va[m] && visited@[m]);
            }
        }
    }
    true
}

/// An owning, indexed collection of junctions for one net: one junction per
/// distinct position, wired into a single connected tree of mirrored
/// directional links.
#[derive(Debug)]
pub struct NetTree {
    nodes: Vec<NetNode>,
}

impl View for NetTree {
    type V = Seq<NetNode>;

    closed spec fn view(&self) -> Seq<NetNode> {
        self.nodes@
    }
}

impl NetTree {
    /// The structural invariant construction establishes: unique positions,
    /// well-formed mirrored links, and full connectivity.
    pub open spec fn wf(&self) -> bool {
        &&& positions_distinct(self@)
        &&& links_wf(self@)
        &&& links_geometric(self@)
        &&& connected(self@)
    }

    /// Builds the junction tree for one net from the listed pins, the
    /// segment set, and the pin-position lookup. Endpoints and pin positions
    /// are deduplicated into junctions (a pin tag overwrites, last write
    /// wins); planar segments become mirrored link pairs, with the
    /// disjoint-set structure dropping redundant segments (at most one is
    /// tolerated); layer-axis segments store no links. Construction fails on
    /// a pin without a position, a malformed segment, a direction conflict, a
    /// second redundant segment, or a net that does not end fully connected.
    #[verifier::rlimit(100)]
    #[verifier::spinoff_prover]
    pub fn new(
        conn_pins: Vec<usize>,
        segments: Vec<Route>,
        pin_position: &Vec<(usize, Pair)>,
    ) -> (r: Result<NetTree, NetError>)
        ensures
            (r matches Err(e) && e == NetError::PinNotFound) <==> (exists|i: int|
                0 <= i < conn_pins@.len() && pin_lookup(
                    pin_position@,
                    #[trigger] conn_pins@[i],
                ) is None),
            r matches Err(e) && e == NetError::MalformedSegment ==> exists|i: int|
                0 <= i < segments@.len() && !(#[trigger] segments@[i]).spec_axis_aligned(),
            r matches Ok(t) ==> {
                &&& t.wf()
                &&& positions_covered(t@, segments@, conn_pins@, pin_position@)
                &&& endpoints_present(t@, segments@)
                &&& pins_present(t@, conn_pins@, pin_position@)
                &&& ids_match(t@, conn_pins@, pin_position@)
                &&& t@.len() == input_positions(segments@, conn_pins@, pin_position@).len()
                &&& (count_links(t@) == 2 * planar_count(segments@) || count_links(t@) + 2 == 2
                    * planar_count(segments@))
                &&& (t@.len() > 0 ==> count_links(t@) + 2 == 2 * t@.len())
            },
            r matches Ok(t) ==> spec_construct(conn_pins@, segments@, pin_position@)
                == Ok::<Seq<NetNode>, NetError>(t@),
            r matches Err(e) ==> spec_construct(conn_pins@, segments@, pin_position@)
                == Err::<Seq<NetNode>, NetError>(e),
    {
        let mut nodes: Vec<NetNode> = Vec::new();
        // Deduplicate the flattened endpoints of every segment into junctions.
        proof {
            assert(segments@.skip(0) =~= segments@);
        }
        let mut si: usize = 0;
        while si < segments.len()
            invariant
                si <= segments@.len(),
                collect_endpoints(nodes@, segments@.skip(si as int)) == collect_endpoints(
                    Seq::<NetNode>::empty(),
                    segments@,
                ),
                positions_distinct(nodes@),
                forall|j: int|
                    0 <= j < nodes@.len() ==> links_none(#[trigger] nodes@[j]) && nodes@[j].id
                        is None,
                forall|k: int|
                    0 <= k < si ==> has_position(
                        nodes@,
                        (#[trigger] segments@[k]).0.spec_flatten(),
                    ) && has_position(nodes@, segments@[k].1.spec_flatten()),
                forall|j: int|
                    0 <= j < nodes@.len() ==> seg_positions(segments@).contains(
                        (#[trigger] nodes@[j]).position,
                    ),
            decreases segments@.len() - si,
        {
            let ghost prev0 = nodes@;
            let rt = segments[si];
            let p0 = rt.source().flatten();
            match find_position(&nodes, p0) {
                Some(j) => {
                    proof {
                        assert(nodes@[j as int].position == p0);
                    }
                },
                None => {
                    nodes.push(
                        NetNode {
                            id: None,
                            position: p0,
                            up: None,
                            down: None,
                            left: None,
                            right: None,
                        },
                    );
                    proof {
                        assert(nodes@[nodes@.len() - 1].position == p0);
                    }
                },
            }
            proof {
                assert(has_position(nodes@, p0));
                assert(nodes@ == add_endpoint(prev0, p0));
            }
            let ghost prev1 = nodes@;
            let p1 = rt.target().flatten();
            match find_position(&nodes, p1) {
                Some(j) => {
                    proof {
                        assert(nodes@[j as int].position == p1);
                    }
                },
                None => {
                    nodes.push(
                        NetNode {
                            id: None,
                            position: p1,
                            up: None,
                            down: None,
                            left: None,
                            right: None,
                        },
                    );
                    proof {
                        assert(nodes@[nodes@.len() - 1].position == p1);
                    }
                },
            }
            proof {
                assert(has_position(nodes@, p1));
                assert(nodes@ == add_endpoint(prev1, p1));
                assert(has_position(nodes@, p0)) by {
                    lemma_has_position_mono(prev1, nodes@, p0);
                }
                assert(segments@.skip(si as int).first() == segments@[si as int]);
                assert(segments@.skip(si as int).drop_first() =~= segments@.skip(si as int + 1));
                assert(collect_endpoints(nodes@, segments@.skip(si as int + 1))
                    == collect_endpoints(prev0, segments@.skip(si as int)));
                assert forall|kk: int|
                    0 <= kk < si as int + 1 implies has_position(
                    nodes@,
                    (#[trigger] segments@[kk]).0.spec_flatten(),
                ) && has_position(nodes@, segments@[kk].1.spec_flatten()) by {
                    if kk < si as int {
                        lemma_has_position_mono(prev0, nodes@, segments@[kk].0.spec_flatten());
                        lemma_has_position_mono(prev0, nodes@, segments@[kk].1.spec_flatten());
                    }
                }
            }
            si = si + 1;
        }
        // Deduplicate the listed pins' positions in; a pin tag overwrites
        // whatever tag the position had (last write wins).
        proof {
            assert(conn_pins@.take(0) =~= Seq::<usize>::empty());
            assert(conn_pins@.skip(0) =~= conn_pins@);
            assert(segments@.skip(segments@.len() as int) =~= Seq::<Route>::empty());
            assert(collect_endpoints(Seq::<NetNode>::empty(), segments@) == nodes@);
        }
        let mut pi: usize = 0;
        while pi < conn_pins.len()
            invariant
                pi <= conn_pins@.len(),
                spec_construct(conn_pins@, segments@, pin_position@) == (match tag_pins(
                    nodes@,
                    conn_pins@.skip(pi as int),
                    pin_position@,
                ) {
                    Err(e) => Err::<Seq<NetNode>, NetError>(e),
                    Ok(tagged) => after_pins_construct(tagged, segments@),
                }),
                positions_distinct(nodes@),
                forall|j: int| 0 <= j < nodes@.len() ==> links_none(#[trigger] nodes@[j]),
                endpoints_present(nodes@, segments@),
                pins_present(nodes@, conn_pins@.take(pi as int), pin_position@),
                ids_match(nodes@, conn_pins@.take(pi as int), pin_position@),
                positions_covered(
                    nodes@,
                    segments@,
                    conn_pins@.take(pi as int),
                    pin_position@,
                ),
            decreases conn_pins@.len() - pi,
        {
            let id = conn_pins[pi];
            match lookup_pin(pin_position, id) {
                None => {
                    proof {
                        assert(conn_pins@.skip(pi as int).first() == conn_pins@[pi as int]);
                        assert(tag_pins(nodes@, conn_pins@.skip(pi as int), pin_position@)
                            == Err::<Seq<NetNode>, NetError>(NetError::PinNotFound));
                    }
                    return Err(NetError::PinNotFound);
                },
                Some(p) => {
                    proof {
                        assert(conn_pins@.take(pi as int + 1).drop_last() =~= conn_pins@.take(
                            pi as int,
                        ));
                        assert(conn_pins@.take(pi as int + 1).last() == conn_pins@[pi as int]);
                        assert(conn_pins@.skip(pi as int).first() == conn_pins@[pi as int]);
                        assert(conn_pins@.skip(pi as int).drop_first() =~= conn_pins@.skip(
                            pi as int + 1,
                        ));
                    }
                    let ghost prev = nodes@;
                    match find_position(&nodes, p) {
                        Some(j) => {
                            proof {
                                assert(nodes@[j as int].position == p);
                                assert(has_position(prev, p));
                            }
                            let mut nd = nodes[j];
                            nd.id = Some(id);
                            nodes[j] = nd;
                            proof {
                                assert(nodes@[j as int].position == p);
                                let w = junction_at(prev, p);
                                assert(0 <= w < prev.len() && prev[w].position == p);
                                assert(w == j as int) by {
                                    if w < j as int {
                                        assert(prev[w].position != prev[j as int].position);
                                    } else if (j as int) < w {
                                        assert(prev[j as int].position != prev[w].position);
                                    }
                                }
                                assert(nodes@ == prev.update(
                                    j as int,
                                    NetNode { id: Some(id), ..prev[j as int] },
                                ));
                            }
                        },
                        None => {
                            proof {
                                assert(!has_position(prev, p));
                            }
                            nodes.push(
                                NetNode {
                                    id: Some(id),
                                    position: p,
                                    up: None,
                                    down: None,
                                    left: None,
                                    right: None,
                                },
                            );
                            proof {
                                assert(nodes@[nodes@.len() - 1].position == p);
                            }
                        },
                    }
                    proof {
                        assert(tag_pins(prev, conn_pins@.skip(pi as int), pin_position@)
                            == tag_pins(nodes@, conn_pins@.skip(pi as int + 1), pin_position@));
                        let taken = conn_pins@.take(pi as int + 1);
                        assert(prev.len() <= nodes@.len());
                        assert(forall|jj: int|
                            0 <= jj < prev.len() ==> (#[trigger] nodes@[jj]).position
                                == prev[jj].position);
                        assert(has_position(nodes@, p));
                        assert forall|jj: int| 0 <= jj < nodes@.len() implies (
                        #[trigger] nodes@[jj]).id == last_pin_at(
                            taken,
                            pin_position@,
                            nodes@[jj].position,
                        ) by {
                            if nodes@[jj].position == p {
                                assert(positions_distinct(nodes@));
                            } else {
                                assert(jj < prev.len() && nodes@[jj] == prev[jj]);
                            }
                        }
                        assert forall|jj: int| 0 <= jj < nodes@.len() implies input_positions(
                            segments@,
                            taken,
                            pin_position@,
                        ).contains((#[trigger] nodes@[jj]).position) by {
                            if nodes@[jj].position == p {
                                assert(pin_lookup(pin_position@, taken[pi as int]) == Some(p));
                            } else {
                                assert(jj < prev.len() && nodes@[jj] == prev[jj]);
                                assert(input_positions(
                                    segments@,
                                    conn_pins@.take(pi as int),
                                    pin_position@,
                                ).contains(prev[jj].position));
                                assert(forall|ii: int|
                                    0 <= ii < pi ==> conn_pins@.take(pi as int)[ii]
                                        == #[trigger] taken[ii]);
                            }
                        }
                        assert forall|kk: int|
                            0 <= kk < segments@.len() implies has_position(
                            nodes@,
                            (#[trigger] segments@[kk]).0.spec_flatten(),
                        ) && has_position(nodes@, segments@[kk].1.spec_flatten()) by {
                            lemma_has_position_mono(
                                prev,
                                nodes@,
                                segments@[kk].0.spec_flatten(),
                            );
                            lemma_has_position_mono(
                                prev,
                                nodes@,
                                segments@[kk].1.spec_flatten(),
                            );
                        }
                        assert forall|k: int| 0 <= k < pi as int + 1 implies pin_lookup(
                            pin_position@,
                            #[trigger] taken[k],
                        ) is Some && has_position(
                            nodes@,
                            pin_lookup(pin_position@, taken[k]).unwrap(),
                        ) by {
                            if k < pi as int {
                                assert(taken[k] == conn_pins@.take(pi as int)[k]);
                                assert(has_position(
                                    prev,
                                    pin_lookup(pin_position@, taken[k]).unwrap(),
                                ));
                                lemma_has_position_mono(
                                    prev,
                                    nodes@,
                                    pin_lookup(pin_position@, taken[k]).unwrap(),
                                );
                            }
                        }
                    }
                },
            }
            pi = pi + 1;
        }
        proof {
            assert(conn_pins@.take(conn_pins@.len() as int) =~= conn_pins@);
        }
        // Wire the planar segments into links, dropping redundant ones.
        let n = nodes.len();
        let mut uf = UnionFind::new(n);
        proof {
            lemma_new_classes(uf.labels());
            assert(conn_pins@.skip(conn_pins@.len() as int) =~= Seq::<usize>::empty());
            assert(tag_pins(nodes@, Seq::<usize>::empty(), pin_position@)
                == Ok::<Seq<NetNode>, NetError>(nodes@));
            assert(spec_construct(conn_pins@, segments@, pin_position@) == after_pins_construct(
                nodes@,
                segments@,
            ));
            assert(uf.labels() =~= Seq::new(nodes@.len(), |i: int| i as usize));
            assert(segments@.skip(0) =~= segments@);
            assert(spec_construct(conn_pins@, segments@, pin_position@) == finish_construct(
                nodes@,
                uf.labels(),
                segments@.skip(0),
                0nat,
            ));
            assert forall|x: int, y: int|
                0 <= x < nodes@.len() && 0 <= y < nodes@.len() && #[trigger] linked(
                    nodes@,
                    x,
                    y,
                ) implies uf.labels()[x] == uf.labels()[y] by {
                let d = choose|d: Towards|
                    d.is_planar() && (#[trigger] link_of(nodes@[x], d)) is Some && link_of(
                        nodes@[x],
                        d,
                    ).unwrap().index == y;
                assert(links_none(nodes@[x]));
                assert(false);
            }
        }
        let mut redundant: usize = 0;
        let ghost mid = nodes@;
        proof {
            assert(segments@.take(0) =~= Seq::<Route>::empty());
            assert(count_links(nodes@) == 0) by {
                lemma_count_links_none(nodes@);
            }
            assert forall|j: int| 0 <= j < nodes@.len() implies #[trigger] geom_ok(
                nodes@,
                j,
            ) by {
                assert(links_none(nodes@[j]));
            }
        }
        let mut k: usize = 0;
        while k < segments.len()
            invariant
                k <= segments@.len(),
                n == nodes@.len(),
                mid.len() == n,
                uf.len() == n,
                redundant <= 1,
                forall|j: int|
                    0 <= j < n ==> (#[trigger] nodes@[j]).position == mid[j].position
                        && nodes@[j].id == mid[j].id,
                positions_distinct(nodes@),
                links_wf(nodes@),
                links_geometric(nodes@),
                labels_respect_links(nodes@, uf.labels()),
                spec_construct(conn_pins@, segments@, pin_position@) == finish_construct(
                    nodes@,
                    uf.labels(),
                    segments@.skip(k as int),
                    redundant as nat,
                ),
                count_links(nodes@) + 2 * num_classes(uf.labels()) == 2 * (n as nat),
                count_links(nodes@) + 2 * (redundant as nat) == 2 * planar_count(
                    segments@.take(k as int),
                ),
                endpoints_present(nodes@, segments@),
                pins_present(nodes@, conn_pins@, pin_position@),
                ids_match(nodes@, conn_pins@, pin_position@),
                positions_covered(nodes@, segments@, conn_pins@, pin_position@),
            decreases segments@.len() - k,
        {
            proof {
                assert(segments@.take(k as int + 1).drop_last() =~= segments@.take(k as int));
                assert(segments@.take(k as int + 1).last() == segments@[k as int]);
                assert(segments@.skip(k as int).first() == segments@[k as int]);
                assert(segments@.skip(k as int).drop_first() =~= segments@.skip(k as int + 1));
            }
            let rt = segments[k];
            let t = match rt.towards() {
                None => {
                    proof {
                        assert(wire_segments(
                            nodes@,
                            uf.labels(),
                            segments@.skip(k as int),
                            redundant as nat,
                        ) == Err::<(Seq<NetNode>, Seq<usize>, nat), NetError>(
                            NetError::MalformedSegment,
                        ));
                    }
                    return Err(NetError::MalformedSegment);
                },
                Some(t) => t,
            };
            let planar = match t {
                Towards::Up | Towards::Down | Towards::Left | Towards::Right => true,
                Towards::Top | Towards::Bottom => false,
            };
            if planar {
                let sp = rt.source().flatten();
                let tp = rt.target().flatten();
                let sj = match find_position(&nodes, sp) {
                    Some(j) => j,
                    None => {
                        proof {
                            assert(has_position(nodes@, segments@[k as int].0.spec_flatten()));
                        }
                        vstd::pervasive::unreached()
                    },
                };
                let tj = match find_position(&nodes, tp) {
                    Some(j) => j,
                    None => {
                        proof {
                            assert(has_position(nodes@, segments@[k as int].1.spec_flatten()));
                        }
                        vstd::pervasive::unreached()
                    },
                };
                proof {
                    crate::geometry::lemma_planar_same_layer(rt);
                    assert(nodes@[sj as int].position != nodes@[tj as int].position);
                    let sjm = junction_at(nodes@, segments@[k as int].0.spec_flatten());
                    let tjm = junction_at(nodes@, segments@[k as int].1.spec_flatten());
                    assert(0 <= sjm < nodes@.len() && nodes@[sjm].position == segments@[
                        k as int
                    ].0.spec_flatten()) by {
                        assert(nodes@[sj as int].position == segments@[k as int].0.spec_flatten());
                    }
                    assert(0 <= tjm < nodes@.len() && nodes@[tjm].position == segments@[
                        k as int
                    ].1.spec_flatten()) by {
                        assert(nodes@[tj as int].position == segments@[k as int].1.spec_flatten());
                    }
                    assert(sjm == sj as int) by {
                        if sjm < sj as int {
                            assert(nodes@[sjm].position != nodes@[sj as int].position);
                        } else if (sj as int) < sjm {
                            assert(nodes@[sj as int].position != nodes@[sjm].position);
                        }
                    }
                    assert(tjm == tj as int) by {
                        if tjm < tj as int {
                            assert(nodes@[tjm].position != nodes@[tj as int].position);
                        } else if (tj as int) < tjm {
                            assert(nodes@[tj as int].position != nodes@[tjm].position);
                        }
                    }
                }
                let ghost labs = uf.labels();
                let merged = uf.union(sj, tj);
                if !merged {
                    proof {
                        assert forall|ii: int| 0 <= ii < labs.len() implies uf.labels()[ii]
                            == labs[ii] by {}
                        assert(uf.labels() =~= labs);
                        assert(labs[sj as int] == labs[tj as int]);
                    }
                    if redundant == 1 {
                        proof {
                            assert(wire_segments(
                                nodes@,
                                labs,
                                segments@.skip(k as int),
                                redundant as nat,
                            ) == Err::<(Seq<NetNode>, Seq<usize>, nat), NetError>(
                                NetError::ExtraRedundancy,
                            ));
                        }
                        return Err(NetError::ExtraRedundancy);
                    }
                    redundant = 1;
                    proof {
                        assert(wire_segments(nodes@, labs, segments@.skip(k as int), 0nat)
                            == wire_segments(nodes@, labs, segments@.skip(k as int + 1), 1nat));
                    }
                } else {
                    let h = rt.source().lay();
                    let ghost before = nodes@;
                    let ok = connect(&mut nodes, sj, tj, h, t);
                    if !ok {
                        proof {
                            assert(labs[sj as int] != labs[tj as int]);
                            assert(link_of(before[sj as int], t) is Some || link_of(
                                before[tj as int],
                                t.spec_inv(),
                            ) is Some);
                            assert(wire_segments(
                                before,
                                labs,
                                segments@.skip(k as int),
                                redundant as nat,
                            ) == Err::<(Seq<NetNode>, Seq<usize>, nat), NetError>(
                                NetError::LinkConflict,
                            ));
                        }
                        return Err(NetError::LinkConflict);
                    }
                    proof {
                        lemma_union_classes(labs, uf.labels(), sj as int, tj as int);
                        assert(uf.labels() =~= Seq::new(
                            labs.len(),
                            |i: int|
                                if labs[i] == labs[tj as int] {
                                    labs[sj as int]
                                } else {
                                    labs[i]
                                },
                        ));
                        assert(h == segments@[k as int].0.2);
                        assert(nodes@ == before.update(
                            sj as int,
                            set_link(
                                before[sj as int],
                                t,
                                Pointer { index: tj, height: segments@[k as int].0.2 },
                            ),
                        ).update(
                            tj as int,
                            set_link(
                                before[tj as int],
                                t.spec_inv(),
                                Pointer { index: sj, height: segments@[k as int].0.2 },
                            ),
                        ));
                        lemma_wire_step_ok(
                            before,
                            labs,
                            nodes@,
                            uf.labels(),
                            segments@,
                            k as int,
                            sj as int,
                            tj as int,
                            t,
                            redundant as nat,
                        );
                        lemma_connect_preserves_wf(before, sj as int, tj as int, h, t);
                        lemma_connect_preserves_geometry(before, sj as int, tj as int, h, t, rt);
                        let after = nodes@;
                        assert forall|j: int| 0 <= j < n implies (#[trigger] after[j]).position
                            == mid[j].position && after[j].id == mid[j].id by {
                            assert(after[j].position == before[j].position && after[j].id
                                == before[j].id);
                        }
                        assert forall|kk: int|
                            0 <= kk < segments@.len() implies has_position(
                            after,
                            (#[trigger] segments@[kk]).0.spec_flatten(),
                        ) && has_position(after, segments@[kk].1.spec_flatten()) by {
                            lemma_has_position_mono(
                                before,
                                after,
                                segments@[kk].0.spec_flatten(),
                            );
                            lemma_has_position_mono(
                                before,
                                after,
                                segments@[kk].1.spec_flatten(),
                            );
                        }
                        assert forall|kk: int|
                            0 <= kk < conn_pins@.len() implies pin_lookup(
                            pin_position@,
                            #[trigger] conn_pins@[kk],
                        ) is Some && has_position(
                            after,
                            pin_lookup(pin_position@, conn_pins@[kk]).unwrap(),
                        ) by {
                            lemma_has_position_mono(
                                before,
                                after,
                                pin_lookup(pin_position@, conn_pins@[kk]).unwrap(),
                            );
                        }
                    }
                }
            }
            k = k + 1;
        }
        proof {
            assert(segments@.take(segments@.len() as int) =~= segments@);
            assert(segments@.skip(segments@.len() as int) =~= Seq::<Route>::empty());
            assert(spec_construct(conn_pins@, segments@, pin_position@) == (
            if connected(nodes@) {
                Ok::<Seq<NetNode>, NetError>(nodes@)
            } else {
                Err::<Seq<NetNode>, NetError>(NetError::Disconnected)
            }));
        }
        // The disjoint-set structure must report full connectivity, and the
        // links themselves must reach every junction from the first.
        if !uf.done() {
            proof {
                assert(!connected(nodes@)) by {
                    if connected(nodes@) {
                        lemma_connected_one_label(nodes@, uf.labels());
                        assert(false);
                    }
                }
            }
            return Err(NetError::Disconnected);
        }
        proof {
            if n > 0 {
                assert forall|i1: int, j1: int|
                    0 <= i1 < uf.len() && 0 <= j1 < uf.len() implies uf.labels()[i1]
                    == uf.labels()[j1] by {
                    assert(uf.same_set(i1, j1));
                }
                lemma_single_class(uf.labels());
            }
        }
        if n > 0 {
            let all_reached = reaches_all(&nodes);
            if !all_reached {
                return Err(NetError::Disconnected);
            }
        }
        proof {
            assert(connected(nodes@)) by {
                if n == 0 {
                    assert(forall|j: int| 0 <= j < nodes@.len() ==> reachable(nodes@, 0, j));
                }
            }
        }
        let tree = NetTree { nodes };
        proof {
            lemma_junction_count(tree@, segments@, conn_pins@, pin_position@);
            assert(count_links(tree@) + 2 * (redundant as nat) == 2 * planar_count(segments@));
            assert(connected(tree@));
            assert(spec_construct(conn_pins@, segments@, pin_position@)
                == Ok::<Seq<NetNode>, NetError>(tree@));
        }
        Ok(tree)
    }

    /// The number of junctions.
    pub fn len(&self) -> (r: usize)
        ensures
            r == self@.len(),
    {
        self.nodes.len()
    }

    /// The junction at an index.
    pub fn node(&self, j: usize) -> (r: NetNode)
        requires
            j < self@.len(),
        ensures
            r == self@[j as int],
    {
        self.nodes[j]
    }

    /// The tree's edges in serialization order: a depth-first walk from the
    /// first junction outward in each of the four directions. Each record
    /// renders a stored link from its already-visited endpoint to a newly
    /// discovered junction, so the records enter pairwise different
    /// junctions, never the first one, each leaving from the first junction
    /// or from some other record's target — one record per link, a spanning
    /// tree's edge count, one less than the number of junctions.
    pub fn edge_records(&self) -> (out: Vec<Route>)
        requires
            self.wf(),
        ensures
            forall|i: int| 0 <= i < out@.len() ==> record_is_link(self@, #[trigger] out@[i]),
            self@.len() == 0 ==> out@.len() == 0,
            self@.len() > 0 ==> out@.len() + 1 == self@.len(),
            targets_distinct(out@),
            forall|i: int|
                0 <= i < out@.len() ==> (#[trigger] out@[i]).1.spec_flatten()
                    != self@[0].position,
            forall|i: int|
                0 <= i < out@.len() ==> ((#[trigger] out@[i]).0.spec_flatten()
                    == self@[0].position || exists|i2: int|
                    0 <= i2 < out@.len() && i2 != i && (#[trigger] out@[i2]).1.spec_flatten()
                        == out@[i].0.spec_flatten()),
    {
        let n = self.nodes.len();
        let mut out: Vec<Route> = Vec::new();
        if n == 0 {
            return out;
        }
        let mut visited: Vec<bool> = Vec::new();
        let mut vi: usize = 0;
        while vi < n
            invariant
                vi <= n,
                visited@.len() == vi,
                count_marked(visited@) == 0,
                forall|q: int| 0 <= q < vi ==> !(#[trigger] visited@[q]),
            decreases n - vi,
        {
            let ghost old_vis = visited@;
            visited.push(false);
            proof {
                assert(visited@.drop_last() =~= old_vis);
            }
            vi = vi + 1;
        }
        let ghost vinit = visited@;
        visited[0] = true;
        proof {
            lemma_count_marked_update(vinit, 0);
        }
        let ghost va = visited@;
        walk(&self.nodes, 0, Towards::Up, &mut visited, &mut out, Ghost(0));
        let ghost vb = visited@;
        let ghost rb = out@;
        walk(&self.nodes, 0, Towards::Down, &mut visited, &mut out, Ghost(0));
        let ghost vc = visited@;
        let ghost rc = out@;
        walk(&self.nodes, 0, Towards::Left, &mut visited, &mut out, Ghost(0));
        let ghost vd = visited@;
        let ghost rd = out@;
        walk(&self.nodes, 0, Towards::Right, &mut visited, &mut out, Ghost(0));
        proof {
            let nodes = self.nodes@;
            let vfin = visited@;
            assert forall|i: int| 0 <= i < out@.len() implies record_is_link(
                self@,
                #[trigger] out@[i],
            ) by {
                if i < rb.len() {
                    assert(out@[i] == rb[i]);
                } else if i < rc.len() {
                    assert(out@[i] == rc[i]);
                } else if i < rd.len() {
                    assert(out@[i] == rd[i]);
                }
            }
            assert(closed_links(nodes, vfin)) by {
                assert forall|j: int, d: Towards|
                    0 <= j < nodes.len() && vfin[j] && d.is_planar() && (#[trigger] link_of(
                        nodes[j],
                        d,
                    )) is Some implies vfin[link_of(nodes[j], d).unwrap().index as int] by {
                    if va[j] {
                        assert(j == 0);
                        if d != Towards::Up.spec_inv() {
                            assert(vb[link_of(nodes[j], d).unwrap().index as int]);
                        } else {
                            assert(d != Towards::Down.spec_inv());
                            assert(vc[link_of(nodes[j], d).unwrap().index as int]);
                        }
                    } else if vb[j] {
                    } else if vc[j] {
                    } else if vd[j] {
                    }
                }
            }
            assert forall|m: int| 0 <= m < n implies vfin[m] by {
                assert(reachable(nodes, 0, m));
                let path = choose|path: Seq<int>|
                    is_path(nodes, path) && path.first() == 0 && path.last() == m;
                lemma_closed_covers(nodes, vfin, path);
            }
            lemma_count_marked_all(vfin);
            assert(va[0] && vb[0] && vc[0] && vd[0]);
            assert forall|i: int|
                0 <= i < out@.len() implies (#[trigger] out@[i]).1.spec_flatten()
                != self@[0].position by {
                if out@[i].1.spec_flatten() == nodes[0].position {
                    if i < rb.len() {
                        assert(out@[i] == rb[i]);
                        assert(!va[0]);
                    } else if i < rc.len() {
                        assert(out@[i] == rc[i]);
                        assert(!vb[0]);
                    } else if i < rd.len() {
                        assert(out@[i] == rd[i]);
                        assert(!vc[0]);
                    } else {
                        assert(!vd[0]);
                    }
                    assert(false);
                }
            }
            assert forall|i: int|
                0 <= i < out@.len() implies ((#[trigger] out@[i]).0.spec_flatten()
                == self@[0].position || exists|i2: int|
                0 <= i2 < out@.len() && i2 != i && (#[trigger] out@[i2]).1.spec_flatten()
                    == out@[i].0.spec_flatten()) by {
                let m = choose|m: int|
                    0 <= m < nodes.len() && vfin[m] && nodes[m].position == (
                    #[trigger] out@[i]).0.spec_flatten();
                if m != 0 {
                    let i2 = choose|i2: int|
                        0 <= i2 < out@.len() && nodes[m].position == (
                        #[trigger] out@[i2]).1.spec_flatten();
                    assert(i2 != i) by {
                        if i2 == i {
                            let (j2, d2) = choose|j2: int, d2: Towards|
                                0 <= j2 < nodes.len() && d2.is_planar() && (#[trigger] link_of(
                                    nodes[j2],
                                    d2,
                                )) is Some && out@[i] == edge_of_link(nodes, j2, d2);
                            let q2 = link_of(nodes[j2], d2).unwrap();
                            assert(q2.index != j2);
                            assert(out@[i].0.spec_flatten() == nodes[j2].position);
                            assert(out@[i].1.spec_flatten() == nodes[
                                q2.index as int
                            ].position);
                            assert(nodes[j2].position != nodes[q2.index as int].position) by {
                                if j2 < q2.index as int {
                                } else {
                                }
                            }
                            assert(false);
                        }
                    }
                }
            }
        }
        out
    }
}

} // verus!
