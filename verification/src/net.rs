//! A net: an identifier and minimum-layer constraint paired with its
//! junction tree, and the serialization of that tree into canonical routing
//! text.

use vstd::prelude::*;
use vstd::string::StringExecFns;
use crate::errors::NetError;
use crate::geometry::Pair;
use crate::geometry::Route;
use crate::naming::FactoryID;
use crate::naming::dec_rep;
use crate::naming::spec_to_name;
use crate::naming::to_dec_string;
use crate::tree::NetNode;
use crate::tree::NetTree;
use crate::tree::count_links;
use crate::tree::endpoints_present;
use crate::tree::ids_match;
use crate::tree::input_positions;
use crate::tree::pin_lookup;
use crate::tree::pins_present;
use crate::tree::planar_count;
use crate::tree::positions_covered;
use crate::tree::record_is_link;
use crate::tree::spec_construct;
use crate::tree::targets_distinct;

verus! {

/// Some information about a net.
#[derive(Debug)]
pub struct Net {
    /// Id of the net.
    pub id: usize,
    /// Minimum usable layer (consumed by external capacity accounting).
    pub min_layer: usize,
    /// Structure of the net, represented as a tree of junctions.
    pub tree: NetTree,
}

impl FactoryID for Net {
    open spec fn spec_prefix() -> Seq<char> {
        seq!['N']
    }

    fn prefix() -> (r: &'static str) {
        proof {
            reveal_strlit("N");
        }
        "N"
    }
}

/// The two via lines a junction emits: its position with the minimum span
/// layer, then with the maximum span layer, each followed by the net's name.
pub open spec fn via_lines_of(n: NetNode, name: Seq<char>) -> Seq<char> {
    let s = n.spec_span();
    dec_rep(n.position.0 as nat) + seq![' '] + dec_rep(n.position.1 as nat) + seq![' ']
        + dec_rep(s.0 as nat) + seq![' '] + name + seq!['\n'] + dec_rep(n.position.0 as nat)
        + seq![' '] + dec_rep(n.position.1 as nat) + seq![' '] + dec_rep(s.1 as nat) + seq![' ']
        + name + seq!['\n']
}

/// The via lines of every junction, in collection order.
pub open spec fn render_via_lines(nodes: Seq<NetNode>, name: Seq<char>) -> Seq<char>
    decreases nodes.len(),
{
    if nodes.len() == 0 {
        Seq::<char>::empty()
    } else {
        render_via_lines(nodes.drop_last(), name) + via_lines_of(nodes.last(), name)
    }
}

/// One edge line: source point, target point, and the net's name.
pub open spec fn edge_line_of(r: Route, name: Seq<char>) -> Seq<char> {
    dec_rep(r.0.0 as nat) + seq![' '] + dec_rep(r.0.1 as nat) + seq![' '] + dec_rep(r.0.2 as nat)
        + seq![' '] + dec_rep(r.1.0 as nat) + seq![' '] + dec_rep(r.1.1 as nat) + seq![' ']
        + dec_rep(r.1.2 as nat) + seq![' '] + name + seq!['\n']
}

/// The edge lines for a sequence of edge records, in order.
pub open spec fn render_edge_lines(rs: Seq<Route>, name: Seq<char>) -> Seq<char>
    decreases rs.len(),
{
    if rs.len() == 0 {
        Seq::<char>::empty()
    } else {
        render_edge_lines(rs.drop_last(), name) + edge_line_of(rs.last(), name)
    }
}

/// Appends a number in decimal.
fn append_usize(s: &mut String, v: usize)
    ensures
        final(s)@ == old(s)@ + dec_rep(v as nat),
{
    let d = to_dec_string(v);
    s.append(d.as_str());
}

/// Appends one space.
fn append_space(s: &mut String)
    ensures
        final(s)@ == old(s)@ + seq![' '],
{
    proof {
        reveal_strlit(" ");
        assert(" "@ =~= seq![' ']);
    }
    s.append(" ");
}

/// Appends one newline.
fn append_newline(s: &mut String)
    ensures
        final(s)@ == old(s)@ + seq!['\n'],
{
    proof {
        reveal_strlit("\n");
        assert("\n"@ =~= seq!['\n']);
    }
    s.append("\n");
}

impl Net {
    /// Builds a net from its identifier, minimum-layer constraint, listed
    /// pins, segment set and pin-position lookup; the junction tree carries
    /// all the structure.
    pub fn new(
        id: usize,
        min_layer: usize,
        conn_pins: Vec<usize>,
        segments: Vec<Route>,
        pin_position: &Vec<(usize, Pair)>,
    ) -> (r: Result<Net, NetError>)
        ensures
            (r matches Err(e) && e == NetError::PinNotFound) <==> (exists|i: int|
                0 <= i < conn_pins@.len() && pin_lookup(
                    pin_position@,
                    #[trigger] conn_pins@[i],
                ) is None),
            r matches Err(e) && e == NetError::MalformedSegment ==> exists|i: int|
                0 <= i < segments@.len() && !(#[trigger] segments@[i]).spec_axis_aligned(),
            r matches Ok(net) ==> {
                &&& net.id == id
                &&& net.min_layer == min_layer
                &&& net.tree.wf()
                &&& positions_covered(net.tree@, segments@, conn_pins@, pin_position@)
                &&& endpoints_present(net.tree@, segments@)
                &&& pins_present(net.tree@, conn_pins@, pin_position@)
                &&& ids_match(net.tree@, conn_pins@, pin_position@)
                &&& net.tree@.len() == input_positions(segments@, conn_pins@, pin_position@).len()
                &&& (count_links(net.tree@) == 2 * planar_count(segments@) || count_links(
                    net.tree@,
                ) + 2 == 2 * planar_count(segments@))
                &&& (net.tree@.len() > 0 ==> count_links(net.tree@) + 2 == 2 * net.tree@.len())
            },
            r matches Ok(net) ==> spec_construct(conn_pins@, segments@, pin_position@)
                == Ok::<Seq<NetNode>, NetError>(net.tree@),
            r matches Err(e) ==> spec_construct(conn_pins@, segments@, pin_position@)
                == Err::<Seq<NetNode>, NetError>(e),
    {
        match NetTree::new(conn_pins, segments, pin_position) {
            Ok(tree) => Ok(Net { id, min_layer, tree }),
            Err(e) => Err(e),
        }
    }

    /// Serializes the net: two via lines per junction in collection order
    /// (minimum then maximum span layer), then one line per tree edge from
    /// the depth-first walk rooted at the first junction.
    #[verifier::rlimit(60)]
    pub fn render(&self) -> (r: String)
        requires
            self.tree.wf(),
            self.id < usize::MAX,
        ensures
            ({
                let name = spec_to_name(seq!['N'], self.id as nat);
                exists|records: Seq<Route>|
                    #![trigger render_edge_lines(records, name)]
                    {
                        &&& (forall|i: int|
                            0 <= i < records.len() ==> record_is_link(
                                self.tree@,
                                #[trigger] records[i],
                            ))
                        &&& (self.tree@.len() == 0 ==> records.len() == 0)
                        &&& (self.tree@.len() > 0 ==> records.len() + 1 == self.tree@.len())
                        &&& targets_distinct(records)
                        &&& (forall|i: int|
                            0 <= i < records.len() ==> (#[trigger] records[i]).1.spec_flatten()
                                != self.tree@[0].position)
                        &&& (forall|i: int|
                            0 <= i < records.len() ==> ((#[trigger] records[i]).0.spec_flatten()
                                == self.tree@[0].position || exists|i2: int|
                                0 <= i2 < records.len() && i2 != i && (
                                #[trigger] records[i2]).1.spec_flatten()
                                    == records[i].0.spec_flatten()))
                        &&& r@ == render_via_lines(self.tree@, name) + render_edge_lines(
                            records,
                            name,
                        )
                    }
            }),
    {
        let name = match Self::from_numeric(self.id) {
            Ok(s) => s,
            Err(_) => vstd::pervasive::unreached(),
        };
        let mut s = String::new();
        let n = self.tree.len();
        let mut i: usize = 0;
        proof {
            assert(self.tree@.take(0) =~= Seq::<NetNode>::empty());
        }
        while i < n
            invariant
                i <= n,
                n == self.tree@.len(),
                name@ == spec_to_name(seq!['N'], self.id as nat),
                s@ == render_via_lines(self.tree@.take(i as int), name@),
            decreases n - i,
        {
            proof {
                assert(self.tree@.take(i as int + 1).drop_last() =~= self.tree@.take(i as int));
                assert(self.tree@.take(i as int + 1).last() == self.tree@[i as int]);
            }
            let nd = self.tree.node(i);
            let sp = nd.span();
            append_usize(&mut s, nd.position.0);
            append_space(&mut s);
            append_usize(&mut s, nd.position.1);
            append_space(&mut s);
            append_usize(&mut s, sp.0);
            append_space(&mut s);
            s.append(name.as_str());
            append_newline(&mut s);
            append_usize(&mut s, nd.position.0);
            append_space(&mut s);
            append_usize(&mut s, nd.position.1);
            append_space(&mut s);
            append_usize(&mut s, sp.1);
            append_space(&mut s);
            s.append(name.as_str());
            append_newline(&mut s);
            proof {
                assert(s@ =~= render_via_lines(self.tree@.take(i as int + 1), name@));
            }
            i = i + 1;
        }
        proof {
            assert(self.tree@.take(n as int) =~= self.tree@);
        }
        let records = self.tree.edge_records();
        let ghost vias = s@;
        let mut j: usize = 0;
        proof {
            assert(records@.take(0) =~= Seq::<Route>::empty());
            assert(s@ =~= vias + render_edge_lines(records@.take(0), name@));
        }
        while j < records.len()
            invariant
                j <= records@.len(),
                name@ == spec_to_name(seq!['N'], self.id as nat),
                s@ == vias + render_edge_lines(records@.take(j as int), name@),
            decreases records@.len() - j,
        {
            proof {
                assert(records@.take(j as int + 1).drop_last() =~= records@.take(j as int));
                assert(records@.take(j as int + 1).last() == records@[j as int]);
            }
            let e = records[j];
            append_usize(&mut s, e.0.0);
            append_space(&mut s);
            append_usize(&mut s, e.0.1);
            append_space(&mut s);
            append_usize(&mut s, e.0.2);
            append_space(&mut s);
            append_usize(&mut s, e.1.0);
            append_space(&mut s);
            append_usize(&mut s, e.1.1);
            append_space(&mut s);
            append_usize(&mut s, e.1.2);
            append_space(&mut s);
            s.append(name.as_str());
            append_newline(&mut s);
            proof {
                assert(s@ =~= vias + render_edge_lines(records@.take(j as int + 1), name@));
            }
            j = j + 1;
        }
        proof {
            assert(records@.take(records@.len() as int) =~= records@);
            let spname = spec_to_name(seq!['N'], self.id as nat);
            assert(s@ == render_via_lines(self.tree@, spname) + render_edge_lines(
                records@,
                spname,
            ));
        }
        s
    }
}

} // verus!
