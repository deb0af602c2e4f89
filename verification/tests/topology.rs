use netroute::errors::NetError;
use netroute::geometry::Pair;
use netroute::geometry::Point;
use netroute::geometry::Route;
use netroute::geometry::Towards;
use netroute::net::Net;
use netroute::tree::NetNode;
use netroute::tree::NetTree;
use netroute::tree::Pointer;
use netroute::unionfind::UnionFind;

#[test]
fn empty_net_constructs_and_renders_nothing() {
    let net = Net::new(0, 0, vec![], vec![], &vec![]).unwrap();
    assert_eq!(net.tree.len(), 0);
    assert_eq!(net.tree.edge_records().len(), 0);
    assert_eq!(net.render(), "");
}

#[test]
fn union_find_merging_and_done() {
    let mut uf = UnionFind::new(3);
    assert!(!uf.done());
    assert!(uf.union(0, 1));
    assert!(!uf.union(1, 0));
    assert!(!uf.done());
    assert!(uf.union(1, 2));
    assert!(!uf.union(0, 2));
    assert!(uf.done());
    assert!(UnionFind::new(0).done());
    assert!(UnionFind::new(1).done());
}

#[test]
fn end_to_end_two_pins_one_segment() {
    let pins = vec![0usize, 1usize];
    let segs = vec![Route(Point(0, 0, 1), Point(0, 3, 1))];
    let pp = vec![(0usize, Pair(0, 0)), (1usize, Pair(0, 3))];
    let net = Net::new(0, 1, pins, segs, &pp).unwrap();
    assert_eq!(net.id, 0);
    assert_eq!(net.min_layer, 1);
    assert_eq!(net.tree.len(), 2);
    let n0 = net.tree.node(0);
    assert_eq!(n0.position, Pair(0, 0));
    assert_eq!(n0.id, Some(0));
    assert_eq!(n0.right, Some(Pointer { index: 1, height: 1 }));
    assert_eq!(n0.up, None);
    assert_eq!(n0.down, None);
    assert_eq!(n0.left, None);
    let n1 = net.tree.node(1);
    assert_eq!(n1.position, Pair(0, 3));
    assert_eq!(n1.id, Some(1));
    assert_eq!(n1.left, Some(Pointer { index: 0, height: 1 }));
    assert_eq!(n1.right, None);
    // Both junctions have a zero span at layer 1, so each emits two
    // identical via lines; one edge line follows.
    let out = net.render();
    assert_eq!(out, "0 0 1 N1\n0 0 1 N1\n0 3 1 N1\n0 3 1 N1\n0 0 1 0 3 1 N1\n");
}

#[test]
fn junction_count_equals_distinct_positions() {
    // Three distinct positions over two segments sharing one endpoint, plus
    // one pin on an existing position and one on a fresh position.
    let segs = vec![
        Route(Point(0, 0, 1), Point(0, 1, 1)),
        Route(Point(0, 1, 1), Point(0, 2, 1)),
        Route(Point(0, 2, 1), Point(1, 2, 1)),
    ];
    let pins = vec![4usize, 9usize];
    let pp = vec![(4usize, Pair(0, 0)), (9usize, Pair(1, 2))];
    let net = Net::new(0, 0, pins, segs, &pp).unwrap();
    assert_eq!(net.tree.len(), 4);
}

#[test]
fn pin_tagging_each_pin_on_exactly_one_junction() {
    let segs = vec![
        Route(Point(0, 0, 2), Point(0, 5, 2)),
        Route(Point(0, 5, 2), Point(3, 5, 2)),
    ];
    let pins = vec![10usize, 11usize, 12usize];
    let pp = vec![
        (10usize, Pair(0, 0)),
        (11usize, Pair(0, 5)),
        (12usize, Pair(3, 5)),
    ];
    let net = Net::new(2, 0, pins, segs, &pp).unwrap();
    for pin in [10usize, 11, 12] {
        let mut hits = 0;
        let expected = match pin {
            10 => Pair(0, 0),
            11 => Pair(0, 5),
            _ => Pair(3, 5),
        };
        for j in 0..net.tree.len() {
            let nd = net.tree.node(j);
            if nd.id == Some(pin) {
                hits += 1;
                assert_eq!(nd.position, expected);
            }
        }
        assert_eq!(hits, 1);
    }
}

#[test]
fn pin_tag_last_write_wins_on_shared_position() {
    // Two listed pins share one position: the later one keeps the tag.
    let segs = vec![Route(Point(0, 0, 1), Point(0, 1, 1))];
    let pins = vec![3usize, 8usize];
    let pp = vec![(3usize, Pair(0, 0)), (8usize, Pair(0, 0))];
    let net = Net::new(0, 0, pins, segs, &pp).unwrap();
    assert_eq!(net.tree.len(), 2);
    let n0 = net.tree.node(0);
    assert_eq!(n0.position, Pair(0, 0));
    assert_eq!(n0.id, Some(8));
}

#[test]
fn connectivity_walk_reaches_every_junction() {
    let segs = vec![
        Route(Point(0, 0, 1), Point(0, 2, 1)),
        Route(Point(0, 2, 1), Point(2, 2, 1)),
        Route(Point(0, 2, 2), Point(0, 4, 2)),
        Route(Point(0, 0, 1), Point(1, 0, 1)),
    ];
    let net = Net::new(0, 0, vec![], segs, &vec![]).unwrap();
    let n = net.tree.len();
    assert_eq!(n, 5);
    // Breadth-first walk over the directional links from every start.
    for start in 0..n {
        let mut seen = vec![false; n];
        let mut queue = vec![start];
        seen[start] = true;
        while let Some(j) = queue.pop() {
            let nd = net.tree.node(j);
            for opt in nd.neightbors().iter() {
                if let Some(ptr) = opt {
                    if !seen[ptr.index] {
                        seen[ptr.index] = true;
                        queue.push(ptr.index);
                    }
                }
            }
        }
        assert!(seen.iter().all(|&b| b));
    }
}

#[test]
fn one_cycle_closing_edge_is_dropped() {
    // A square: four segments, the last closes the cycle and is dropped.
    let segs = vec![
        Route(Point(0, 0, 1), Point(0, 1, 1)),
        Route(Point(0, 1, 1), Point(1, 1, 1)),
        Route(Point(1, 1, 1), Point(1, 0, 1)),
        Route(Point(1, 0, 1), Point(0, 0, 1)),
    ];
    let net = Net::new(0, 0, vec![], segs, &vec![]).unwrap();
    assert_eq!(net.tree.len(), 4);
    // A spanning tree's edge count: one less than the junction count.
    assert_eq!(net.tree.edge_records().len(), 3);
    // The dropped edge ran from (1,0) down to (0,0): neither junction stores
    // a link for it.
    for j in 0..net.tree.len() {
        let nd = net.tree.node(j);
        if nd.position == Pair(1, 0) {
            assert_eq!(nd.down, None);
        }
        if nd.position == Pair(0, 0) {
            assert_eq!(nd.up, None);
        }
    }
}

#[test]
fn second_cycle_closing_edge_fails() {
    let segs = vec![
        Route(Point(0, 0, 1), Point(0, 1, 1)),
        Route(Point(0, 1, 1), Point(1, 1, 1)),
        Route(Point(1, 1, 1), Point(1, 0, 1)),
        Route(Point(1, 0, 1), Point(0, 0, 1)),
        Route(Point(0, 0, 1), Point(1, 0, 1)),
    ];
    let r = Net::new(0, 0, vec![], segs, &vec![]);
    assert_eq!(r.err(), Some(NetError::ExtraRedundancy));
}

#[test]
fn span_sentinel_for_isolated_junction() {
    let pins = vec![7usize];
    let pp = vec![(7usize, Pair(4, 4))];
    let net = Net::new(0, 0, pins, vec![], &pp).unwrap();
    assert_eq!(net.tree.len(), 1);
    let nd = net.tree.node(0);
    assert_eq!(nd.span(), (usize::MAX, usize::MIN));
}

#[test]
fn span_covers_link_layers() {
    let nd = NetNode {
        id: None,
        position: Pair(0, 0),
        up: Some(Pointer { index: 1, height: 5 }),
        down: None,
        left: Some(Pointer { index: 2, height: 2 }),
        right: Some(Pointer { index: 3, height: 3 }),
    };
    assert_eq!(nd.span(), (2, 5));
    assert_eq!(nd.index(Towards::Up), Some(Pointer { index: 1, height: 5 }));
    assert_eq!(nd.index(Towards::Down), None);
    let nb = nd.neightbors();
    assert_eq!(nb[0], Some(Pointer { index: 1, height: 5 }));
    assert_eq!(nb[1], None);
    assert_eq!(nb[2], Some(Pointer { index: 2, height: 2 }));
    assert_eq!(nb[3], Some(Pointer { index: 3, height: 3 }));
}

#[test]
fn layer_axis_segments_store_no_links() {
    // One planar segment plus one pure layer change at (0,0): the layer-axis
    // segment contributes no link and no extra junction.
    let segs = vec![
        Route(Point(0, 0, 1), Point(0, 1, 1)),
        Route(Point(0, 0, 1), Point(0, 0, 3)),
    ];
    let net = Net::new(0, 0, vec![], segs, &vec![]).unwrap();
    assert_eq!(net.tree.len(), 2);
    let n0 = net.tree.node(0);
    assert_eq!(n0.position, Pair(0, 0));
    assert_eq!(n0.up, None);
    assert_eq!(n0.down, None);
    assert_eq!(n0.left, None);
    assert_eq!(n0.right, Some(Pointer { index: 1, height: 1 }));
}

#[test]
fn missing_pin_position_fails() {
    let pins = vec![5usize];
    let pp = vec![(4usize, Pair(0, 0))];
    let r = NetTree::new(pins, vec![], &pp);
    assert_eq!(r.err(), Some(NetError::PinNotFound));
}

#[test]
fn malformed_segment_fails() {
    let segs = vec![Route(Point(0, 0, 1), Point(1, 1, 1))];
    let r = NetTree::new(vec![], segs, &vec![]);
    assert_eq!(r.err(), Some(NetError::MalformedSegment));
}

#[test]
fn conflicting_links_fail() {
    // Two rightward segments leaving the same junction would both need its
    // single right slot.
    let segs = vec![
        Route(Point(0, 0, 1), Point(0, 2, 1)),
        Route(Point(0, 0, 1), Point(0, 1, 1)),
    ];
    let r = NetTree::new(vec![], segs, &vec![]);
    assert_eq!(r.err(), Some(NetError::LinkConflict));
}

#[test]
fn disconnected_net_fails() {
    let segs = vec![
        Route(Point(0, 0, 1), Point(0, 1, 1)),
        Route(Point(2, 0, 1), Point(2, 1, 1)),
    ];
    let r = NetTree::new(vec![], segs, &vec![]);
    assert_eq!(r.err(), Some(NetError::Disconnected));
}

#[test]
fn render_isolated_pin_uses_sentinel_span() {
    let pins = vec![0usize];
    let pp = vec![(0usize, Pair(1, 2))];
    let net = Net::new(4, 0, pins, vec![], &pp).unwrap();
    let out = net.render();
    let max = usize::MAX;
    let min = usize::MIN;
    assert_eq!(out, format!("1 2 {} N5\n1 2 {} N5\n", max, min));
}

#[test]
fn render_emits_each_link_once() {
    // A T shape: three arms out of (1,1) on layer 2.
    let segs = vec![
        Route(Point(1, 1, 2), Point(0, 1, 2)),
        Route(Point(1, 1, 2), Point(1, 0, 2)),
        Route(Point(1, 1, 2), Point(1, 3, 2)),
    ];
    let net = Net::new(0, 0, vec![], segs, &vec![]).unwrap();
    assert_eq!(net.tree.len(), 4);
    let records = net.tree.edge_records();
    assert_eq!(records.len(), 3);
    let out = net.render();
    let edge_lines: Vec<&str> = out
        .lines()
        .filter(|l| l.split_whitespace().count() == 7)
        .collect();
    assert_eq!(edge_lines.len(), 3);
}
