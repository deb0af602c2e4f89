use netroute::errors::NetError;
use netroute::geometry::Pair;
use netroute::geometry::Point;
use netroute::geometry::Route;
use netroute::geometry::Towards;
use netroute::naming::FactoryID;
use netroute::records::Blockage;
use netroute::records::Cell;
use netroute::records::Layer;
use netroute::records::MasterCell;
use netroute::records::MasterPin;
use netroute::net::Net;
use netroute::geometry::Direction;

#[test]
fn naming_basic_values() {
    assert_eq!(Layer::from_numeric(0).unwrap(), "M1");
    assert_eq!(MasterPin::from_numeric(0).unwrap(), "P1");
    assert_eq!(Blockage::from_numeric(7).unwrap(), "B8");
    assert_eq!(MasterCell::from_numeric(41).unwrap(), "MC42");
    assert_eq!(Cell::from_numeric(99).unwrap(), "C100");
    assert_eq!(Net::from_numeric(9).unwrap(), "N10");
}

#[test]
fn naming_parse_values() {
    assert_eq!(Layer::from_str("M1").unwrap(), 0);
    assert_eq!(MasterCell::from_str("MC42").unwrap(), 41);
    assert_eq!(Net::from_str("N10").unwrap(), 9);
    assert_eq!(MasterPin::from_str("P12").unwrap(), 11);
}

#[test]
fn naming_round_trip_every_type() {
    for id in 0..60usize {
        assert_eq!(Layer::from_str(&Layer::from_numeric(id).unwrap()).unwrap(), id);
        assert_eq!(
            MasterPin::from_str(&MasterPin::from_numeric(id).unwrap()).unwrap(),
            id
        );
        assert_eq!(
            Blockage::from_str(&Blockage::from_numeric(id).unwrap()).unwrap(),
            id
        );
        assert_eq!(
            MasterCell::from_str(&MasterCell::from_numeric(id).unwrap()).unwrap(),
            id
        );
        assert_eq!(Cell::from_str(&Cell::from_numeric(id).unwrap()).unwrap(), id);
        assert_eq!(Net::from_str(&Net::from_numeric(id).unwrap()).unwrap(), id);
    }
    assert_eq!(Net::from_str(&Net::from_numeric(123456).unwrap()).unwrap(), 123456);
}

#[test]
fn naming_parse_errors() {
    assert_eq!(Layer::from_str("M"), Err(NetError::ParseName));
    assert_eq!(Layer::from_str("Mabc"), Err(NetError::ParseName));
    assert_eq!(Layer::from_str("M0"), Err(NetError::ParseName));
    assert_eq!(Net::from_str(""), Err(NetError::ParseName));
    assert_eq!(MasterCell::from_str("MC"), Err(NetError::ParseName));
    assert_eq!(Layer::from_str("M1x"), Err(NetError::ParseName));
}

#[test]
fn naming_does_not_validate_prefix_characters() {
    // Only the prefix's length is stripped; the characters are the caller's
    // responsibility.
    assert_eq!(Layer::from_str("X7").unwrap(), 6);
}

#[test]
fn pair_and_point_accessors() {
    let p = Pair(3, 4);
    assert_eq!(p.x(), 3);
    assert_eq!(p.y(), 4);
    assert_eq!(p.size(), 12);
    let q = p.with(2);
    assert_eq!(q, Point(3, 4, 2));
    assert_eq!(q.row(), 3);
    assert_eq!(q.col(), 4);
    assert_eq!(q.lay(), 2);
    assert_eq!(q.flatten(), Pair(3, 4));
    let r = Route(Point(1, 2, 3), Point(4, 5, 6));
    assert_eq!(r.source(), Point(1, 2, 3));
    assert_eq!(r.target(), Point(4, 5, 6));
}

#[test]
fn towards_all_six_directions() {
    assert_eq!(Route(Point(0, 0, 0), Point(2, 0, 0)).towards(), Some(Towards::Up));
    assert_eq!(Route(Point(2, 0, 0), Point(0, 0, 0)).towards(), Some(Towards::Down));
    assert_eq!(Route(Point(0, 2, 0), Point(0, 0, 0)).towards(), Some(Towards::Left));
    assert_eq!(Route(Point(0, 0, 0), Point(0, 2, 0)).towards(), Some(Towards::Right));
    assert_eq!(Route(Point(0, 0, 0), Point(0, 0, 2)).towards(), Some(Towards::Top));
    assert_eq!(Route(Point(0, 0, 2), Point(0, 0, 0)).towards(), Some(Towards::Bottom));
}

#[test]
fn towards_malformed_routes_fail_classification() {
    // Identical source and target.
    assert_eq!(Route(Point(1, 2, 3), Point(1, 2, 3)).towards(), None);
    // Two coordinates differ.
    assert_eq!(Route(Point(0, 0, 1), Point(1, 1, 1)).towards(), None);
    // All three coordinates differ.
    assert_eq!(Route(Point(0, 0, 0), Point(1, 1, 1)).towards(), None);
}

#[test]
fn towards_inverse_of_reversed_route() {
    let routes = [
        Route(Point(0, 0, 0), Point(2, 0, 0)),
        Route(Point(5, 1, 0), Point(3, 1, 0)),
        Route(Point(0, 2, 7), Point(0, 9, 7)),
        Route(Point(4, 9, 1), Point(4, 2, 1)),
        Route(Point(1, 1, 0), Point(1, 1, 4)),
        Route(Point(1, 1, 4), Point(1, 1, 0)),
    ];
    for r in routes.iter() {
        let rev = Route(r.target(), r.source());
        assert_eq!(r.towards().unwrap().inv(), rev.towards().unwrap());
    }
}

#[test]
fn inv_is_an_involution() {
    let dirs = [
        Towards::Up,
        Towards::Down,
        Towards::Left,
        Towards::Right,
        Towards::Top,
        Towards::Bottom,
    ];
    for d in dirs.iter() {
        assert_eq!(d.inv().inv(), *d);
    }
    assert_eq!(Towards::Up.inv(), Towards::Down);
    assert_eq!(Towards::Left.inv(), Towards::Right);
    assert_eq!(Towards::Top.inv(), Towards::Bottom);
}

#[test]
fn layer_capacity_access() {
    let mut layer = Layer {
        id: 0,
        direction: Direction::Horizontal,
        dim: Pair(2, 3),
        capacity: vec![10, 11, 12, 20, 21, 22],
    };
    assert_eq!(layer.get_capacity(0, 0), Some(10));
    assert_eq!(layer.get_capacity(1, 2), Some(22));
    assert_eq!(layer.get_capacity(5, 0), None);
    assert!(layer.set_capacity(1, 0, 99));
    assert_eq!(layer.get_capacity(1, 0), Some(99));
    assert!(!layer.set_capacity(9, 9, 1));
}
