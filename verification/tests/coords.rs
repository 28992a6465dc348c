use jisp_sha3::internals::keccak::rc;
use jisp_sha3::internals::state::Lane;
use jisp_sha3::state::{Coord, State_iter, X, Y, Z};

#[test]
fn rc_test() {
    let result = rc(0);
    assert_eq!(result, 1);

    let result = rc(1);
    assert_eq!(result, 0);
}

#[test]
fn lane_get() {
    let lane = Lane(0b0010);
    assert_eq!(lane.get(Z::from(63).size() as i64), 0);
    assert_eq!(lane.get(Z::from(62).size() as i64), 1);
}

#[test]
fn lane_set() {
    let mut lane = Lane(1 << 63);
    lane.set(Z::from(0).size() as i64, 1);
    assert_eq!(lane.0, 1 << 63);
    lane.set(Z::from(1).size() as i64, 1);
    lane.set(Z::from(0).size() as i64, 0);
    assert_eq!(lane.0, 1 << 62);
}

#[test]
fn coord_from_normalises() {
    assert_eq!(X::from(0).size(), 0);
    assert_eq!(X::from(4).size(), 4);
    assert_eq!(X::from(5).size(), 0);
    assert_eq!(X::from(-1).size(), 4);
    assert_eq!(X::from(-10).size(), 0);
    assert_eq!(Z::from(-1).size(), 63);
    assert_eq!(Z::from(64).size(), 0);
    assert_eq!(Z::from(130).size(), 2);
    assert_eq!(Coord::<7>::from(-15).size(), 6);
}

#[test]
fn coord_arithmetic_wraps() {
    assert_eq!((Z::from(0) - 1).size(), 63);
    assert_eq!((Z::from(63) + 1).size(), 0);
    assert_eq!((X::from(3) + X::from(4)).size(), 2);
    assert_eq!((X::from(1) - X::from(3)).size(), 3);
    assert_eq!((Y::from(4) * 3).size(), 2);
    assert_eq!((X::from(2) * 2 + Y::from(3) * 3).size(), 3);
    assert_eq!((X::from(4) + 1).size(), 0);
    assert_eq!((X::from(0) - 7).size(), 3);
    assert_eq!((Z::from(5) * 0).size(), 0);
}

fn places(mut walk: State_iter) -> Vec<(usize, usize, usize)> {
    let mut out = Vec::new();
    while let Some((x, y, z)) = walk.next() {
        out.push((x.size(), y.size(), z.size()));
        assert!(out.len() <= 1600);
    }
    assert!(walk.next().is_none());
    out
}

#[test]
fn walk_over_the_whole_cube() {
    let all = places(State_iter::new());
    assert_eq!(all.len(), 1600);
    assert_eq!(all[0], (0, 0, 0));
    assert_eq!(all[1], (1, 0, 0));
    assert_eq!(all[4], (4, 0, 0));
    assert_eq!(all[5], (0, 1, 0));
    assert_eq!(all[24], (4, 4, 0));
    assert_eq!(all[25], (0, 0, 1));
    assert_eq!(all[1599], (4, 4, 63));
    for (k, p) in all.iter().enumerate() {
        assert_eq!(*p, (k % 5, (k / 5) % 5, k / 25));
    }
}

#[test]
fn walks_over_two_axes() {
    let xy = places(State_iter::xy());
    assert_eq!(xy.len(), 25);
    for (k, p) in xy.iter().enumerate() {
        assert_eq!(*p, (k % 5, k / 5, 0));
    }
    let xz = places(State_iter::xz());
    assert_eq!(xz.len(), 320);
    for (k, p) in xz.iter().enumerate() {
        assert_eq!(*p, (k % 5, 0, k / 5));
    }
    let yz = places(State_iter::yz());
    assert_eq!(yz.len(), 320);
    for (k, p) in yz.iter().enumerate() {
        assert_eq!(*p, (0, k % 5, k / 5));
    }
}
