use swarm_rs::shape::{Idx, Shape, Size};

#[test]
fn signed_shape_indices() {
    let s: Shape = (4, 3);
    assert_eq!(s.idx(1, 2), 9);
    assert_eq!(s.try_idx(3, 2), Some(11));
    assert_eq!(s.try_idx(4, 0), None);
    assert_eq!(s.try_idx(-1, 0), None);
    assert_eq!(s.try_idx(0, 3), None);
    assert_eq!(s.wrapping_idx(-1, -1), 3 + 2 * 4);
    assert_eq!(s.wrapping_idx(4, 3), 0);
    assert_eq!(s.wrapping_idx(2, 1), 6);
}

#[test]
fn unsigned_size_indices() {
    let s: Size = (5, 2);
    assert_eq!(s.idx(4, 1), 9);
    assert_eq!(s.try_idx(4, 1), Some(9));
    assert_eq!(s.try_idx(5, 1), None);
    assert_eq!(s.try_idx(0, -2), None);
    assert_eq!(s.wrapping_idx(6, 3), 1 + 5);
    assert_eq!(s.wrapping_idx(0, 0), 0);
}
