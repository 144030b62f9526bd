use tilepack::tile::Shape;

fn rows2(a: [[u8; 3]; 2]) -> Vec<Vec<u8>> {
    vec![a[0].to_vec(), a[1].to_vec()]
}

fn cells_of(s: &Shape) -> Vec<Vec<u8>> {
    s.data.clone()
}

#[test]
fn new_initializes_reserved_row() {
    let s = Shape::new(1, rows2([[1, 2, 3], [0, 1, 2]]));
    assert_eq!(s.color, 1);
    assert_eq!(s.data, vec![vec![1, 2, 3], vec![0, 1, 2], vec![0, 0, 0]]);
}

#[test]
fn rotate_formula() {
    // new cell (i, k) must be old cell (2 - k, i)
    let s = Shape::new(0, rows2([[1, 2, 3], [0, 1, 2]]));
    let r = s.rotate();
    assert_eq!(r.color, 0);
    let old = cells_of(&s);
    let newc = cells_of(&r);
    for i in 0..3 {
        for k in 0..3 {
            assert_eq!(newc[i][k], old[2 - k][i]);
        }
    }
    assert_eq!(newc, vec![vec![0, 0, 1], vec![0, 1, 2], vec![0, 2, 3]]);
}

#[test]
fn rotate_four_times_is_identity() {
    let s = Shape::new(1, rows2([[3, 1, 0], [0, 1, 1]]));
    let r = s.rotate().rotate().rotate().rotate();
    assert_eq!(cells_of(&r), cells_of(&s));
    assert_eq!(r.color, s.color);
}

#[test]
fn flip_formula() {
    // new_row0[c] = (old_row1[c] & 1) | ((old_row0[c] & 1) << 1)
    // new_row1[c] = ((old_row1[c] & 2) >> 1) | (old_row0[c] & 2)
    let s = Shape::new(0, rows2([[1, 2, 3], [3, 1, 0]]));
    let f = s.flip();
    assert_eq!(f.color, 1);
    assert_eq!(f.data[0], vec![1 | 2, 1 | 0, 0 | 2]);
    assert_eq!(f.data[1], vec![1 | 0, 0 | 2, 0 | 2]);
    assert_eq!(f.data[2], vec![0, 0, 0]);
}

#[test]
fn flip_twice_restores_color() {
    let s = Shape::new(1, rows2([[1, 2, 3], [3, 1, 0]]));
    assert_eq!(s.flip().flip().color, s.color);
    let t = Shape::new(0, rows2([[0, 1, 0], [2, 3, 1]]));
    assert_eq!(t.flip().flip().color, t.color);
}

#[test]
fn create_group_yields_sixteen_in_order() {
    let s = Shape::new(0, rows2([[3, 1, 1], [2, 0, 0]]));
    let orbit = s.create_group();
    assert_eq!(orbit.len(), 16);
    // entry f*4 + r is flip^f then rotate^r of the canonical tile
    let mut flipped = cells_of(&s);
    let mut color = s.color;
    let mut base = Shape::new(color, rows2([[3, 1, 1], [2, 0, 0]]));
    for f in 0..4 {
        assert_eq!(cells_of(&orbit[f * 4]), flipped);
        assert_eq!(orbit[f * 4].color, color);
        let mut z = orbit[f * 4].clone_shape();
        for r in 1..4 {
            z = z.rotate();
            assert_eq!(cells_of(&orbit[f * 4 + r]), cells_of(&z));
            assert_eq!(orbit[f * 4 + r].color, color);
        }
        base = base.flip();
        flipped = cells_of(&base);
        color = base.color;
    }
}

#[test]
fn duplicate_orientations_are_retained() {
    // a fully symmetric footprint still yields 16 entries
    let s = Shape::new(0, rows2([[0, 0, 0], [0, 0, 0]]));
    let orbit = s.create_group();
    assert_eq!(orbit.len(), 16);
    for t in &orbit {
        assert_eq!(cells_of(t), vec![vec![0, 0, 0]; 3]);
    }
}
