use tilepack::cell::hamming_weight;
use tilepack::grid::Assembly;
use tilepack::tile::Shape;

fn shape(color: u8, a: [[u8; 3]; 2]) -> Shape {
    Shape::new(color, vec![a[0].to_vec(), a[1].to_vec()])
}

// a 9x9 board with a two-cell blocked frame and an empty 5x5 interior
fn board9() -> Vec<Vec<u8>> {
    let mut g = vec![vec![3u8; 9]; 9];
    for i in 2..7 {
        for j in 2..7 {
            g[i][j] = 0;
        }
    }
    g
}

#[test]
fn hamming_weight_counts_layer_bits() {
    assert_eq!(hamming_weight(0), 0);
    assert_eq!(hamming_weight(1), 1);
    assert_eq!(hamming_weight(2), 1);
    assert_eq!(hamming_weight(3), 2);
}

#[test]
fn can_place_rejects_color_parity_mismatch() {
    let a = Assembly::new(board9(), 2);
    let s = shape(1, [[1, 1, 1], [0, 3, 0]]);
    // (2 + 2) mod 2 == 0 but the tile's color is 1
    assert!(!a.can_place(2, 2, &s));
    // (2 + 3) mod 2 == 1 matches
    assert!(a.can_place(2, 3, &s));
}

#[test]
fn can_place_rejects_bit_collision() {
    let mut g = board9();
    g[2][4] = 1; // collides with the tile's first-row L0 bits
    let a = Assembly::new(g, 2);
    let s = shape(0, [[1, 1, 1], [0, 3, 0]]);
    assert!(!a.can_place(2, 2, &s));
    // the same tile one row down touches (2,4) with nothing
    let mut g2 = board9();
    g2[2][4] = 1;
    let a2 = Assembly::new(g2, 2);
    assert!(a2.can_place(3, 3, &s));
}

#[test]
fn can_place_rejects_border_overlap() {
    let a = Assembly::new(board9(), 2);
    let s = shape(1, [[1, 1, 1], [0, 3, 0]]);
    // anchored at (1, 2) the tile's first row lies on the blocked frame
    assert!(!a.can_place(1, 2, &s));
}

#[test]
fn place_ors_bits_in() {
    let mut a = Assembly::new(board9(), 2);
    let s = shape(0, [[1, 1, 1], [0, 3, 0]]);
    assert!(a.can_place(2, 2, &s));
    a.place(2, 2, &s);
    assert_eq!(a.data[2][2], 1);
    assert_eq!(a.data[2][3], 1);
    assert_eq!(a.data[2][4], 1);
    assert_eq!(a.data[3][2], 0);
    assert_eq!(a.data[3][3], 3);
    assert_eq!(a.data[3][4], 0);
    assert_eq!(a.data[4][2], 0);
}

#[test]
fn unplace_restores_exact_prior_state() {
    let mut g = board9();
    g[3][3] = 2;
    g[2][4] = 2;
    let mut a = Assembly::new(g.clone(), 2);
    let s = shape(0, [[1, 1, 1], [0, 1, 0]]);
    assert!(a.can_place(2, 2, &s));
    a.place(2, 2, &s);
    assert_ne!(a.data, g);
    a.unplace(2, 2, &s);
    assert_eq!(a.data, g);
}

#[test]
fn cells_stay_valid_and_border_stays_blocked() {
    let mut a = Assembly::new(board9(), 2);
    let s = shape(0, [[1, 1, 1], [0, 3, 0]]);
    let t = shape(1, [[2, 2, 2], [0, 0, 2]]);
    a.place(2, 2, &s);
    assert!(a.can_place(2, 3, &t));
    a.place(2, 3, &t);
    for i in 0..9 {
        for j in 0..9 {
            assert!(a.data[i][j] <= 3);
            let border = i < 2 || i >= 7 || j < 2 || j >= 7;
            if border {
                assert_eq!(a.data[i][j], 3);
            }
        }
    }
}

#[test]
fn selector_picks_densest_neighbourhood_first() {
    // on a fresh board the first interior corner wins on scan order:
    // two blocked neighbours give score 1 + 2 + 0 + 2 + 0 = 5
    let a = Assembly::new(board9(), 2);
    assert_eq!(a.find_most_constrained_cell(), (2, 2, 1));
}

#[test]
fn selector_skips_set_bits_and_honours_scores() {
    let mut g = board9();
    g[2][2] = 3; // both bits set: no longer a target
    g[3][3] = 1; // L0 present, L1 still missing
    let a = Assembly::new(g, 2);
    let (i, j, z) = a.find_most_constrained_cell();
    // (2,3) now has blocked/full neighbours on two sides:
    // 1 + hw(3) + hw(1) + hw(3) + hw(0) = 1 + 2 + 1 + 2 + 0 = 6
    assert_eq!((i, j, z), (2, 3, 1));
}

#[test]
fn selector_reports_no_target_on_full_interior() {
    let g = vec![vec![3u8; 9]; 9];
    let a = Assembly::new(g, 2);
    assert_eq!(a.find_most_constrained_cell(), (0, 0, 0));
}
