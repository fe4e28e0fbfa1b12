use rst_raytrace::perlin::{generate_permutation, lattice_index, PERLIN_LUT_LENGTH};

#[test]
fn permutation_holds_each_index_once() {
    for _ in 0..10 {
        let p = generate_permutation();
        assert_eq!(p.len(), PERLIN_LUT_LENGTH);
        let mut sorted = p.clone();
        sorted.sort();
        assert_eq!(sorted, (0..PERLIN_LUT_LENGTH).collect::<Vec<_>>());
    }
}

#[test]
fn permutation_moves_every_entry() {
    // each swap takes a partner strictly below the position, so no entry stays put
    for _ in 0..10 {
        let p = generate_permutation();
        for (k, v) in p.iter().enumerate() {
            assert_ne!(k, *v);
        }
    }
}

#[test]
fn lattice_index_wraps_and_mixes() {
    let identity: Vec<usize> = (0..256).collect();
    let reversed: Vec<usize> = (0..256).rev().collect();
    assert_eq!(lattice_index(&identity, &identity, &identity, 0, 0, 0), 0);
    assert_eq!(lattice_index(&identity, &identity, &identity, 1, 2, 4), 7);
    assert_eq!(lattice_index(&identity, &identity, &identity, 256, 257, 3), 2);
    assert_eq!(lattice_index(&identity, &identity, &identity, -1, 0, 0), 255);
    assert_eq!(lattice_index(&reversed, &identity, &identity, 0, 0, 0), 255);
    assert_eq!(lattice_index(&reversed, &identity, &identity, 3, 5, 0), 252 ^ 5);
    let p = generate_permutation();
    for i in -300..300 {
        let r = lattice_index(&p, &identity, &identity, i, 0, 0);
        assert_eq!(r, p[(i & 255) as usize]);
        assert!(r < 256);
    }
}
