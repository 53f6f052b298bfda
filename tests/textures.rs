use ray_tracing_weekend::perlin::{shuffle, Perlin};
use ray_tracing_weekend::texture::{is_even_cell, ImageTexture};
use ray_tracing_weekend::vec3::Dimension;

#[test]
fn checker_cells_alternate() {
    assert!(is_even_cell(0, 0, 0));
    assert!(!is_even_cell(1, 0, 0));
    assert!(!is_even_cell(-1, 0, 0));
    assert!(is_even_cell(-1, -1, 0));
    assert!(is_even_cell(1, 2, 3));
    assert!(!is_even_cell(i32::MAX, 0, 0));
    assert!(is_even_cell(i32::MAX, i32::MAX, 0));
    assert!(!is_even_cell(i32::MIN + 1, 0, 0));
    assert!(is_even_cell(i32::MIN, i32::MIN, i32::MIN));
}

#[test]
fn checker_repeats_every_two_cells() {
    for x in -5..5 {
        for y in -3..3 {
            for z in -3..3 {
                let here = is_even_cell(x, y, z);
                assert_eq!(is_even_cell(x + 2, y, z), here);
                assert_eq!(is_even_cell(x, y + 2, z), here);
                assert_eq!(is_even_cell(x, y, z + 2), here);
                assert_ne!(is_even_cell(x + 1, y, z), here);
            }
        }
    }
}

#[test]
fn perlin_hash_in_range_and_periodic() {
    let perlin = Perlin::new();
    for i in -300..300 {
        let h = perlin.hash(i, 2 * i, -i);
        assert!(h < 256);
        assert_eq!(perlin.hash(i + 256, 2 * i, -i), h);
        assert_eq!(perlin.hash(i, 2 * i - 512, -i), h);
        assert_eq!(perlin.hash(i, 2 * i, -i + 256), h);
    }
    assert_eq!(perlin.hash(-1, 0, 0), perlin.hash(255, 0, 0));
    assert_eq!(perlin.hash(i32::MIN, 0, 0), perlin.hash(0, 0, 0));
    assert_eq!(perlin.hash(i32::MAX, 0, 0), perlin.hash(255, 0, 0));
}

#[test]
fn perlin_tables_are_permutations() {
    let perlin = Perlin::new();
    // Along one axis, with the other two fixed, the hash runs through the
    // permutation of that axis xored with a constant: all 256 values appear.
    let mut seen: Vec<usize> = (0..256).map(|i| perlin.hash(i, 7, 9)).collect();
    seen.sort();
    assert_eq!(seen, (0..256).collect::<Vec<usize>>());
    let mut seen: Vec<usize> = (0..256).map(|k| perlin.hash(3, 1, k)).collect();
    seen.sort();
    assert_eq!(seen, (0..256).collect::<Vec<usize>>());
}

#[test]
fn perlin_tables_are_shuffled() {
    // Three random permutations of 256 entries are almost surely not all the
    // identity, whose xor would vanish along the diagonal.
    let perlin = Perlin::new();
    assert!((0..256).any(|i| perlin.hash(i, i, i) != 0 || perlin.hash(i, 0, 0) != perlin.hash(0, i, 0)));
}

fn image_2x2() -> ImageTexture {
    let data: Vec<u8> = vec![
        1, 2, 3, 4, 5, 6, //
        7, 8, 9, 10, 11, 12,
    ];
    ImageTexture::from_raw(2, 2, data).unwrap()
}

#[test]
fn image_texture_reads_texels() {
    let tex = image_2x2();
    assert_eq!(tex.width(), 2);
    assert_eq!(tex.height(), 2);
    assert_eq!(tex.texel(0, 0), (1, 2, 3));
    assert_eq!(tex.texel(1, 0), (4, 5, 6));
    assert_eq!(tex.texel(0, 1), (7, 8, 9));
    assert_eq!(tex.texel(1, 1), (10, 11, 12));
}

#[test]
fn image_texture_clamps_coordinates() {
    let tex = image_2x2();
    assert_eq!(tex.texel(2, 0), (4, 5, 6));
    assert_eq!(tex.texel(u32::MAX, u32::MAX), (10, 11, 12));
    assert_eq!(tex.texel(0, 7), (7, 8, 9));
}

#[test]
fn image_texture_rejects_short_data() {
    assert!(ImageTexture::from_raw(2, 2, vec![0; 11]).is_none());
    assert!(ImageTexture::from_raw(2, 2, vec![0; 12]).is_some());
    assert!(ImageTexture::from_raw(0, 0, vec![]).is_some());
    assert!(ImageTexture::from_raw(u32::MAX, u32::MAX, vec![0; 3]).is_none());
}

#[test]
fn dimensions_in_order() {
    let all = Dimension::all();
    assert_eq!(all, vec![Dimension::X, Dimension::Y, Dimension::Z]);
    for (i, d) in all.iter().enumerate() {
        assert_eq!(d.index(), i);
        assert_eq!(Dimension::from_index(i), *d);
    }
}

#[test]
fn longest_axis_prefers_later_on_ties() {
    assert_eq!(Dimension::longest(3, 2, 1), Dimension::X);
    assert_eq!(Dimension::longest(1, 3, 2), Dimension::Y);
    assert_eq!(Dimension::longest(1, 2, 3), Dimension::Z);
    assert_eq!(Dimension::longest(3, 3, 1), Dimension::Y);
    assert_eq!(Dimension::longest(3, 1, 3), Dimension::Z);
    assert_eq!(Dimension::longest(1, 3, 3), Dimension::Z);
    assert_eq!(Dimension::longest(5, 5, 5), Dimension::Z);
    assert_eq!(Dimension::longest(-1, -7, -2), Dimension::X);
}

/// The shuffle written out plainly, for comparison.
fn fisher_yates(mut perm: Vec<usize>, draws: &[usize]) -> Vec<usize> {
    for i in (0..perm.len()).rev() {
        perm.swap(i, draws[i]);
    }
    perm
}

#[test]
fn shuffle_follows_draws() {
    let identity: Vec<usize> = (0..256).collect();
    // Drawing each position itself leaves the table as it is.
    let mut perm = identity.clone();
    let stay: Vec<usize> = (0..256).collect();
    shuffle(&mut perm, &stay);
    assert_eq!(perm, identity);
    // One swap of the last entry with the first.
    let mut perm = identity.clone();
    let mut draws = stay.clone();
    draws[255] = 0;
    shuffle(&mut perm, &draws);
    assert_eq!(perm[0], 255);
    assert_eq!(perm[255], 0);
    assert_eq!(&perm[1..255], &identity[1..255]);
    // All draws zero: a rotation by one.
    let mut perm = identity.clone();
    let zeros = vec![0usize; 256];
    shuffle(&mut perm, &zeros);
    assert_eq!(perm, fisher_yates(identity.clone(), &zeros));
    assert_eq!(perm[0], 1);
    assert_eq!(perm[255], 0);
    // Mixed draws, against the plain loop.
    let mut perm = identity.clone();
    let mixed: Vec<usize> = (0..256).map(|i| (i * 37 + 11) % (i + 1)).collect();
    shuffle(&mut perm, &mixed);
    assert_eq!(perm, fisher_yates(identity.clone(), &mixed));
    let mut sorted = perm.clone();
    sorted.sort();
    assert_eq!(sorted, identity);
}
