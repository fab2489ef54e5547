use raytracer::perlin::{Perlin, PERLIN_POINT_COUNT, split_cell, wrap};
use raytracer::scalar::UNIT;
use raytracer::vec3::Vec3;

const U: i64 = UNIT;

fn table() -> Perlin {
    let randvec = (0..256)
        .map(|n: i64| {
            Vec3::new(
                (n * 37 % 201 - 100) * 1000,
                (n * 53 % 201 - 100) * 1000,
                (n * 71 % 201 - 100) * 1000,
            )
        })
        .collect();
    let identity: Vec<i32> = (0..256).collect();
    Perlin { randvec, perm_x: identity.clone(), perm_y: identity.clone(), perm_z: identity }
}

#[test]
fn generated_permutation_holds_every_number_once() {
    let mut different = false;
    for _ in 0..20 {
        let p = Perlin::generate_perm();
        assert_eq!(p.len(), PERLIN_POINT_COUNT);
        let mut sorted = p.clone();
        sorted.sort();
        assert_eq!(sorted, (0..256).collect::<Vec<i32>>());
        different |= p != sorted;
    }
    assert!(different);
}

#[test]
fn shuffle_keeps_the_members_and_the_tail() {
    let before: Vec<i32> = vec![10, 20, 30, 40, 50, 60, 70];
    for _ in 0..50 {
        let after = Perlin::random_permutation(before.clone(), 4);
        assert_eq!(&after[4..], &before[4..]);
        let mut head = after[..4].to_vec();
        head.sort();
        assert_eq!(head, vec![10, 20, 30, 40]);
    }
    assert_eq!(Perlin::random_permutation(before.clone(), 1), before);
    assert_eq!(Perlin::random_permutation(vec![5], 1), vec![5]);
}

#[test]
fn fresh_noise_has_a_full_table() {
    let p = Perlin::new();
    assert_eq!(p.randvec.len(), 256);
    assert_eq!((p.perm_x.len(), p.perm_y.len(), p.perm_z.len()), (256, 256, 256));
    assert!(p.randvec.iter().all(|v| v.is_within(U)));
    // whatever the gradients, the noise vanishes at the corners of the cells
    assert_eq!(p.noise(Vec3::zero()), 0);
    assert_eq!(p.noise(Vec3::new(3 * U, -2 * U, U)), 0);
}

#[test]
fn cells_and_places_in_the_table() {
    assert_eq!(split_cell(0), (0, 0));
    assert_eq!(split_cell(U - 1), (0, U - 1));
    assert_eq!(split_cell(U), (1, 0));
    assert_eq!(split_cell(-1), (-1, U - 1));
    assert_eq!(split_cell(-U), (-1, 0));
    assert_eq!(split_cell(-U - 1), (-2, U - 1));
    assert_eq!(split_cell(i64::MIN), (-92_233_720_368_548, 24_192));
    assert_eq!(wrap(0), 0);
    assert_eq!(wrap(255), 255);
    assert_eq!(wrap(256), 0);
    assert_eq!(wrap(-1), 255);
    assert_eq!(wrap(-256), 0);
    assert_eq!(wrap(-257), 255);
}

#[test]
fn noise_of_a_known_table() {
    let p = table();
    assert_eq!(p.noise(Vec3::new(25_000, 50_000, 75_000)), 3_309);
    assert_eq!(p.noise(Vec3::new(-130_000, 220_000, 5)), -1_277);
    assert_eq!(p.noise(Vec3::new(1_234_567, -7_654_321, 99_999)), -21_705);
    assert_eq!(p.noise(Vec3::zero()), 0);
    assert_eq!(p.noise(Vec3::new(300_000, -200_000, 100_000)), 0);
    // the table repeats every 256 cells
    assert_eq!(p.noise(Vec3::new(25_000 + 256 * U, 50_000 - 512 * U, 75_000)), 3_309);
}

#[test]
fn interpolation_weighs_each_corner_by_its_nearness() {
    let mut corners = vec![Vec3::zero(); 8];
    // only the corner at the origin of the cell has a gradient
    corners[0] = Vec3::new(U, 0, 0);
    // a quarter of the way along x: 0.25 · 0.75 · 0.5 · 0.5
    assert_eq!(Perlin::trilinear_interp(&corners, U / 4, U / 2, U / 2), 4_687);
    assert_eq!(Perlin::trilinear_interp(&corners, 0, U / 2, U / 2), 0);
    assert_eq!(Perlin::trilinear_interp(&corners, U, U / 2, U / 2), 0);
    // the opposite corner sees the point from the other side
    let mut corners = vec![Vec3::zero(); 8];
    corners[7] = Vec3::new(U, 0, 0);
    assert_eq!(Perlin::trilinear_interp(&corners, U / 4, U / 2, U / 2), -4_688);
}

#[test]
fn turbulence_adds_octaves() {
    let p = table();
    let at = Vec3::new(25_000, 50_000, 75_000);
    assert_eq!(p.turb(at, 0), 0);
    assert_eq!(p.turb(at, 1), 3_309);
    assert_eq!(p.turb(at, 7), 1_879);
    let other = Vec3::new(-130_000, 220_000, 5);
    assert_eq!(p.turb(other, 1), 1_277);
    assert_eq!(p.turb(other, 3), 23_099);
}

#[test]
fn exchange_swaps_two_entries() {
    assert_eq!(Perlin::exchange(vec![5, 6, 7, 8], 3, 1), vec![5, 8, 7, 6]);
    assert_eq!(Perlin::exchange(vec![5, 6, 7, 8], 0, 3), vec![8, 6, 7, 5]);
    assert_eq!(Perlin::exchange(vec![5, 6, 7, 8], 2, 2), vec![5, 6, 7, 8]);
}

#[test]
fn shuffle_reaches_every_order_of_three() {
    let mut seen: Vec<Vec<i32>> = Vec::new();
    for _ in 0..2000 {
        let r = Perlin::random_permutation(vec![0, 1, 2, 7], 3);
        assert_eq!(r[3], 7);
        if !seen.contains(&r) {
            seen.push(r);
        }
    }
    assert_eq!(seen.len(), 6);
}
