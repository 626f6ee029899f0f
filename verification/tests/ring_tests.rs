use burnside::ring::permutation::{build_permutations, Permutation, Transforms};
use burnside::ring::{limited_count, unlimited_count, AllowedTransformFamiles, Ring};

#[test]
fn test_ring_limited() {
    for xform in [
        AllowedTransformFamiles::NoTransforms,
        AllowedTransformFamiles::Rotate,
        AllowedTransformFamiles::RotateAndFlip,
    ] {
        for beads in 2..10 {
            let transforms = Transforms::new(beads, xform);
            for colours in 1..8 {
                let min_max_repeats = (beads + colours - 1) / colours;
                let max_max_repeats = beads;
                for max_repeats in min_max_repeats..=max_max_repeats {
                    let (orbits, fixed) = limited_count(colours, beads, max_repeats, xform);
                    assert_eq!(0, fixed % orbits, "Fixed count indivisible by orbits on {colours} colours, {beads} beads, {max_repeats} max repeats and {xform:?} transform");
                    let perm_count = if orbits == 0 { 0 } else { fixed / orbits };
                    if perm_count <= 10000 {
                        let mut seen = Vec::with_capacity(perm_count as usize);
                        let mut colour_counts = vec![0; colours as usize];
                        build_permutations(
                            &transforms,
                            beads,
                            colours,
                            0,
                            Permutation::new(),
                            &mut colour_counts,
                            max_repeats,
                            &mut seen,
                        );
                        assert_eq!(seen.len(), perm_count as usize, "Mismatch on {colours} colours, {beads} beads, {max_repeats} max repeats and {xform:?} transform");
                    }
                }
            }
        }
    }
}

#[test]
fn test_ring_unlimited() {
    for xform in [
        AllowedTransformFamiles::NoTransforms,
        AllowedTransformFamiles::Rotate,
        AllowedTransformFamiles::RotateAndFlip,
    ] {
        for beads in 2..10 {
            let transforms = Transforms::new(beads, xform);
            for colours in 1..8 {
                let (orbits, fixed) = unlimited_count(colours, beads, xform);
                let perm_count = if orbits == 0 { 0 } else { fixed / orbits };
                if perm_count <= 10000 {
                    let mut seen = Vec::with_capacity(perm_count as usize);
                    let mut colour_counts = vec![0; colours as usize];
                    build_permutations(
                        &transforms,
                        beads,
                        colours,
                        0,
                        Permutation::new(),
                        &mut colour_counts,
                        u64::MAX,
                        &mut seen,
                    );
                    assert_eq!(
                        seen.len(),
                        perm_count as usize,
                        "Mismatch on {colours} colours, {beads} beads and {xform:?} transform"
                    );
                }
            }
        }
    }
}

#[test]
fn test_ring_no_transform_count() {
    // five beads, three colours, no symmetry: all assignments distinct
    let (orbits, fixed) = unlimited_count(3, 5, AllowedTransformFamiles::NoTransforms);
    assert_eq!(orbits, 1);
    assert_eq!(fixed, 243);
    let mut ring = Ring::new();
    ring.n_colours = 3;
    ring.n_beads = 5;
    ring.allowed_xforms = AllowedTransformFamiles::NoTransforms;
    ring.recompute_perms();
    assert_eq!(ring.perm_count, 243);
    assert_eq!(ring.permutations.len(), 243);
}

#[test]
fn test_two_bead_enumeration() {
    // two beads, two colours, rotations: exactly the necklaces 00, 01, 11
    let mut ring = Ring::new();
    ring.n_colours = 2;
    ring.n_beads = 2;
    ring.allowed_xforms = AllowedTransformFamiles::Rotate;
    ring.recompute_perms();
    assert_eq!(ring.perm_count, 3);
    assert_eq!(ring.permutations.len(), 3);
    let rows = ring.export_rows();
    assert_eq!(rows, vec![vec![0, 0], vec![0, 1], vec![1, 1]]);
}

#[test]
fn test_canonicalize_idempotent_and_orbit_invariant() {
    let n = 5u64;
    let transforms = Transforms::new(n, AllowedTransformFamiles::RotateAndFlip);
    let mut perm = Permutation::new();
    perm.set(0, 2);
    perm.set(1, 0);
    perm.set(2, 1);
    perm.set(3, 1);
    perm.set(4, 0);
    let canonical = transforms.canonicalize(&perm);
    // idempotent
    assert_eq!(transforms.canonicalize(&canonical), canonical);
    // every rotated or flipped image canonicalizes to the same value
    for k in 1..n {
        let rotated = perm.rotate_n(k, n);
        assert_eq!(transforms.canonicalize(&rotated), canonical);
        let flipped_rotated = perm.flip(n).rotate_n(k, n);
        assert_eq!(transforms.canonicalize(&flipped_rotated), canonical);
    }
    // round trip from the emitted representative
    for k in 1..n {
        let image = canonical.rotate_n(k, n);
        assert_eq!(transforms.canonicalize(&image), canonical);
    }
}

#[test]
fn test_export_json_bytes() {
    let mut ring = Ring::new();
    ring.n_colours = 2;
    ring.n_beads = 2;
    ring.allowed_xforms = AllowedTransformFamiles::Rotate;
    ring.recompute_perms();
    let bytes = ring.export_json();
    assert_eq!(bytes, b"[[0,0],[0,1],[1,1]]".to_vec());
}

#[test]
fn test_consistency_report() {
    let mut ring = Ring::new();
    ring.n_colours = 2;
    ring.n_beads = 4;
    ring.allowed_xforms = AllowedTransformFamiles::Rotate;
    ring.limit_repeats = true;
    ring.max_repeats = 2;
    ring.recompute_perms();
    // a matching result set raises nothing
    assert!(ring.consistency_report().is_none());
    // an inconsistent count is reported with both sizes and one row per
    // rotation step
    let actual = ring.permutations.len() as u64;
    ring.perm_count += 1;
    let report = ring.consistency_report().expect("mismatch must be reported");
    assert_eq!(report.expected, actual + 1);
    assert_eq!(report.actual, actual);
    assert_eq!(report.rotation_rows.len(), 3);
    for (k, row) in report.rotation_rows.iter().enumerate() {
        assert_eq!(row.step, k as u64 + 1);
    }
}

#[test]
fn test_gcd_values() {
    assert_eq!(burnside::ring::gcd(6, 4), 2);
    assert_eq!(burnside::ring::gcd(9, 3), 3);
    assert_eq!(burnside::ring::gcd(7, 5), 1);
    assert_eq!(burnside::ring::gcd(8, 8), 8);
}

#[test]
fn test_ring_internal_consistency() {
    for family in [
        AllowedTransformFamiles::NoTransforms,
        AllowedTransformFamiles::Rotate,
        AllowedTransformFamiles::RotateAndFlip,
    ] {
        let mut ring = Ring::new();
        ring.n_colours = 4;
        ring.n_beads = 6;
        ring.allowed_xforms = family;
        assert!(ring.internal_consistency_error().is_none());
        ring.limit_repeats = true;
        ring.max_repeats = 3;
        assert!(ring.internal_consistency_error().is_none());
    }
}
