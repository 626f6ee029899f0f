use burnside::tile::permutation::{Permutation, Transforms};
use burnside::tile::transforms::{AllowedTransformFamiles, GroupElementClass};
use burnside::tile::Tile;

#[test]
fn test_square_rotation() {
    let mut perm = Permutation::new();
    perm.set(0, 0, 2, 1);
    perm.set(1, 0, 2, 2);
    perm.set(0, 1, 2, 3);
    perm.set(1, 1, 2, 4);
    let rot_90 = perm.rotate_90(2, 2);
    let rot_270 = perm.rotate_270(2, 2);
    let identity = rot_90.rotate_270(2, 2);
    assert_eq!(perm, identity);
    let identity = rot_270.rotate_90(2, 2);
    assert_eq!(perm, identity);
    let rot_90_90 = rot_90.rotate_90(2, 2);
    let rot_180 = perm.rotate_180(2, 2);
    assert_eq!(rot_90_90, rot_180);
    let transform = Transforms::new(2, 2, AllowedTransformFamiles::Rotate);
    assert_eq!(
        transform.canonicalize(&perm),
        transform.canonicalize(&rot_180)
    );
    assert_eq!(1, perm.get(0, 0, 2));
    assert_eq!(2, perm.get(1, 0, 2));
    assert_eq!(3, perm.get(0, 1, 2));
    assert_eq!(4, perm.get(1, 1, 2));
}

#[test]
fn test_rect_rotation() {
    let mut perm = Permutation::new();
    perm.set(0, 0, 3, 1);
    perm.set(1, 0, 3, 2);
    perm.set(2, 0, 3, 3);
    perm.set(0, 1, 3, 4);
    perm.set(1, 1, 3, 5);
    perm.set(2, 1, 3, 6);
    let rot_180 = perm.rotate_180(3, 2);
    let identity = rot_180.rotate_180(3, 2);
    assert_eq!(perm, identity);
    assert_eq!(perm.get(0, 0, 3), 1);
    assert_eq!(perm.get(1, 0, 3), 2);
    assert_eq!(perm.get(2, 0, 3), 3);
    assert_eq!(perm.get(0, 1, 3), 4);
    assert_eq!(perm.get(1, 1, 3), 5);
    assert_eq!(perm.get(2, 1, 3), 6);
    let transform = Transforms::new(3, 2, AllowedTransformFamiles::Rotate);
    assert_eq!(
        transform.canonicalize(&perm),
        transform.canonicalize(&rot_180)
    );
}

#[test]
fn test_rot90() {
    assert_eq!(GroupElementClass::Rot90.base_fixed(2, 2), 1);
    assert_eq!(GroupElementClass::Rot90.free(2, 2), 1);
    assert_eq!(GroupElementClass::Rot90.base_fixed(3, 3), 2);
    assert_eq!(GroupElementClass::Rot90.free(3, 3), 3);
    assert_eq!(GroupElementClass::Rot90.base_fixed(4, 4), 4);
    assert_eq!(GroupElementClass::Rot90.free(4, 4), 4);
    assert_eq!(GroupElementClass::Rot90.base_fixed(5, 5), 6);
    assert_eq!(GroupElementClass::Rot90.free(5, 5), 7);
}

#[test]
fn test_rot180() {
    assert_eq!(GroupElementClass::Rot180.base_fixed(2, 2), 2);
    assert_eq!(GroupElementClass::Rot180.free(2, 2), 2);
    assert_eq!(GroupElementClass::Rot180.base_fixed(3, 2), 3);
    assert_eq!(GroupElementClass::Rot180.free(3, 2), 3);
    assert_eq!(GroupElementClass::Rot180.base_fixed(2, 3), 3);
    assert_eq!(GroupElementClass::Rot180.free(3, 2), 3);
    assert_eq!(GroupElementClass::Rot180.base_fixed(3, 3), 4);
    assert_eq!(GroupElementClass::Rot180.free(3, 3), 5);
    assert_eq!(GroupElementClass::Rot180.base_fixed(4, 4), 8);
    assert_eq!(GroupElementClass::Rot180.free(4, 4), 8);
}

#[test]
fn test_hflip() {
    assert_eq!(GroupElementClass::HFlip.base_fixed(2, 2), 2);
    assert_eq!(GroupElementClass::HFlip.free(2, 2), 2);
    assert_eq!(GroupElementClass::HFlip.base_fixed(3, 2), 2);
    assert_eq!(GroupElementClass::HFlip.free(3, 2), 4);
    assert_eq!(GroupElementClass::HFlip.base_fixed(2, 3), 3);
    assert_eq!(GroupElementClass::HFlip.free(2, 3), 3);
    assert_eq!(GroupElementClass::HFlip.base_fixed(3, 3), 3);
    assert_eq!(GroupElementClass::HFlip.free(3, 3), 6);
    assert_eq!(GroupElementClass::HFlip.base_fixed(4, 4), 8);
    assert_eq!(GroupElementClass::HFlip.free(4, 4), 8);
}

#[test]
fn test_vflip() {
    assert_eq!(GroupElementClass::VFlip.base_fixed(2, 2), 2);
    assert_eq!(GroupElementClass::VFlip.free(2, 2), 2);
    assert_eq!(GroupElementClass::VFlip.base_fixed(3, 2), 3);
    assert_eq!(GroupElementClass::VFlip.free(3, 2), 3);
    assert_eq!(GroupElementClass::VFlip.base_fixed(2, 3), 2);
    assert_eq!(GroupElementClass::VFlip.free(2, 3), 4);
    assert_eq!(GroupElementClass::VFlip.base_fixed(3, 3), 3);
    assert_eq!(GroupElementClass::VFlip.free(3, 3), 6);
    assert_eq!(GroupElementClass::VFlip.base_fixed(4, 4), 8);
    assert_eq!(GroupElementClass::VFlip.free(4, 4), 8);
}

#[test]
fn test_dflip() {
    assert_eq!(GroupElementClass::DFlip.base_fixed(2, 2), 1);
    assert_eq!(GroupElementClass::DFlip.free(2, 2), 3);
    assert_eq!(GroupElementClass::DFlip.base_fixed(3, 3), 3);
    assert_eq!(GroupElementClass::DFlip.free(3, 3), 6);
    assert_eq!(GroupElementClass::DFlip.base_fixed(4, 4), 6);
    assert_eq!(GroupElementClass::DFlip.free(4, 4), 10);
}

#[test]
fn test_tile_recompute_two_by_two() {
    // 2x2 tile, three colours, rotations: (81 + 3 + 9 + 3) / 4 = 24
    let mut tile = Tile::new();
    tile.recompute_perms();
    assert_eq!(tile.perm_count, 24);
    assert_eq!(tile.permutations.len(), 24);
}

#[test]
fn test_tile_canonicalize_laws() {
    let transforms = Transforms::new(3, 3, AllowedTransformFamiles::RotateAndFlip);
    let mut perm = Permutation::new();
    for (i, v) in [1u8, 0, 2, 0, 1, 1, 2, 0, 0].iter().enumerate() {
        perm.set(i % 3, i / 3, 3, *v);
    }
    let canonical = transforms.canonicalize(&perm);
    // idempotent
    assert_eq!(transforms.canonicalize(&canonical), canonical);
    // orbit invariant over every symmetry of the square
    let images = [
        perm.rotate_90(3, 3),
        perm.rotate_180(3, 3),
        perm.rotate_270(3, 3),
        perm.hflip(3, 3),
        perm.vflip(3, 3),
        perm.dflip1(3, 3),
        perm.dflip2(3, 3),
    ];
    for image in images.iter() {
        assert_eq!(transforms.canonicalize(image), canonical);
    }
    // round trip from the emitted representative
    assert_eq!(transforms.canonicalize(&canonical.rotate_90(3, 3)), canonical);
}

#[test]
fn test_tile_export_json_bytes() {
    let mut tile = Tile::new();
    tile.n_colours = 2;
    tile.width = 1;
    tile.height = 2;
    tile.allowed_xforms = AllowedTransformFamiles::NoTransforms;
    tile.recompute_perms();
    assert_eq!(tile.perm_count, 4);
    let bytes = tile.export_json();
    assert_eq!(bytes, b"[[[0],[0]],[[0],[1]],[[1],[0]],[[1],[1]]]".to_vec());
}

#[test]
fn test_tile_too_many_clears_results() {
    let mut tile = Tile::new();
    tile.n_colours = 8;
    tile.width = 8;
    tile.height = 2;
    tile.allowed_xforms = AllowedTransformFamiles::NoTransforms;
    tile.recompute_perms();
    assert!(tile.perm_count > 10000);
    assert!(tile.permutations.is_empty());
}

#[test]
fn test_tile_consistency_checks() {
    let mut tile = Tile::new();
    tile.recompute_perms();
    assert!(tile.internal_consistency_error().is_none());
    assert!(tile.size_mismatch().is_none());
    tile.perm_count += 1;
    let (expected, actual) = tile.size_mismatch().expect("mismatch must be reported");
    assert_eq!(expected, 25);
    assert_eq!(actual, 24);
}
