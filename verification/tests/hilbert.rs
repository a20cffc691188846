use cost::hilbert_curve::bit_detangle;
use cost::hilbert_curve::bit_entangle;
use cost::hilbert_curve::BytewiseHilbert;
use cost::orientation::unwalk_bits;
use cost::orientation::walk_bits;
use cost::orientation::Orientation;

/// The textbook walk: one step per level, turning the coordinates.
fn textbook_index(mut x: u64, mut y: u64) -> u64 {
    let mut d: u64 = 0;
    let mut s: u64 = 1 << 31;
    while s > 0 {
        let rx: u64 = if x & s > 0 { 1 } else { 0 };
        let ry: u64 = if y & s > 0 { 1 } else { 0 };
        d = d.wrapping_add(s.wrapping_mul(s).wrapping_mul((3 * rx) ^ ry));
        x &= s - 1;
        y &= s - 1;
        if ry == 0 {
            if rx == 1 {
                x = s - 1 - x;
                y = s - 1 - y;
            }
            std::mem::swap(&mut x, &mut y);
        }
        s /= 2;
    }
    d
}

fn samples() -> Vec<(u32, u32)> {
    let mut out: Vec<(u32, u32)> = vec![
        (0, 0),
        (1, 0),
        (0, 1),
        (1, 1),
        (2, 3),
        (255, 256),
        (65535, 65536),
        (0x00ff_ffff, 0x0100_0000),
        (u32::MAX, 0),
        (0, u32::MAX),
        (u32::MAX, u32::MAX),
        (0x8000_0000, 0x7fff_ffff),
    ];
    let mut state: u64 = 0x2545_f491_4f6c_dd1d;
    for _ in 0..2000 {
        state = state.wrapping_mul(6364136223846793005).wrapping_add(1442695040888963407);
        let x = (state >> 32) as u32;
        state = state.wrapping_mul(6364136223846793005).wrapping_add(1442695040888963407);
        let y = (state >> 32) as u32;
        out.push((x, y));
    }
    out
}

#[test]
fn entangle_smoke() {
    let hilbert = BytewiseHilbert::new();
    assert_eq!(hilbert.entangle((0, 0)), 0);
    assert_eq!(hilbert.entangle((1, 0)), 1);
    assert_eq!(hilbert.entangle((1, 1)), 2);
    assert_eq!(hilbert.entangle((0, 1)), 3);
}

#[test]
fn bit_entangle_smoke() {
    assert_eq!(bit_entangle(0, 0), 0);
    assert_eq!(bit_entangle(1, 0), 1);
    assert_eq!(bit_entangle(1, 1), 2);
    assert_eq!(bit_entangle(0, 1), 3);
}

#[test]
fn entangle_second_level() {
    let hilbert = BytewiseHilbert::new();
    // the second quarter of the curve of order two, walked upright
    assert_eq!(hilbert.entangle((0, 2)), 4);
    assert_eq!(hilbert.entangle((0, 3)), 5);
    assert_eq!(hilbert.entangle((1, 3)), 6);
    assert_eq!(hilbert.entangle((1, 2)), 7);
    assert_eq!(hilbert.entangle((2, 2)), 8);
    assert_eq!(hilbert.entangle((3, 0)), 15);
}

#[test]
fn entangle_ends_in_the_far_corner_of_x() {
    let hilbert = BytewiseHilbert::new();
    assert_eq!(hilbert.entangle((u32::MAX, 0)), u64::MAX);
    assert_eq!(hilbert.detangle(u64::MAX), (u32::MAX, 0));
}

#[test]
fn entangle_agrees_with_textbook_walk() {
    let hilbert = BytewiseHilbert::new();
    for (x, y) in samples() {
        let expected = textbook_index(x as u64, y as u64);
        assert_eq!(hilbert.entangle((x, y)), expected);
        assert_eq!(bit_entangle(x, y), expected);
    }
}

#[test]
fn detangle_inverts_entangle() {
    let hilbert = BytewiseHilbert::new();
    for (x, y) in samples() {
        let z = hilbert.entangle((x, y));
        assert_eq!(hilbert.detangle(z), (x, y));
        assert_eq!(bit_detangle(z), (x, y));
    }
}

#[test]
fn entangle_inverts_detangle() {
    let hilbert = BytewiseHilbert::new();
    for (a, b) in samples() {
        let z = ((a as u64) << 32) | b as u64;
        let (x, y) = hilbert.detangle(z);
        assert_eq!(hilbert.entangle((x, y)), z);
    }
}

#[test]
fn upper_half_of_index_is_index_of_tile() {
    let hilbert = BytewiseHilbert::new();
    for (x, y) in samples() {
        let z = hilbert.entangle((x, y));
        let tile = hilbert.tile((x >> 16) as u16, (y >> 16) as u16);
        assert_eq!((z >> 32) as u32, tile);
    }
}

#[test]
fn tile_index_smoke() {
    let hilbert = BytewiseHilbert::new();
    assert_eq!(hilbert.tile(0, 0), 0);
    assert_eq!(hilbert.tile(1, 0), 1);
    assert_eq!(hilbert.tile(1, 1), 2);
    assert_eq!(hilbert.tile(0, 1), 3);
    assert_eq!(hilbert.tile(u16::MAX, 0), u32::MAX);
}

#[test]
fn walk_of_one_level_in_each_orientation() {
    let upright = Orientation { swap: false, flip: false };
    let swapped = Orientation { swap: true, flip: false };
    let flipped = Orientation { swap: false, flip: true };
    assert_eq!(walk_bits(upright, 1, 0, 1).0, 1);
    assert_eq!(walk_bits(upright, 1, 1, 0).0, 3);
    assert_eq!(walk_bits(swapped, 1, 1, 0).0, 1);
    assert_eq!(walk_bits(swapped, 1, 0, 1).0, 3);
    assert_eq!(walk_bits(flipped, 1, 1, 1).0, 0);
    assert_eq!(walk_bits(flipped, 1, 0, 0).0, 2);
    assert_eq!(unwalk_bits(swapped, 1, 1).0, (1, 0));
    assert_eq!(unwalk_bits(flipped, 1, 0).0, (1, 1));
}

#[test]
fn orientation_codes_round_trip() {
    for c in 0u8..4 {
        assert_eq!(Orientation::from_code(c).code(), c);
    }
    assert_eq!(Orientation::start().code(), 0);
}
