use clifford::{cga, vga, Clifford};

#[test]
fn injective_bit_to_blade() {
    let c = cga(8);
    let mut range: Vec<Option<usize>> = vec![None; c.size()];
    for i in 0..c.size() {
        let j = c.bit_to_blade(i);
        assert_eq!(None, range[j]);
        range[j] = Some(i);
    }
}

#[test]
fn injective_blade_to_bit() {
    let c = cga(8);
    let mut range: Vec<Option<usize>> = vec![None; c.size()];
    for i in 0..c.size() {
        let j = c.blade_to_bit(i);
        assert_eq!(None, range[j]);
        range[j] = Some(i);
    }
}

#[test]
fn bijective() {
    let c = cga(8);
    for i in 0..c.size() {
        assert_eq!(i, c.blade_to_bit(c.bit_to_blade(i)));
    }
}

#[test]
fn round_trips_for_small_dimensions() {
    for d in 0..=8 {
        let c = vga(d);
        assert_eq!(c.size(), 1 << d);
        for x in 0..c.size() {
            let y = c.bit_to_blade(x);
            assert!(y < c.size());
            assert_eq!(c.blade_to_bit(y), x);
            assert_eq!(c.bit_to_blade(c.blade_to_bit(x)), x);
        }
    }
}

#[test]
fn slot_order_in_three_dimensions() {
    let c = vga(3);
    let masks: Vec<usize> = (0..c.size()).map(|y| c.blade_to_bit(y)).collect();
    assert_eq!(masks, vec![0, 1, 2, 4, 3, 5, 6, 7]);
    assert_eq!(c.bit_to_blade(6), 6);
    assert_eq!(c.bit_to_blade(4), 3);
    assert_eq!(c.bit_to_blade(3), 4);
}

#[test]
fn dimension_zero_has_only_the_scalar() {
    let c = vga(0);
    assert_eq!(c.dim(), 0);
    assert_eq!(c.size(), 1);
    assert_eq!(c.bit_to_blade(0), 0);
    assert_eq!(c.blade_to_bit(0), 0);
}

#[test]
fn grade_sizes_in_three_dimensions() {
    let c = vga(3);
    assert_eq!(c.grade_len(0), 1);
    assert_eq!(c.grade_len(1), 3);
    assert_eq!(c.grade_len(2), 3);
    assert_eq!(c.grade_len(3), 1);
    assert_eq!(c.grade_len(4), 0);
    assert_eq!(c.grade_offset(0), 0);
    assert_eq!(c.grade_offset(1), 1);
    assert_eq!(c.grade_offset(2), 4);
    assert_eq!(c.grade_offset(3), 7);
    assert_eq!(c.grade_offset(4), 8);
    assert_eq!(c.grade_offset(9), 8);
    let total: usize = (0..=3).map(|g| c.grade_len(g)).sum();
    assert_eq!(total, c.size());
}

#[test]
fn grade_offsets_match_the_bijection() {
    let c = cga(5);
    for g in 0..=c.dim() {
        let start = c.grade_offset(g);
        for y in start..start + c.grade_len(g) {
            assert_eq!(c.blade_to_bit(y).count_ones() as usize, g);
        }
    }
    assert_eq!(c.grade_len(3), 20);
    assert_eq!(c.grade_offset(3), 22);
}

#[test]
fn simple_form() {
    let c = cga(1);
    let u = 2;
    let v = 3;
    assert!(c.flip_by_form(u & v))
}

#[test]
fn signature_masks() {
    let sta = clifford::sta();
    assert_eq!(sta.dim(), 4);
    assert_eq!(sta.size(), 16);
    assert_eq!(sta.negative_bits(), 0b1110);
    assert_eq!(sta.zero_bits(), 0);
    let p = clifford::pga(3);
    assert_eq!(p.negative_bits(), 0);
    assert_eq!(p.zero_bits(), 0b1000);
    let c = cga(2);
    assert_eq!(c.negative_bits(), 0b100);
    assert_eq!(c.zero_bits(), 0);
}

#[test]
fn null_and_negative_generators() {
    let p = clifford::pga(3);
    assert!(p.zero_by_form(8));
    assert!(p.zero_by_form(9));
    assert!(!p.zero_by_form(7));
    assert!(!p.flip_by_form(7));
    let sta = clifford::sta();
    assert!(sta.flip_by_form(0b0010));
    assert!(!sta.flip_by_form(0b0110));
    assert!(sta.flip_by_form(0b1111));
    assert!(!sta.flip_by_form(0b0001));
}

#[test]
fn reordering_sign() {
    assert!(!Clifford::flip_by_anticommutativity(1, 2));
    assert!(Clifford::flip_by_anticommutativity(2, 1));
    assert!(Clifford::flip_by_anticommutativity(3, 3));
    assert!(!Clifford::flip_by_anticommutativity(0, 7));
    assert!(!Clifford::flip_by_anticommutativity(4, 3));
    assert!(!Clifford::flip_by_anticommutativity(6, 1));
    assert!(Clifford::flip_by_anticommutativity(4, 1));
}

#[test]
fn signature_bounds() {
    let c = Clifford::new(2, 1, 1).unwrap();
    assert_eq!(c.dim(), 4);
    assert_eq!(c.negative_bits(), 0b0100);
    assert_eq!(c.zero_bits(), 0b1000);
    assert!(Clifford::new(usize::BITS as usize, 0, 0).is_none());
    assert!(Clifford::new(usize::MAX, usize::MAX, 2).is_none());
    assert!(Clifford::new(usize::BITS as usize - 1, 0, 0).is_some());
}
