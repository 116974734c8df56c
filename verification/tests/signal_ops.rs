use logic_sim::ConnectionValues;

fn all_widths() -> Vec<ConnectionValues> {
    vec![
        ConnectionValues::Single(false),
        ConnectionValues::HalfByte(false, false, false, false),
        ConnectionValues::Byte(0),
        ConnectionValues::X16(0),
        ConnectionValues::X32(0),
        ConnectionValues::X64(0),
        ConnectionValues::X128(0),
        ConnectionValues::X256(0, 0),
    ]
}

#[test]
fn len_constants_and_out_of_bounds_get() {
    let expected: Vec<usize> = vec![1, 4, 8, 16, 32, 64, 128, 256];
    for (v, e) in all_widths().into_iter().zip(expected) {
        assert_eq!(v.len(), e);
        assert_eq!(v.get_by_index(v.len()), false);
        assert_eq!(v.get_by_index(usize::MAX), false);
    }
}

#[test]
fn set_then_get_round_trip_all_widths() {
    for v0 in all_widths() {
        for i in 0..v0.len() {
            let mut v = v0;
            v.set_by_index(i, true);
            assert_eq!(v.get_by_index(i), true);
            // every other index is untouched
            for j in 0..v.len() {
                if j != i {
                    assert_eq!(v.get_by_index(j), v0.get_by_index(j));
                }
            }
            v.set_by_index(i, false);
            assert_eq!(v.get_by_index(i), false);
            assert_eq!(v, v0);
        }
    }
}

#[test]
fn set_out_of_bounds_is_a_no_op() {
    for v0 in all_widths() {
        let mut v = v0;
        v.set_by_index(v.len(), true);
        assert_eq!(v, v0);
        v.set_by_index(usize::MAX, true);
        assert_eq!(v, v0);
    }
}

#[test]
fn set_by_index_exact_values() {
    let mut v = ConnectionValues::Byte(0b1000_0101);
    v.set_by_index(1, true);
    assert_eq!(v, ConnectionValues::Byte(0b1000_0111));
    v.set_by_index(7, false);
    assert_eq!(v, ConnectionValues::Byte(0b0000_0111));

    let mut w = ConnectionValues::X256(0, 0);
    w.set_by_index(130, true);
    assert_eq!(w, ConnectionValues::X256(0, 0b100));
    w.set_by_index(1, true);
    assert_eq!(w, ConnectionValues::X256(0b10, 0b100));
}

#[test]
fn merge_same_width_is_elementwise_or() {
    let a = ConnectionValues::Byte(0b0011_0101);
    let b = ConnectionValues::Byte(0b1010_0110);
    assert_eq!(a.merge(b), ConnectionValues::Byte(0b1011_0111));

    let c = ConnectionValues::HalfByte(true, false, true, false);
    let d = ConnectionValues::HalfByte(false, false, true, true);
    assert_eq!(c.merge(d), ConnectionValues::HalfByte(true, false, true, true));

    let e = ConnectionValues::X256(1, 2);
    let f = ConnectionValues::X256(4, 8);
    assert_eq!(e.merge(f), ConnectionValues::X256(5, 10));
}

#[test]
fn merge_mixed_width_zero_extends_the_narrow_operand() {
    // the narrow operand is read as zero-extended, whichever side it is on
    let narrow = ConnectionValues::Byte(0x0F);
    let wide = ConnectionValues::X16(0xF0F0);
    assert_eq!(narrow.merge(wide), ConnectionValues::X16(0xF0FF));
    assert_eq!(wide.merge(narrow), ConnectionValues::X16(0xF0FF));

    let single = ConnectionValues::Single(true);
    let half = ConnectionValues::HalfByte(false, true, false, false);
    assert_eq!(single.merge(half), ConnectionValues::HalfByte(true, true, false, false));

    let x64 = ConnectionValues::X64(0xFF00);
    let x256 = ConnectionValues::X256(0x00FF, 0xAA);
    assert_eq!(x64.merge(x256), ConnectionValues::X256(0xFFFF, 0xAA));
}

#[test]
fn merge_result_width_is_the_larger_width() {
    let widths = all_widths();
    for a in &widths {
        for b in &widths {
            let r = a.merge(*b);
            assert_eq!(r.len(), a.len().max(b.len()));
        }
    }
}

#[test]
fn merge_is_idempotent_on_identical_operands() {
    let samples = vec![
        ConnectionValues::Single(true),
        ConnectionValues::HalfByte(true, false, false, true),
        ConnectionValues::Byte(0xA5),
        ConnectionValues::X16(0x9685),
        ConnectionValues::X32(0xDEAD_BEEF),
        ConnectionValues::X64(0x0123_4567_89AB_CDEF),
        ConnectionValues::X128(u128::MAX - 12345),
        ConnectionValues::X256(7, u128::MAX),
    ];
    for v in samples {
        assert_eq!(v.merge(v), v);
    }
}

#[test]
fn merge_seed_reproduces_the_other_operand() {
    // the propagator's fold seed is a one-bit false value
    let seed = ConnectionValues::Single(false);
    let samples = vec![
        ConnectionValues::Single(true),
        ConnectionValues::Single(false),
        ConnectionValues::HalfByte(false, true, false, true),
        ConnectionValues::Byte(0x85),
        ConnectionValues::X16(0x9685),
        ConnectionValues::X32(0),
        ConnectionValues::X64(u64::MAX),
        ConnectionValues::X128(1 << 127),
        ConnectionValues::X256(u128::MAX, 1),
    ];
    for v in samples {
        assert_eq!(seed.merge(v), v);
    }
}
