use cost::hilbert_curve::{bit_detangle, bit_entangle, BytewiseCached, BytewiseHilbert};

fn sample() -> Vec<(u32, u32)> {
    let bytes: [u32; 6] = [0, 1, 0x0F, 0x80, 0xF0, 0xFF];
    let mut points = Vec::new();
    for &a in bytes.iter() {
        for &b in bytes.iter() {
            for shift in [0u32, 8, 16, 24] {
                points.push((a << shift, b << (24 - shift)));
                points.push(((a << shift) | b, (b << shift) | (a << 24)));
            }
        }
    }
    points
}

#[test]
fn bit_serial_round_trip() {
    for (x, y) in sample() {
        let t = bit_entangle((x, y));
        assert_eq!(bit_detangle(t), (x, y));
        assert_eq!(bit_entangle(bit_detangle(t)), t);
    }
}

#[test]
fn bytewise_agrees_with_bit_serial() {
    let hilbert = BytewiseHilbert::new();
    for (x, y) in sample() {
        let t = hilbert.entangle((x, y));
        assert_eq!(t, bit_entangle((x, y)));
        assert_eq!(hilbert.detangle(t), (x, y));
        assert_eq!(hilbert.entangle(hilbert.detangle(t)), t);
    }
}

#[test]
fn first_indices_of_the_curve() {
    assert_eq!(bit_entangle((0, 0)), 0);
    assert_eq!(bit_entangle((1, 0)), 1);
    assert_eq!(bit_entangle((1, 1)), 2);
    assert_eq!(bit_entangle((0, 1)), 3);
    assert_eq!(bit_detangle(4), (0, 2));
    assert_eq!(bit_detangle(255), (15, 0));
}

#[test]
fn cached_detangle_agrees_with_fresh_detangle() {
    let hilbert = BytewiseHilbert::new();
    let mut cached = BytewiseCached::new();
    for (x, y) in sample() {
        let t = hilbert.entangle((x, y));
        let base = t & !0xFFFF;
        for low in [0u64, 1, 2, 255, 256, 0x1234, 0xFFFF] {
            assert_eq!(cached.detangle(base + low), hilbert.detangle(base + low));
        }
        assert_eq!(cached.detangle(t), (x, y));
    }
}
