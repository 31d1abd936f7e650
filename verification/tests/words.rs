use binvec::borrow::BitBuffer;

#[test]
fn word_widths() {
    assert_eq!(u8::width(), 8);
    assert_eq!(u16::width(), 16);
    assert_eq!(u32::width(), 32);
    assert_eq!(u64::width(), 64);
    assert_eq!(u128::width(), 128);
    assert_eq!(usize::width(), usize::BITS as usize);
    assert_eq!(i8::width(), 8);
    assert_eq!(i16::width(), 16);
    assert_eq!(i32::width(), 32);
    assert_eq!(i64::width(), 64);
    assert_eq!(i128::width(), 128);
    assert_eq!(isize::width(), isize::BITS as usize);
    assert_eq!(<[u8; 3]>::width(), 24);
    assert_eq!(<[[u16; 2]; 2]>::width(), 64);
}

#[test]
fn word_zero_is_clear() {
    assert_eq!(u32::zero(), 0);
    assert_eq!(i64::zero(), 0);
    assert_eq!(<[u8; 4]>::zero(), [0u8; 4]);
}

#[test]
fn unsigned_set_and_get_bit() {
    let mut x: u8 = 0;
    x.set_bit(0, true);
    x.set_bit(2, true);
    assert_eq!(x, 0b101);
    assert!(x.get_bit(0));
    assert!(!x.get_bit(1));
    assert!(x.get_bit(2));
    x.set_bit(0, false);
    assert_eq!(x, 0b100);
    x.set_bit(2, true);
    assert_eq!(x, 0b100);

    let mut y: u128 = 0;
    y.set_bit(127, true);
    assert_eq!(y, 1u128 << 127);
    assert!(y.get_bit(127));
    assert!(!y.get_bit(126));

    let mut z: usize = usize::MAX;
    z.set_bit(5, false);
    assert_eq!(z, usize::MAX ^ (1 << 5));
    assert!(!z.get_bit(5));
    assert!(z.get_bit(4));
}

#[test]
fn signed_set_and_get_bit() {
    let mut x: i8 = 0;
    x.set_bit(7, true);
    assert_eq!(x, -128);
    assert!(x.get_bit(7));
    x.set_bit(0, true);
    assert_eq!(x, -127);
    let mut y: i32 = -1;
    y.set_bit(31, false);
    assert_eq!(y, i32::MAX);
    assert!(!y.get_bit(31));
    assert!(y.get_bit(30));
    let mut z: isize = 0;
    z.set_bit(3, true);
    assert_eq!(z, 8);
    let mut w: i16 = 0;
    w.set_bit(15, true);
    assert_eq!(w, i16::MIN);
    let mut v: i64 = 0;
    v.set_bit(1, true);
    assert!(v.get_bit(1));
    let mut u: i128 = 0;
    u.set_bit(127, true);
    assert_eq!(u, i128::MIN);
}

#[test]
fn array_set_and_get_bit() {
    let mut a: [u8; 2] = [0, 0];
    a.set_bit(9, true);
    assert_eq!(a, [0, 2]);
    assert!(a.get_bit(9));
    assert!(!a.get_bit(1));
    a.set_bit(0, true);
    assert_eq!(a, [1, 2]);
    a.set_bit(9, false);
    assert_eq!(a, [1, 0]);

    let mut b: [[u8; 2]; 2] = [[0, 0], [0, 0]];
    b.set_bit(17, true);
    assert_eq!(b, [[0, 0], [2, 0]]);
    assert!(b.get_bit(17));
}
