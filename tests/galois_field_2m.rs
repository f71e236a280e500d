use rs_codec::galois_field_2m::GaloisField2m as Gf2m;
use rs_codec::util::galois_field_2m::GaloisField2m;

type Gf256 = GaloisField2m<0b100011101>;
type Gf16 = GaloisField2m<0b10011>;

#[test]
fn galois_field_2m_add() {
    let tests = [
        (
            Gf2m::<0b100011101>::new(0b11).unwrap(),
            Gf2m::<0b100011101>::new(0b111).unwrap(),
        ),
        (
            Gf2m::<0b100011101>::new(0b11001).unwrap(),
            Gf2m::<0b100011101>::new(0b10111).unwrap(),
        ),
        (
            Gf2m::<0b100011101>::new(0b10000).unwrap(),
            Gf2m::<0b100011101>::new(0b100000).unwrap(),
        ),
    ];
    let res = [
        Gf2m::<0b100011101>::new(0b100).unwrap(),
        Gf2m::<0b100011101>::new(0b1110).unwrap(),
        Gf2m::<0b100011101>::new(0b110000).unwrap(),
    ];

    for ((x, y), r) in tests.into_iter().zip(res) {
        assert_eq!(x + y, r);
    }
}

#[test]
fn add() {
    let tests = [
        (
            GaloisField2m::<0b100011101>::new(0b11).unwrap(),
            GaloisField2m::<0b100011101>::new(0b111).unwrap(),
        ),
        (
            GaloisField2m::<0b100011101>::new(0b11001).unwrap(),
            GaloisField2m::<0b100011101>::new(0b10111).unwrap(),
        ),
        (
            GaloisField2m::<0b100011101>::new(0b10000).unwrap(),
            GaloisField2m::<0b100011101>::new(0b100000).unwrap(),
        ),
    ];
    let res = [
        GaloisField2m::<0b100011101>::new(0b100).unwrap(),
        GaloisField2m::<0b100011101>::new(0b1110).unwrap(),
        GaloisField2m::<0b100011101>::new(0b110000).unwrap(),
    ];

    for ((x, y), r) in tests.into_iter().zip(res) {
        assert_eq!(x + y, r);
    }
}

#[test]
fn xtime() {
    let tests = [
        (
            GaloisField2m::<0b100011101>::new(0b1000110).unwrap(),
            GaloisField2m::<0b100011101>::new(0b10).unwrap(),
        ),
        (
            GaloisField2m::<0b100011101>::new(0b1111).unwrap(),
            GaloisField2m::<0b100011101>::new(0b10).unwrap(),
        ),
        (
            GaloisField2m::<0b100011101>::new(0b110011).unwrap(),
            GaloisField2m::<0b100011101>::new(0b10).unwrap(),
        ),
    ];
    let res = [
        GaloisField2m::<0b100011101>::new(0b10001100).unwrap(),
        GaloisField2m::<0b100011101>::new(0b11110).unwrap(),
        GaloisField2m::<0b100011101>::new(0b1100110).unwrap(),
    ];

    for ((x, y), r) in tests.into_iter().zip(res) {
        assert_eq!(x * y, r);
    }
}

#[test]
fn mul() {
    let tests = [
        (
            GaloisField2m::<0b100011101>::new(0b111111).unwrap(),
            GaloisField2m::<0b100011101>::new(0b110101).unwrap(),
        ),
        (
            GaloisField2m::<0b100011101>::new(0b11101000).unwrap(),
            GaloisField2m::<0b100011101>::new(0b10010110).unwrap(),
        ),
        (
            GaloisField2m::<0b100011101>::new(0b10110).unwrap(),
            GaloisField2m::<0b100011101>::new(0b11110).unwrap(),
        ),
    ];
    let res = [
        GaloisField2m::<0b100011101>::new(0b10100111).unwrap(),
        GaloisField2m::<0b100011101>::new(0b1000001).unwrap(),
        GaloisField2m::<0b100011101>::new(0b10111001).unwrap(),
    ];

    for ((x, y), r) in tests.into_iter().zip(res) {
        assert_eq!(x * y, r);
    }
}

#[test]
fn div() {
    let tests = [
        (
            GaloisField2m::<0b100011101>::new(0b0).unwrap(),
            GaloisField2m::<0b100011101>::new(0b110101).unwrap(),
        ),
        (
            GaloisField2m::<0b100011101>::new(0b1).unwrap(),
            GaloisField2m::<0b100011101>::new(0b110101).unwrap(),
        ),
        (
            GaloisField2m::<0b100011101>::new(0b111111).unwrap(),
            GaloisField2m::<0b100011101>::new(0b110101).unwrap(),
        ),
        (
            GaloisField2m::<0b100011101>::new(0b11101000).unwrap(),
            GaloisField2m::<0b100011101>::new(0b10010110).unwrap(),
        ),
        (
            GaloisField2m::<0b100011101>::new(0b10110).unwrap(),
            GaloisField2m::<0b100011101>::new(0b11110).unwrap(),
        ),
    ];
    let res = [
        GaloisField2m::<0b100011101>::new(0b0).unwrap(),
        GaloisField2m::<0b100011101>::new(0b11000011).unwrap(),
        GaloisField2m::<0b100011101>::new(0b11001100).unwrap(),
        GaloisField2m::<0b100011101>::new(0b10110001).unwrap(),
        GaloisField2m::<0b100011101>::new(0b1100011).unwrap(),
    ];

    for ((x, y), r) in tests.into_iter().zip(res) {
        assert_eq!(x / y, r);
    }
}

#[test]
fn new_rejects_values_of_too_high_degree() {
    assert!(Gf16::new(0b1111).is_ok());
    assert!(Gf16::new(0b10000).is_err());
    assert!(Gf16::new(0b10011).is_err());
    assert!(Gf256::new(0xff).is_ok());
    assert!(Gf256::new(0x100).is_err());
    assert!(GaloisField2m::<0>::new(0).is_err());
}

#[test]
fn identities_and_generator() {
    assert_eq!(Gf16::zero().value(), 0);
    assert_eq!(Gf16::one().value(), 1);
    assert_eq!(Gf16::primitive_element().value(), 2);
    assert_eq!(Gf16::size(), 16);
    assert_eq!(Gf256::size(), 256);
}

#[test]
fn every_nonzero_element_times_its_inverse_is_one() {
    for v in 1..16u16 {
        let a = Gf16::new(v).unwrap();
        let mut b = a;
        b.inv();
        assert_eq!(a * b, Gf16::one());
    }
    for v in 1..256u16 {
        let a = Gf256::new(v).unwrap();
        let mut b = a;
        b.inv();
        assert_eq!(a * b, Gf256::one());
    }
}

#[test]
fn addition_is_self_inverse() {
    for v in 0..16u16 {
        let a = Gf16::new(v).unwrap();
        assert_eq!(a + a, Gf16::zero());
    }
}

#[test]
fn multiplication_distributes_over_addition() {
    for a in 0..16u16 {
        for b in 0..16u16 {
            for c in [0u16, 1, 7, 9, 15] {
                let (a, b, c) = (
                    Gf16::new(a).unwrap(),
                    Gf16::new(b).unwrap(),
                    Gf16::new(c).unwrap(),
                );
                assert_eq!(a * (b + c), a * b + a * c);
            }
        }
    }
}

#[test]
fn division_is_multiplication_by_inverse() {
    let a = Gf256::new(0b11101000).unwrap();
    let b = Gf256::new(0b10010110).unwrap();
    let mut b_inv = b;
    b_inv.inv();
    assert_eq!(a / b, a * b_inv);
    // x^4 + x + 1: x * x^3 = x + 1
    let x = Gf16::primitive_element();
    let x3 = Gf16::new(0b1000).unwrap();
    assert_eq!((x * x3).value(), 0b11);
    assert_eq!((Gf16::new(0b11).unwrap() / x).value(), 0b1000);
}

#[test]
fn in_place_operations() {
    let mut a = Gf16::new(0b0110).unwrap();
    a.add(Gf16::new(0b0011).unwrap());
    assert_eq!(a.value(), 0b0101);
    a.mul(Gf16::new(0b0010).unwrap());
    assert_eq!(a.value(), 0b1010);
    a.div(Gf16::new(0b0010).unwrap());
    assert_eq!(a.value(), 0b0101);
}

#[test]
fn default_is_zero() {
    assert_eq!(Gf16::default(), Gf16::zero());
    assert_eq!(Gf256::default().value(), 0);
}
