use babyjubjub::{Babyjubjub, CurveError, Point};
use num_bigint::BigInt;
use num_bigint::ToBigInt;

#[test]
fn test_add_same_point() {
    let p: Point = Point {
        x: BigInt::parse_bytes(
            b"17777552123799933955779906779655732241715742912184938656739573121738514868268",
            10,
        )
        .unwrap(),
        y: BigInt::parse_bytes(
            b"2626589144620713026669568689430873010625803728049924121243784502389097019475",
            10,
        )
        .unwrap(),
    };
    let q: Point = Point {
        x: BigInt::parse_bytes(
            b"17777552123799933955779906779655732241715742912184938656739573121738514868268",
            10,
        )
        .unwrap(),
        y: BigInt::parse_bytes(
            b"2626589144620713026669568689430873010625803728049924121243784502389097019475",
            10,
        )
        .unwrap(),
    };
    let bbj = Babyjubjub::new();
    let res = bbj.add(&p, &q).unwrap();
    assert_eq!(
        res.x.to_string(),
        "6890855772600357754907169075114257697580319025794532037257385534741338397365"
    );
    assert_eq!(
        res.y.to_string(),
        "4338620300185947561074059802482547481416142213883829469920100239455078257889"
    );
}

#[test]
fn test_add_different_points() {
    let p: Point = Point {
        x: BigInt::parse_bytes(
            b"17777552123799933955779906779655732241715742912184938656739573121738514868268",
            10,
        )
        .unwrap(),
        y: BigInt::parse_bytes(
            b"2626589144620713026669568689430873010625803728049924121243784502389097019475",
            10,
        )
        .unwrap(),
    };
    let q: Point = Point {
        x: BigInt::parse_bytes(
            b"16540640123574156134436876038791482806971768689494387082833631921987005038935",
            10,
        )
        .unwrap(),
        y: BigInt::parse_bytes(
            b"20819045374670962167435360035096875258406992893633759881276124905556507972311",
            10,
        )
        .unwrap(),
    };
    let bbj = Babyjubjub::new();
    let res = bbj.add(&p, &q).unwrap();
    assert_eq!(
        res.x.to_string(),
        "7916061937171219682591368294088513039687205273691143098332585753343424131937"
    );
    assert_eq!(
        res.y.to_string(),
        "14035240266687799601661095864649209771790948434046947201833777492504781204499"
    );
}

#[test]
fn test_mul_scalar() {
    let p: Point = Point {
        x: BigInt::parse_bytes(
            b"17777552123799933955779906779655732241715742912184938656739573121738514868268",
            10,
        )
        .unwrap(),
        y: BigInt::parse_bytes(
            b"2626589144620713026669568689430873010625803728049924121243784502389097019475",
            10,
        )
        .unwrap(),
    };
    let bbj = Babyjubjub::new();
    let res_m = bbj.mul_scalar(p.clone(), 3.to_bigint().unwrap()).unwrap();
    let res_a = bbj.add(&p, &p).unwrap();
    let res_a = bbj.add(&res_a, &p).unwrap();
    assert_eq!(res_m.x, res_a.x);
    assert_eq!(
        res_m.x.to_string(),
        "19372461775513343691590086534037741906533799473648040012278229434133483800898"
    );
    assert_eq!(
        res_m.y.to_string(),
        "9458658722007214007257525444427903161243386465067105737478306991484593958249"
    );

    let n = BigInt::parse_bytes(
        b"14035240266687799601661095864649209771790948434046947201833777492504781204499",
        10,
    )
    .unwrap();
    let res2 = bbj.mul_scalar(p.clone(), n).unwrap();
    assert_eq!(
        res2.x.to_string(),
        "17070357974431721403481313912716834497662307308519659060910483826664480189605"
    );
    assert_eq!(
        res2.y.to_string(),
        "4014745322800118607127020275658861516666525056516280575712425373174125159339"
    );
}

#[test]
fn test_modulus_reduces_into_range() {
    let m = BigInt::from(5);
    assert_eq!(babyjubjub::field::modulus(&BigInt::from(12), &m), BigInt::from(2));
    assert_eq!(babyjubjub::field::modulus(&BigInt::from(-7), &m), BigInt::from(3));
    assert_eq!(babyjubjub::field::modulus(&BigInt::from(-10), &m), BigInt::from(0));
    assert_eq!(babyjubjub::field::modulus(&BigInt::from(0), &m), BigInt::from(0));
    assert_eq!(babyjubjub::field::modulus(&BigInt::from(-1), &m), BigInt::from(4));
}

#[test]
fn test_mod_inverse_concrete() {
    let inv = babyjubjub::field::mod_inverse(&BigInt::from(3), &BigInt::from(7)).unwrap();
    assert_eq!(inv, BigInt::from(5));
    assert_eq!((BigInt::from(3) * inv) % BigInt::from(7), BigInt::from(1));
}

#[test]
fn test_mod_inverse_of_zero_fails() {
    assert!(babyjubjub::field::mod_inverse(&BigInt::from(0), &BigInt::from(7)).is_none());
}

#[test]
fn test_mod_inverse_not_coprime_fails() {
    assert!(babyjubjub::field::mod_inverse(&BigInt::from(4), &BigInt::from(8)).is_none());
}

#[test]
fn test_identity_law() {
    let bbj = Babyjubjub::new();
    let p: Point = Point {
        x: BigInt::parse_bytes(
            b"17777552123799933955779906779655732241715742912184938656739573121738514868268",
            10,
        )
        .unwrap(),
        y: BigInt::parse_bytes(
            b"2626589144620713026669568689430873010625803728049924121243784502389097019475",
            10,
        )
        .unwrap(),
    };
    let identity = Point { x: BigInt::from(0), y: BigInt::from(1) };
    let left = bbj.add(&identity, &p).unwrap();
    assert_eq!(left.x, p.x);
    assert_eq!(left.y, p.y);
    let right = bbj.add(&p, &identity).unwrap();
    assert_eq!(right.x, p.x);
    assert_eq!(right.y, p.y);
}

#[test]
fn test_add_commutes() {
    let bbj = Babyjubjub::new();
    let p: Point = Point {
        x: BigInt::parse_bytes(
            b"17777552123799933955779906779655732241715742912184938656739573121738514868268",
            10,
        )
        .unwrap(),
        y: BigInt::parse_bytes(
            b"2626589144620713026669568689430873010625803728049924121243784502389097019475",
            10,
        )
        .unwrap(),
    };
    let q: Point = Point {
        x: BigInt::parse_bytes(
            b"16540640123574156134436876038791482806971768689494387082833631921987005038935",
            10,
        )
        .unwrap(),
        y: BigInt::parse_bytes(
            b"20819045374670962167435360035096875258406992893633759881276124905556507972311",
            10,
        )
        .unwrap(),
    };
    let pq = bbj.add(&p, &q).unwrap();
    let qp = bbj.add(&q, &p).unwrap();
    assert_eq!(pq.x, qp.x);
    assert_eq!(pq.y, qp.y);
}

#[test]
fn test_doubling_consistency() {
    let bbj = Babyjubjub::new();
    let p: Point = Point {
        x: BigInt::parse_bytes(
            b"17777552123799933955779906779655732241715742912184938656739573121738514868268",
            10,
        )
        .unwrap(),
        y: BigInt::parse_bytes(
            b"2626589144620713026669568689430873010625803728049924121243784502389097019475",
            10,
        )
        .unwrap(),
    };
    let twice = bbj.mul_scalar(p.clone(), 2.to_bigint().unwrap()).unwrap();
    let doubled = bbj.add(&p, &p).unwrap();
    assert_eq!(twice.x, doubled.x);
    assert_eq!(twice.y, doubled.y);
}

#[test]
fn test_zero_scalar_yields_identity() {
    let bbj = Babyjubjub::new();
    let p: Point = Point {
        x: BigInt::parse_bytes(
            b"17777552123799933955779906779655732241715742912184938656739573121738514868268",
            10,
        )
        .unwrap(),
        y: BigInt::parse_bytes(
            b"2626589144620713026669568689430873010625803728049924121243784502389097019475",
            10,
        )
        .unwrap(),
    };
    let res = bbj.mul_scalar(p, 0.to_bigint().unwrap()).unwrap();
    assert_eq!(res.x, BigInt::from(0));
    assert_eq!(res.y, BigInt::from(1));
}

#[test]
fn test_negative_scalar_rejected() {
    let bbj = Babyjubjub::new();
    let p = Point { x: BigInt::from(0), y: BigInt::from(1) };
    let res = bbj.mul_scalar(p, BigInt::from(-3));
    assert!(matches!(res, Err(CurveError::InvalidScalar)));
}

#[test]
fn test_one_scalar_keeps_point() {
    let bbj = Babyjubjub::new();
    let p: Point = Point {
        x: BigInt::parse_bytes(
            b"17777552123799933955779906779655732241715742912184938656739573121738514868268",
            10,
        )
        .unwrap(),
        y: BigInt::parse_bytes(
            b"2626589144620713026669568689430873010625803728049924121243784502389097019475",
            10,
        )
        .unwrap(),
    };
    let res = bbj.mul_scalar(p.clone(), 1.to_bigint().unwrap()).unwrap();
    assert_eq!(res.x, p.x);
    assert_eq!(res.y, p.y);
}
