use std::rc::Rc;

use bitcoin::blockdata::script::Builder;
use script_descriptor::ast::{E, F, T, V, W};
use script_descriptor::elem::AstElem;
use script_descriptor::keys::{PublicKey, Sha256dHash};

fn key(b: u8) -> PublicKey {
    let mut bytes = [b; 33];
    bytes[0] = 0x02;
    PublicKey { bytes }
}

fn script<X: AstElem>(x: &X) -> Vec<u8> {
    x.serialize(Builder::new()).into_bytes()
}

#[test]
fn checksig_pushes_key_then_opcode() {
    let pk = key(7);
    let mut want = vec![33u8];
    want.extend_from_slice(&pk.bytes);
    want.push(0xac);
    assert_eq!(script(&E::CheckSig(pk)), want);
}

#[test]
fn time_uses_small_int_opcode() {
    assert_eq!(script(&E::<PublicKey>::Time(10)), vec![0x76, 0x63, 0x5a, 0xb2, 0x75, 0x68]);
}

#[test]
fn time_pushes_minimal_script_number() {
    assert_eq!(script(&T::<PublicKey>::Time(1000)), vec![0x02, 0xe8, 0x03, 0xb2]);
    assert_eq!(script(&T::<PublicKey>::Time(0x80)), vec![0x02, 0x80, 0x00, 0xb2]);
    assert_eq!(script(&V::<PublicKey>::Time(0)), vec![0x00, 0xb2, 0x75]);
    assert_eq!(script(&F::<PublicKey>::Time(16)), vec![0x60, 0xb2, 0x92]);
}

#[test]
fn multisig_counts_keys() {
    let (a, b) = (key(1), key(2));
    let mut want = vec![0x51, 33];
    want.extend_from_slice(&a.bytes);
    want.push(33);
    want.extend_from_slice(&b.bytes);
    want.extend_from_slice(&[0x52, 0xae]);
    assert_eq!(script(&E::CheckMultiSig(1, vec![a, b])), want);
}

#[test]
fn threshold_adds_wrapped_parts() {
    let x: E<PublicKey> = E::Threshold(
        2,
        Rc::new(E::Time(1)),
        vec![Rc::new(W::Time(2)), Rc::new(W::Time(3))],
    );
    let want = vec![
        0x76, 0x63, 0x51, 0xb2, 0x75, 0x68, // E time(1)
        0x7c, 0x76, 0x63, 0x52, 0xb2, 0x75, 0x68, 0x93, // W time(2) ADD
        0x7c, 0x76, 0x63, 0x53, 0xb2, 0x75, 0x68, 0x93, // W time(3) ADD
        0x52, 0x87, // 2 EQUAL
    ];
    assert_eq!(script(&x), want);
}

#[test]
fn hash_check_pushes_hash_bytes() {
    let h = Sha256dHash { bytes: [0xab; 32] };
    let mut want = vec![0x82, 0x01, 0x20, 0x88, 0xa8, 0x20];
    want.extend_from_slice(&[0xab; 32]);
    want.push(0x87);
    assert_eq!(script(&T::<PublicKey>::HashEqual(h)), want);
}

#[test]
fn cast_to_t_keeps_the_script() {
    let e: E<PublicKey> = E::ParallelOr(Rc::new(E::Time(4)), Rc::new(W::Time(5)));
    let before = script(&e);
    let t = e.clone().into_t().unwrap();
    assert!(matches!(*t, T::ParallelOr(..)));
    assert_eq!(script(&*t), before);
    let f: F<PublicKey> = F::CascadeOr(Rc::new(E::Time(6)), Rc::new(V::Time(7)));
    let before = script(&f);
    let t = f.into_t().unwrap();
    assert!(matches!(*t, T::CascadeOrV(..)));
    assert_eq!(script(&*t), before);
}

#[test]
fn failed_casts_name_the_fragment() {
    let v: V<PublicKey> = V::Time(9);
    match v.into_e() {
        Err(script_descriptor::error::Error::Unexpected(s)) => assert_eq!(s, "time(9)"),
        _ => panic!("cast should fail"),
    }
    let f: F<PublicKey> = F::Time(3);
    assert!(!f.is_t());
    assert!(f.into_t().is_err());
}

#[test]
fn appends_to_what_the_builder_holds() {
    let b = Builder::new().push_int(5);
    let out = T::<PublicKey>::Time(1).serialize(b).into_bytes();
    assert_eq!(out, vec![0x55, 0x51, 0xb2]);
}
