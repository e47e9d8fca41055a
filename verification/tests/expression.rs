use std::rc::Rc;

use script_descriptor::ast::{E, F, T, V, W};
use script_descriptor::error::Error;
use script_descriptor::expression::{parse_num, Tree};
use script_descriptor::keys::{PublicKey, Sha256dHash};

/// The generator point of secp256k1, compressed.
const G_HEX: &str = "0279be667ef9dcbbac55a06295ce870b07029bfcdb2dce28d959f2815b16f81798";

fn g() -> PublicKey {
    PublicKey::from_str(G_HEX).unwrap()
}

fn leaf(name: &str) -> Tree {
    Tree { name: name.to_string(), args: vec![] }
}

fn node(name: &str, args: Vec<Tree>) -> Tree {
    Tree { name: name.to_string(), args }
}

fn unexpected(s: &str) -> Error {
    Error::Unexpected(s.to_string())
}

#[test]
fn numbers_are_decimal_u32() {
    assert_eq!(parse_num("0"), Ok(0));
    assert_eq!(parse_num("4294967295"), Ok(u32::MAX));
    assert_eq!(parse_num("+12"), Ok(12));
    assert_eq!(parse_num("4294967296"), Err(unexpected("4294967296")));
    assert_eq!(parse_num("-1"), Err(unexpected("-1")));
    assert_eq!(parse_num(""), Err(unexpected("")));
    assert_eq!(parse_num("1a"), Err(unexpected("1a")));
}

#[test]
fn key_text_is_its_compressed_form() {
    let pk = g();
    assert_eq!(pk.bytes[0], 0x02);
    assert_eq!(pk.bytes[1], 0x79);
    assert_eq!(pk.bytes[32], 0x98);
    assert!(PublicKey::from_str("02").is_err());
    // the point (0, 0) is not on the curve
    assert!(PublicKey::from_str(&format!("04{}", "00".repeat(64))).is_err());
}

#[test]
fn hash_text_gives_last_byte_first() {
    let text = format!("01{}ab", "00".repeat(30));
    let h = Sha256dHash::from_hex(&text).unwrap();
    assert_eq!(h.bytes[0], 0xab);
    assert_eq!(h.bytes[31], 0x01);
    let upper = Sha256dHash::from_hex(&format!("01{}AB", "00".repeat(30))).unwrap();
    assert_eq!(upper, h);
    assert!(Sha256dHash::from_hex("01").is_err());
    assert!(Sha256dHash::from_hex(&"zz".repeat(32)).is_err());
}

#[test]
fn pk_names_a_checksig_of_each_kind() {
    let t = node("pk", vec![leaf(G_HEX)]);
    assert_eq!(E::from_tree(&t), Ok(Rc::new(E::CheckSig(g()))));
    assert_eq!(W::from_tree(&t), Ok(Rc::new(W::CheckSig(g()))));
    assert_eq!(F::from_tree(&t), Ok(Rc::new(F::CheckSig(g()))));
    assert_eq!(V::from_tree(&t), Ok(Rc::new(V::CheckSig(g()))));
    // a `T` has no key check of its own: it is the `E` one
    assert_eq!(T::from_tree(&t), Ok(Rc::new(T::CastE(E::CheckSig(g())))));
}

#[test]
fn multi_takes_threshold_then_keys() {
    let t = node("multi", vec![leaf("1"), leaf(G_HEX), leaf(G_HEX)]);
    assert_eq!(E::from_tree(&t), Ok(Rc::new(E::CheckMultiSig(1, vec![g(), g()]))));
    assert_eq!(V::from_tree(&t), Ok(Rc::new(V::CheckMultiSig(1, vec![g(), g()]))));
    let t0 = node("multi", vec![leaf("0")]);
    assert_eq!(F::from_tree(&t0), Ok(Rc::new(F::CheckMultiSig(0, vec![]))));
}

#[test]
fn multi_threshold_above_key_count_is_refused() {
    let t = node("multi", vec![leaf("3"), leaf(G_HEX), leaf(G_HEX)]);
    let want = Err(unexpected("higher threshold than there were keys in multi"));
    assert_eq!(E::from_tree(&t), want);
    assert_eq!(F::from_tree(&t), Err(unexpected("higher threshold than there were keys in multi")));
}

#[test]
fn multi_with_a_bad_key_is_refused() {
    let t = node("multi", vec![leaf("1"), leaf("nokey")]);
    assert!(E::from_tree(&t).is_err());
    let t = node("multi", vec![leaf("x"), leaf(G_HEX)]);
    assert_eq!(E::from_tree(&t), Err(unexpected("x")));
}

#[test]
fn thres_needs_an_expression() {
    let t = node("thres", vec![leaf("0")]);
    assert_eq!(E::from_tree(&t), Err(unexpected("empty multisigs not allowed in descriptors")));
    let t = node("thres", vec![leaf("2"), node("time", vec![leaf("1")])]);
    assert_eq!(E::from_tree(&t), Err(unexpected("higher threshold than there were keys in multi")));
}

#[test]
fn thres_reads_expression_then_wrapped_parts() {
    let t = node(
        "thres",
        vec![
            leaf("2"),
            node("time", vec![leaf("10")]),
            node("pk", vec![leaf(G_HEX)]),
            node("and_p", vec![node("time", vec![leaf("1")]), node("time", vec![leaf("2")])]),
        ],
    );
    let want = E::Threshold(
        2,
        Rc::new(E::Time(10)),
        vec![
            Rc::new(W::CheckSig(g())),
            Rc::new(W::CastE(Rc::new(E::ParallelAnd(Rc::new(E::Time(1)), Rc::new(W::Time(2)))))),
        ],
    );
    assert_eq!(E::from_tree(&t), Ok(Rc::new(want)));
}

#[test]
fn or_p_is_a_t_of_its_own() {
    let t = node("or_p", vec![node("time", vec![leaf("1")]), node("time", vec![leaf("2")])]);
    assert_eq!(
        T::from_tree(&t),
        Ok(Rc::new(T::ParallelOr(Rc::new(E::Time(1)), Rc::new(W::Time(2)))))
    );
    assert_eq!(
        E::from_tree(&t),
        Ok(Rc::new(E::ParallelOr(Rc::new(E::Time(1)), Rc::new(W::Time(2)))))
    );
}

#[test]
fn t_falls_back_to_e() {
    let t = node("lift_l", vec![node("time", vec![leaf("5")])]);
    assert_eq!(
        T::from_tree(&t),
        Ok(Rc::new(T::CastE(E::Likely(Rc::new(F::Time(5))))))
    );
}

#[test]
fn hash_names_a_hash_check() {
    let text = format!("01{}ab", "00".repeat(30));
    let h = Sha256dHash::from_hex(&text).unwrap();
    let t = node("hash", vec![leaf(&text)]);
    assert_eq!(T::from_tree(&t), Ok(Rc::new(T::HashEqual(h))));
    assert_eq!(W::from_tree(&t), Ok(Rc::new(W::HashEqual(h))));
    assert_eq!(V::from_tree(&t), Ok(Rc::new(V::HashEqual(h))));
    assert!(E::from_tree(&t).is_err());
}

#[test]
fn unknown_names_say_what_was_sought() {
    let t = node("foo", vec![leaf("1"), leaf("2")]);
    assert_eq!(E::from_tree(&t), Err(unexpected("foo(2 args) while parsing E")));
    assert_eq!(F::from_tree(&t), Err(unexpected("foo(2 args) while parsing F")));
    assert_eq!(V::from_tree(&t), Err(unexpected("foo(2 args) while parsing V")));
    assert_eq!(W::from_tree(&t), Err(unexpected("foo(2 args) while parsing E")));
    assert_eq!(T::from_tree(&t), Err(unexpected("foo(2 args) while parsing E")));
}

#[test]
fn pk_with_two_arguments_is_no_checksig() {
    let t = node("pk", vec![leaf(G_HEX), leaf(G_HEX)]);
    assert_eq!(E::from_tree(&t), Err(unexpected("pk(2 args) while parsing E")));
}

#[test]
fn v_and_f_compositions() {
    let time = |n: &str| node("time", vec![leaf(n)]);
    let t = node("and_p", vec![time("1"), time("2")]);
    assert_eq!(
        V::from_tree(&t),
        Ok(Rc::new(V::And(Rc::new(V::Time(1)), Rc::new(V::Time(2)))))
    );
    assert_eq!(
        F::from_tree(&t),
        Ok(Rc::new(F::And(Rc::new(V::Time(1)), Rc::new(F::Time(2)))))
    );
    let t = node("or_a", vec![time("3"), time("4")]);
    assert_eq!(
        V::from_tree(&t),
        Ok(Rc::new(V::SwitchOrT(Rc::new(T::Time(3)), Rc::new(T::Time(4)))))
    );
}
