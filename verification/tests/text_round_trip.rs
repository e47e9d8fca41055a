use std::rc::Rc;

use script_descriptor::ast::{E, F, T, V, W};
use script_descriptor::expression::Tree;
use script_descriptor::keys::{PublicKey, Sha256dHash};

/// The generator point of secp256k1, compressed.
const G_HEX: &str = "0279be667ef9dcbbac55a06295ce870b07029bfcdb2dce28d959f2815b16f81798";

fn g() -> PublicKey {
    PublicKey::from_str(G_HEX).unwrap()
}

fn leaf(name: &str) -> Tree {
    Tree { name: name.to_string(), args: vec![] }
}

fn node(name: &str, args: Vec<Tree>) -> Tree {
    Tree { name: name.to_string(), args }
}

fn pk() -> Tree {
    node("pk", vec![leaf(G_HEX)])
}

fn time(n: &str) -> Tree {
    node("time", vec![leaf(n)])
}

#[test]
fn printed_fragment_reads_back_as_itself() {
    let x = E::SwitchOrLeft(
        Rc::new(E::CascadeAnd(Rc::new(E::CheckSig(g())), Rc::new(F::Time(7)))),
        Rc::new(F::CheckMultiSig(1, vec![g(), g()])),
    );
    let text = x.to_string();
    assert_eq!(
        text,
        format!("or_s(and_c(pk({G_HEX}),time(7)),multi(1,{G_HEX},{G_HEX}))")
    );
    let t = node(
        "or_s",
        vec![
            node("and_c", vec![pk(), time("7")]),
            node("multi", vec![leaf("1"), leaf(G_HEX), leaf(G_HEX)]),
        ],
    );
    let y = E::from_tree(&t).unwrap();
    assert_eq!(*y, x);
    assert_eq!(y.to_string(), text);
}

#[test]
fn threshold_prints_and_reads_back() {
    let x = V::Threshold(
        2,
        Rc::new(E::CheckSig(g())),
        vec![Rc::new(W::Time(3)), Rc::new(W::CheckSig(g()))],
    );
    let text = x.to_string();
    assert_eq!(text, format!("thres(2,pk({G_HEX}),time(3),pk({G_HEX}))"));
    let t = node("thres", vec![leaf("2"), pk(), time("3"), pk()]);
    let y = V::from_tree(&t).unwrap();
    assert_eq!(*y, x);
    assert_eq!(y.to_string(), text);
}

#[test]
fn leaves_are_printed_in_the_library_s_own_form() {
    // a sign, leading zeros and upper-case hex all read, and print plainly
    let upper = G_HEX.to_uppercase();
    let t = node("and_p", vec![node("pk", vec![leaf(&upper)]), time("+007")]);
    let y = T::from_tree(&t).unwrap();
    assert_eq!(*y, T::And(Rc::new(V::CheckSig(g())), Rc::new(T::Time(7))));
    assert_eq!(y.to_string(), format!("and_p(pk({G_HEX}),time(7))"));
}

#[test]
fn a_cast_reads_back_as_the_form_of_its_own_text() {
    // `T::CastE(E::Time)` prints as `time(..)`, which names `T::Time`:
    // the text round trip keeps the text, not the cast
    let x = T::<PublicKey>::CastE(E::Time(9));
    assert_eq!(x.to_string(), "time(9)");
    let y = T::from_tree(&time("9")).unwrap();
    assert_eq!(*y, T::Time(9));
    assert_eq!(y.to_string(), x.to_string());
}

#[test]
fn hash_prints_last_byte_first_and_reads_back() {
    let text = format!("01{}ab", "00".repeat(30));
    let h = Sha256dHash::from_hex(&text).unwrap();
    let x = W::HashEqual(h);
    assert_eq!(x.to_string(), format!("hash({text})"));
    let y = W::from_tree(&node("hash", vec![leaf(&text)])).unwrap();
    assert_eq!(*y, x);
}
