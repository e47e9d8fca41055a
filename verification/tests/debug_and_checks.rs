use std::rc::Rc;

use script_descriptor::ast::{E, F, T, V, W};
use script_descriptor::elem::AstElem;
use script_descriptor::error::Error;
use script_descriptor::expression::{is_tree_ok, Tree};
use script_descriptor::keys::{PublicKey, Sha256dHash};
use std::str::FromStr;

/// The generator point of secp256k1, compressed.
const G_HEX: &str = "0279be667ef9dcbbac55a06295ce870b07029bfcdb2dce28d959f2815b16f81798";

fn g() -> PublicKey {
    PublicKey::from_str(G_HEX).unwrap()
}

fn leaf(name: &str) -> Tree {
    Tree { name: name.to_string(), args: vec![] }
}

fn node(name: &str, args: Vec<Tree>) -> Tree {
    Tree { name: name.to_string(), args }
}

/// The debug form that `secp256k1` gives the generator point.
fn g_debug() -> String {
    format!("{:?}", secp256k1::PublicKey::from_str(G_HEX).unwrap())
}

#[test]
fn debug_form_tags_each_part_with_its_kind() {
    let d = g_debug();
    let x = E::Threshold(1, Rc::new(E::CheckSig(g())), vec![Rc::new(W::Time(3))]);
    assert_eq!(x.debug_string(), format!("E.thres(1,E.pk({d}),W.time(3))"));
    assert_eq!(x.to_string(), format!("thres(1,pk({G_HEX}),time(3))"));
    let m = E::CheckMultiSig(2, vec![g(), g()]);
    assert_eq!(m.debug_string(), format!("E.multi(2,{d},{d})"));
    let f = F::<PublicKey>::CascadeOr(Rc::new(E::Time(1)), Rc::new(V::Time(2)));
    assert_eq!(f.debug_string(), "F.or_v(E.time(1),V.time(2))");
    let v = V::<PublicKey>::SwitchOrT(Rc::new(T::Time(1)), Rc::new(T::Time(2)));
    assert_eq!(v.debug_string(), "V.or_a(T.time(1),T.time(2))");
}

#[test]
fn debug_form_of_a_cast_expression() {
    assert_eq!(T::<PublicKey>::CastE(E::Time(4)).debug_string(), "TE.time(4)");
    assert_eq!(T::<PublicKey>::CastE(E::Time(4)).to_string(), "time(4)");
    assert_eq!(W::<PublicKey>::CastE(Rc::new(E::Time(4))).debug_string(), "WE.time(4)");
    assert_eq!(W::<PublicKey>::CastE(Rc::new(E::Time(4))).to_string(), "time(4)");
}

#[test]
fn tree_check_wants_an_argument_for_each_multi_and_thres() {
    assert!(is_tree_ok(&node("pk", vec![leaf(G_HEX)])));
    assert!(is_tree_ok(&node("multi", vec![leaf("1"), leaf(G_HEX)])));
    assert!(!is_tree_ok(&node("multi", vec![])));
    assert!(!is_tree_ok(&node("and_p", vec![node("thres", vec![]), leaf("x")])));
}

#[test]
fn push_check_refuses_a_count_of_two_to_the_63() {
    let big: usize = 1usize << 63;
    assert!(!E::<PublicKey>::CheckMultiSig(big, vec![]).pushes_fit());
    assert!(!V::<PublicKey>::Threshold(big, Rc::new(E::Time(1)), vec![]).pushes_fit());
    assert!(E::CheckMultiSig(1, vec![g()]).pushes_fit());
    assert!(F::<PublicKey>::Threshold(1, Rc::new(E::Time(1)), vec![Rc::new(W::Time(2))]).pushes_fit());
}

#[test]
fn a_bad_key_is_refused_alike_by_every_kind() {
    let bad = node("pk", vec![leaf("zz")]);
    let want = Err(Error::Unexpected("malformed public key".to_string()));
    assert_eq!(E::from_tree(&bad).map(|_| ()), want.clone());
    assert_eq!(W::from_tree(&bad).map(|_| ()), want.clone());
    assert_eq!(F::from_tree(&bad).map(|_| ()), want.clone());
    assert_eq!(V::from_tree(&bad).map(|_| ()), want.clone());
    assert_eq!(T::from_tree(&bad).map(|_| ()), want);
    let nested = node("pk", vec![node("x", vec![leaf("1")])]);
    assert_eq!(T::from_tree(&nested).map(|_| ()), Err(Error::Unexpected("x".to_string())));
}

#[test]
fn text_and_debug_forms_over_number_keys() {
    let m = E::CheckMultiSig(2, vec![1u32, 2, 3]);
    assert_eq!(m.to_string(), "multi(2,1,2,3)");
    assert_eq!(m.debug_string(), "E.multi(2,1,2,3)");
    let t = E::Threshold(1, Rc::new(E::CheckSig(1u32)), vec![Rc::new(W::Time(3))]);
    assert_eq!(t.to_string(), "thres(1,pk(1),time(3))");
    assert_eq!(t.debug_string(), "E.thres(1,E.pk(1),W.time(3))");
    let f = F::<u32>::CascadeOr(Rc::new(E::Time(1)), Rc::new(V::Time(2)));
    assert_eq!(f.to_string(), "or_v(time(1),time(2))");
    assert_eq!(f.debug_string(), "F.or_v(E.time(1),V.time(2))");
    let v = V::<u32>::SwitchOrT(Rc::new(T::Time(1)), Rc::new(T::Time(2)));
    assert_eq!(v.to_string(), "or_a(time(1),time(2))");
    assert_eq!(v.debug_string(), "V.or_a(T.time(1),T.time(2))");
    let tc = T::<u32>::CastE(E::Time(4));
    assert_eq!(tc.to_string(), "time(4)");
    assert_eq!(tc.debug_string(), "TE.time(4)");
    let wc = W::<u32>::CastE(Rc::new(E::Time(4)));
    assert_eq!(wc.to_string(), "time(4)");
    assert_eq!(wc.debug_string(), "WE.time(4)");
}

#[test]
fn a_key_prints_in_the_debug_form_of_secp256k1() {
    let d = g_debug();
    assert!(d.starts_with("PublicKey("));
    assert!(d.ends_with(')'));
    assert_eq!(d.len(), 139);
    assert!(d[10..138].chars().all(|c| c.is_ascii_digit() || ('a'..='f').contains(&c)));
    assert_eq!(W::CheckSig(g()).debug_string(), format!("W.pk({d})"));
    assert_eq!(F::CheckSig(g()).debug_string(), format!("F.pk({d})"));
    assert_eq!(V::CheckMultiSig(1, vec![g()]).debug_string(), format!("V.multi(1,{d})"));
    let t = T::ParallelOr(Rc::new(E::CheckSig(g())), Rc::new(W::CheckSig(g())));
    assert_eq!(t.debug_string(), format!("T.or_p(E.pk({d}),W.pk({d}))"));
    // bytes that serialize no key print as their text
    let not_a_key = PublicKey { bytes: [0u8; 33] };
    assert_eq!(E::CheckSig(not_a_key).debug_string(), format!("E.pk({})", "00".repeat(33)));
}

#[test]
fn a_tree_that_names_no_t_of_its_own_is_refused_as_an_e() {
    let bad_key = node("and_c", vec![node("pk", vec![leaf("zz")]), node("time", vec![leaf("1")])]);
    let want = Err(Error::Unexpected("malformed public key".to_string()));
    assert_eq!(T::from_tree(&bad_key).map(|_| ()), want.clone());
    assert_eq!(E::from_tree(&bad_key).map(|_| ()), want);
    let bad_f = node("and_c", vec![node("time", vec![leaf("1")]), node("lift_l", vec![leaf("2")])]);
    let e_err = E::from_tree(&bad_f).map(|_| ());
    assert_eq!(e_err, Err(Error::Unexpected("lift_l(1 args) while parsing F".to_string())));
    assert_eq!(T::from_tree(&bad_f).map(|_| ()), e_err);
}

#[test]
fn a_bad_hash_is_refused_with_the_hash_parser_error() {
    let text = "zz".repeat(32);
    let parser_err = Sha256dHash::from_hex(&text).unwrap_err();
    let tree = node("hash", vec![leaf(&text)]);
    assert_eq!(W::from_tree(&tree).map(|_| ()), Err(Error::Unexpected(parser_err.clone())));
    assert_eq!(T::from_tree(&tree).map(|_| ()), Err(Error::Unexpected(parser_err)));
    let nested = node("hash", vec![node("h", vec![leaf("1")])]);
    assert_eq!(F::from_tree(&nested).map(|_| ()), Err(Error::Unexpected("h".to_string())));
}

#[test]
fn castable_exactly_when_the_cast_succeeds() {
    let e = E::<PublicKey>::Time(1);
    let w = W::<PublicKey>::Time(1);
    let f = F::<PublicKey>::CascadeOr(Rc::new(E::Time(1)), Rc::new(V::Time(2)));
    let f2 = F::<PublicKey>::Time(1);
    let v = V::<PublicKey>::Time(1);
    let t = T::<PublicKey>::Time(1);
    e.check();
    w.check();
    f.check();
    f2.check();
    v.check();
    t.check();
    assert!(e.is_e() && e.is_t() && !e.is_w() && !e.is_f() && !e.is_v());
    assert!(w.is_w() && !w.is_e() && !w.is_t());
    assert!(f.is_f() && f.is_t() && !f2.is_t());
    assert!(v.is_v() && !v.is_t());
    assert!(t.is_t() && !t.is_e());
}

trait Check {
    fn check(&self);
}

impl<X: AstElem + Clone> Check for X {
    fn check(&self) {
        assert_eq!(self.is_e(), self.clone().into_e().is_ok());
        assert_eq!(self.is_w(), self.clone().into_w().is_ok());
        assert_eq!(self.is_f(), self.clone().into_f().is_ok());
        assert_eq!(self.is_v(), self.clone().into_v().is_ok());
        assert_eq!(self.is_t(), self.clone().into_t().is_ok());
    }
}

#[test]
fn a_written_tree_is_well_formed() {
    let tree = node(
        "thres",
        vec![leaf("1"), node("pk", vec![leaf(G_HEX)]), node("time", vec![leaf("3")])],
    );
    assert!(is_tree_ok(&tree));
    let x = E::from_tree(&tree).unwrap();
    assert_eq!(x.to_string(), format!("thres(1,pk({G_HEX}),time(3))"));
}

#[test]
fn a_bare_multi_in_a_key_place_is_refused_as_a_key() {
    let want = Err(Error::Unexpected("malformed public key".to_string()));
    let bad_multi = node("multi", vec![leaf("1"), leaf("multi")]);
    assert!(!is_tree_ok(&node("multi", vec![leaf("1"), node("multi", vec![])])));
    assert_eq!(E::from_tree(&node("multi", vec![leaf("1"), node("multi", vec![])])).map(|_| ()), want.clone());
    assert_eq!(F::from_tree(&bad_multi).map(|_| ()), want.clone());
    let pk_multi = node("pk", vec![node("multi", vec![])]);
    assert_eq!(T::from_tree(&pk_multi).map(|_| ()), want.clone());
    assert_eq!(E::from_tree(&pk_multi).map(|_| ()), want);
    // the second part is not read once the first is refused
    let first_bad = node("and_p", vec![node("pk", vec![leaf("zz")]), node("thres", vec![])]);
    assert_eq!(
        E::from_tree(&first_bad).map(|_| ()),
        Err(Error::Unexpected("malformed public key".to_string()))
    );
}
