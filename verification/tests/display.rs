use std::rc::Rc;

use script_descriptor::ast::{E, F, T, V, W};
use script_descriptor::keys::{PublicKey, Sha256dHash};
use script_descriptor::lex::Token;

fn key() -> PublicKey {
    let mut bytes = [0x11; 33];
    bytes[0] = 0x02;
    PublicKey { bytes }
}

const KEY_HEX: &str = "021111111111111111111111111111111111111111111111111111111111111111";

#[test]
fn keys_and_numbers() {
    assert_eq!(E::CheckSig(key()).to_string(), format!("pk({})", KEY_HEX)[..].to_string());
    assert_eq!(E::<PublicKey>::Time(1234567).to_string(), "time(1234567)");
    assert_eq!(
        E::CheckMultiSig(2, vec![key(), key()]).to_string(),
        format!("multi(2,{},{})", KEY_HEX, KEY_HEX)
    );
}

#[test]
fn hashes_show_last_byte_first() {
    let mut bytes = [0u8; 32];
    bytes[0] = 0xab;
    bytes[31] = 0x01;
    let h = Sha256dHash { bytes };
    let text = W::<PublicKey>::HashEqual(h).to_string();
    assert_eq!(text, format!("hash(01{}ab)", "00".repeat(30)));
}

#[test]
fn combinators() {
    let e: E<PublicKey> = E::ParallelAnd(Rc::new(E::Time(1)), Rc::new(W::Time(2)));
    assert_eq!(e.to_string(), "and_p(time(1),time(2))");
    let t: T<PublicKey> = T::CastE(e);
    assert_eq!(t.to_string(), "and_p(time(1),time(2))");
    let v: V<PublicKey> = V::SwitchOrT(Rc::new(T::Time(3)), Rc::new(T::Time(4)));
    assert_eq!(v.to_string(), "or_a(time(3),time(4))");
    let f: F<PublicKey> = F::CascadeOr(Rc::new(E::Time(5)), Rc::new(V::Time(6)));
    assert_eq!(f.to_string(), "or_v(time(5),time(6))");
    let th: E<PublicKey> = E::Threshold(1, Rc::new(E::Time(7)), vec![Rc::new(W::Time(8)), Rc::new(W::Time(9))]);
    assert_eq!(th.to_string(), "thres(1,time(7),time(8),time(9))");
    let l: E<PublicKey> = E::Likely(Rc::new(F::Time(0)));
    assert_eq!(l.to_string(), "lift_l(time(0))");
}

#[test]
fn token_text() {
    assert_eq!(Token::Number(12).to_string(), "#12");
    assert_eq!(Token::EqualVerify.to_string(), "EqualVerify");
    assert_eq!(Token::Pubkey(key()).to_string(), KEY_HEX);
}
