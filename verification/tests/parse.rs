use std::rc::Rc;

use script_descriptor::ast::{E, F, T, V, W};
use script_descriptor::elem::Elem;
use script_descriptor::error::Error;
use script_descriptor::keys::{PublicKey, Sha256dHash};
use script_descriptor::lex::{Token, TokenIter};
use script_descriptor::parse::parse_subexpression;

fn key(b: u8) -> PublicKey {
    let mut bytes = [b; 33];
    bytes[0] = 0x03;
    PublicKey { bytes }
}

fn parse(tokens: Vec<Token>) -> Result<Elem, Error> {
    let mut it = TokenIter::new(tokens);
    parse_subexpression(&mut it)
}

#[test]
fn empty_input_is_an_unexpected_start() {
    assert_eq!(parse(vec![]), Err(Error::UnexpectedStart));
}

#[test]
fn stray_token_is_unexpected() {
    assert_eq!(parse(vec![Token::Add]), Err(Error::Unexpected("Add".to_string())));
    assert_eq!(parse(vec![Token::Number(7)]), Err(Error::Unexpected("#7".to_string())));
}

#[test]
fn checksig_and_its_wrapped_form() {
    let pk = key(1);
    assert_eq!(parse(vec![Token::Pubkey(pk), Token::CheckSig]), Ok(Elem::E(E::CheckSig(pk))));
    assert_eq!(
        parse(vec![Token::Swap, Token::Pubkey(pk), Token::CheckSig]),
        Ok(Elem::W(W::CheckSig(pk)))
    );
    assert_eq!(parse(vec![Token::Pubkey(pk), Token::CheckSigVerify]), Ok(Elem::V(V::CheckSig(pk))));
}

#[test]
fn timelocks_of_each_kind() {
    assert_eq!(parse(vec![Token::Number(9), Token::CheckSequenceVerify]), Ok(Elem::T(T::Time(9))));
    assert_eq!(
        parse(vec![Token::Number(9), Token::CheckSequenceVerify, Token::ZeroNotEqual]),
        Ok(Elem::F(F::Time(9)))
    );
    assert_eq!(
        parse(vec![Token::Number(9), Token::CheckSequenceVerify, Token::Drop]),
        Ok(Elem::V(V::Time(9)))
    );
    let e_time = vec![
        Token::Dup, Token::If, Token::Number(9), Token::CheckSequenceVerify, Token::Drop, Token::EndIf,
    ];
    assert_eq!(parse(e_time.clone()), Ok(Elem::E(E::Time(9))));
    let mut w_time = vec![Token::Swap];
    w_time.extend(e_time);
    assert_eq!(parse(w_time), Ok(Elem::W(W::Time(9))));
}

#[test]
fn multisig_keys_come_back_in_order() {
    let (a, b) = (key(1), key(2));
    let toks = vec![
        Token::Number(1), Token::Pubkey(a), Token::Pubkey(b), Token::Number(2), Token::CheckMultiSig,
    ];
    assert_eq!(parse(toks), Ok(Elem::E(E::CheckMultiSig(1, vec![a, b]))));
}

#[test]
fn v_before_t_joins_by_and() {
    let pk = key(4);
    let toks = vec![Token::Pubkey(pk), Token::CheckSigVerify, Token::Number(10), Token::CheckSequenceVerify];
    assert_eq!(
        parse(toks),
        Ok(Elem::T(T::And(Rc::new(V::CheckSig(pk)), Rc::new(T::Time(10)))))
    );
}

#[test]
fn hash_check() {
    let h = Sha256dHash { bytes: [5; 32] };
    let toks = vec![
        Token::Size, Token::Number(32), Token::EqualVerify, Token::Sha256, Token::Sha256Hash(h), Token::Equal,
    ];
    assert_eq!(parse(toks), Ok(Elem::T(T::HashEqual(h))));
}

#[test]
fn parallel_and() {
    let pk = key(6);
    let toks = vec![
        Token::Pubkey(pk), Token::CheckSig, Token::Swap, Token::Pubkey(pk), Token::CheckSig, Token::BoolAnd,
    ];
    assert_eq!(
        parse(toks),
        Ok(Elem::E(E::ParallelAnd(Rc::new(E::CheckSig(pk)), Rc::new(W::CheckSig(pk)))))
    );
}

#[test]
fn threshold_lists_wrapped_parts_in_script_order() {
    let w_time = |n: u32| {
        vec![
            Token::Swap, Token::Dup, Token::If, Token::Number(n), Token::CheckSequenceVerify, Token::Drop,
            Token::EndIf,
        ]
    };
    let mut toks = vec![Token::Number(1), Token::CheckSequenceVerify];
    toks.extend(w_time(2));
    toks.push(Token::Add);
    toks.extend(w_time(3));
    toks.push(Token::Add);
    toks.extend(vec![Token::Number(2), Token::Equal]);
    // the `E` part is a `T` here, so the threshold fails on it
    assert!(parse(toks).is_err());

    let e_time = vec![
        Token::Dup, Token::If, Token::Number(1), Token::CheckSequenceVerify, Token::Drop, Token::EndIf,
    ];
    let mut toks = e_time;
    toks.extend(w_time(2));
    toks.push(Token::Add);
    toks.extend(w_time(3));
    toks.push(Token::Add);
    toks.extend(vec![Token::Number(2), Token::Equal]);
    assert_eq!(
        parse(toks),
        Ok(Elem::E(E::Threshold(
            2,
            Rc::new(E::Time(1)),
            vec![Rc::new(W::Time(2)), Rc::new(W::Time(3))]
        )))
    );
}

#[test]
fn lifted_f_and_switches() {
    let pk = key(8);
    let f_pk = vec![Token::Pubkey(pk), Token::CheckSigVerify, Token::Number(1)];
    let mut toks = vec![Token::If];
    toks.extend(f_pk.clone());
    toks.extend(vec![Token::Else, Token::Number(0), Token::EndIf]);
    assert_eq!(parse(toks), Ok(Elem::E(E::Unlikely(Rc::new(F::CheckSig(pk))))));

    let mut toks = vec![Token::If];
    toks.extend(f_pk.clone());
    toks.push(Token::Else);
    toks.extend(f_pk.clone());
    toks.push(Token::EndIf);
    assert_eq!(
        parse(toks),
        Ok(Elem::F(F::SwitchOr(Rc::new(F::CheckSig(pk)), Rc::new(F::CheckSig(pk)))))
    );
}

#[test]
fn tokens_left_before_the_fragment_stay() {
    let pk = key(9);
    let mut it = TokenIter::new(vec![Token::If, Token::Pubkey(pk), Token::CheckSigVerify]);
    assert_eq!(parse_subexpression(&mut it), Ok(Elem::V(V::CheckSig(pk))));
    assert_eq!(it.0, vec![Token::If]);
}

fn hash_toks(h: Sha256dHash) -> Vec<Token> {
    vec![Token::Size, Token::Number(32), Token::EqualVerify, Token::Sha256, Token::Sha256Hash(h)]
}

#[test]
fn hash_checks_of_each_kind() {
    let h = Sha256dHash { bytes: [9; 32] };
    let mut v = hash_toks(h);
    v.push(Token::EqualVerify);
    assert_eq!(parse(v.clone()), Ok(Elem::V(V::HashEqual(h))));
    let mut f = v.clone();
    f.push(Token::Number(1));
    assert_eq!(parse(f.clone()), Ok(Elem::F(F::HashEqual(h))));
    let mut w = vec![Token::Swap, Token::Size, Token::ZeroNotEqual, Token::If];
    w.extend(f);
    w.push(Token::EndIf);
    assert_eq!(parse(w), Ok(Elem::W(W::HashEqual(h))));
}

#[test]
fn lifted_key_checks() {
    let (a, b) = (key(2), key(3));
    assert_eq!(
        parse(vec![Token::Pubkey(a), Token::CheckSigVerify, Token::Number(1)]),
        Ok(Elem::F(F::CheckSig(a)))
    );
    let ms = vec![Token::Number(2), Token::Pubkey(a), Token::Pubkey(b), Token::Number(2)];
    let mut v = ms.clone();
    v.push(Token::CheckMultiSigVerify);
    assert_eq!(parse(v.clone()), Ok(Elem::V(V::CheckMultiSig(2, vec![a, b]))));
    v.push(Token::Number(1));
    assert_eq!(parse(v), Ok(Elem::F(F::CheckMultiSig(2, vec![a, b]))));
}

#[test]
fn multisig_with_too_few_keys_fails() {
    let a = key(2);
    let toks = vec![Token::Number(1), Token::Pubkey(a), Token::Number(2), Token::CheckMultiSig];
    assert_eq!(parse(toks), Err(Error::Unexpected("#1".to_string())));
}

#[test]
fn expression_after_a_non_stop_is_joined_by_and() {
    // An `E` can be cast to a `T`, so what precedes it is read as a `V`
    // joined to it, unless a stop precedes it: `TOALTSTACK` is one, so the
    // wrapped cast of an `E` is read back.
    let pk = key(5);
    let toks = vec![Token::ToAltStack, Token::Pubkey(pk), Token::CheckSig, Token::FromAltStack];
    assert_eq!(parse(toks), Ok(Elem::W(W::CastE(Rc::new(E::CheckSig(pk))))));
    let toks = vec![Token::Pubkey(pk), Token::CheckSigVerify, Token::Pubkey(pk), Token::CheckSig];
    assert_eq!(
        parse(toks),
        Ok(Elem::T(T::And(Rc::new(V::CheckSig(pk)), Rc::new(T::CastE(E::CheckSig(pk))))))
    );
}

#[test]
fn a_v_with_no_f_form_before_one_is_refused_with_its_text() {
    let toks = vec![Token::Number(3), Token::CheckSequenceVerify, Token::Drop, Token::Number(1)];
    assert_eq!(parse(toks), Err(Error::Unexpected("time(3)".to_string())));
}
