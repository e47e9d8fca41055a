use std::rc::Rc;

use script_descriptor::ast::{E, F, T, V, W};
use script_descriptor::elem::Elem;
use script_descriptor::error::Error;
use script_descriptor::keys::{PublicKey, Sha256dHash};
use script_descriptor::lex::{Token, TokenIter};
use script_descriptor::parse::parse_subexpression;

fn key(b: u8) -> PublicKey {
    let mut bytes = [b; 33];
    bytes[0] = 0x02;
    PublicKey { bytes }
}

fn parse(tokens: Vec<Token>) -> Result<Elem, Error> {
    let mut it = TokenIter::new(tokens);
    parse_subexpression(&mut it)
}

fn csv(n: u32) -> Vec<Token> {
    vec![Token::Number(n), Token::CheckSequenceVerify]
}

fn cat(parts: Vec<Vec<Token>>) -> Vec<Token> {
    parts.into_iter().flatten().collect()
}

#[test]
fn switch_or_left_and_right_read_back() {
    let (a, b) = (key(1), key(2));
    let body = |open: Token| {
        vec![
            open, Token::Pubkey(a), Token::CheckSig, Token::Else, Token::Pubkey(b), Token::CheckSigVerify,
            Token::Number(1), Token::EndIf,
        ]
    };
    assert_eq!(
        parse(body(Token::If)),
        Ok(Elem::E(E::SwitchOrLeft(Rc::new(E::CheckSig(a)), Rc::new(F::CheckSig(b)))))
    );
    assert_eq!(
        parse(body(Token::NotIf)),
        Ok(Elem::E(E::SwitchOrRight(Rc::new(E::CheckSig(a)), Rc::new(F::CheckSig(b)))))
    );
}

#[test]
fn cascade_and_reads_back() {
    let a = key(3);
    let toks = cat(vec![
        vec![Token::Pubkey(a), Token::CheckSig, Token::NotIf, Token::Number(0), Token::Else],
        csv(5),
        vec![Token::ZeroNotEqual, Token::EndIf],
    ]);
    assert_eq!(parse(toks), Ok(Elem::E(E::CascadeAnd(Rc::new(E::CheckSig(a)), Rc::new(F::Time(5))))));
}

#[test]
fn likely_and_unlikely_read_back() {
    let a = key(4);
    let body = |open: Token| {
        vec![
            open, Token::Pubkey(a), Token::CheckSigVerify, Token::Number(1), Token::Else, Token::Number(0),
            Token::EndIf,
        ]
    };
    assert_eq!(parse(body(Token::NotIf)), Ok(Elem::E(E::Likely(Rc::new(F::CheckSig(a))))));
    assert_eq!(parse(body(Token::If)), Ok(Elem::E(E::Unlikely(Rc::new(F::CheckSig(a))))));
}

#[test]
fn parallel_or_reads_back() {
    let a = key(5);
    let toks = cat(vec![
        vec![Token::Pubkey(a), Token::CheckSig, Token::Swap, Token::Dup, Token::If],
        csv(4),
        vec![Token::Drop, Token::EndIf, Token::BoolOr],
    ]);
    assert_eq!(parse(toks), Ok(Elem::E(E::ParallelOr(Rc::new(E::CheckSig(a)), Rc::new(W::Time(4))))));
}

#[test]
fn f_switch_and_cascades_read_back() {
    let (a, b) = (key(6), key(7));
    let toks = cat(vec![
        vec![Token::If],
        csv(1),
        vec![Token::ZeroNotEqual, Token::Else],
        csv(2),
        vec![Token::ZeroNotEqual, Token::EndIf],
    ]);
    assert_eq!(parse(toks), Ok(Elem::F(F::SwitchOr(Rc::new(F::Time(1)), Rc::new(F::Time(2))))));

    let toks = vec![
        Token::Pubkey(a), Token::CheckSig, Token::NotIf, Token::Pubkey(b), Token::CheckSigVerify, Token::EndIf,
        Token::Number(1),
    ];
    assert_eq!(parse(toks), Ok(Elem::F(F::CascadeOr(Rc::new(E::CheckSig(a)), Rc::new(V::CheckSig(b))))));

    let toks = vec![
        Token::If, Token::Pubkey(a), Token::CheckSigVerify, Token::Else, Token::Pubkey(b), Token::CheckSigVerify,
        Token::EndIf, Token::Number(1),
    ];
    assert_eq!(parse(toks), Ok(Elem::F(F::SwitchOrV(Rc::new(V::CheckSig(a)), Rc::new(V::CheckSig(b))))));
}

#[test]
fn v_switches_and_cascade_read_back() {
    let (a, b) = (key(8), key(9));
    let toks = cat(vec![vec![Token::If], csv(1), vec![Token::Else], csv(2), vec![Token::EndIf, Token::Verify]]);
    assert_eq!(parse(toks), Ok(Elem::V(V::SwitchOrT(Rc::new(T::Time(1)), Rc::new(T::Time(2))))));

    let toks = vec![
        Token::If, Token::Pubkey(a), Token::CheckSigVerify, Token::Else, Token::Pubkey(b), Token::CheckSigVerify,
        Token::EndIf,
    ];
    assert_eq!(parse(toks), Ok(Elem::V(V::SwitchOr(Rc::new(V::CheckSig(a)), Rc::new(V::CheckSig(b))))));

    let toks = vec![
        Token::Pubkey(a), Token::CheckSig, Token::NotIf, Token::Pubkey(b), Token::CheckSigVerify, Token::EndIf,
    ];
    assert_eq!(parse(toks), Ok(Elem::V(V::CascadeOr(Rc::new(E::CheckSig(a)), Rc::new(V::CheckSig(b))))));
}

#[test]
fn t_switch_and_cascade_read_back() {
    let a = key(10);
    let h = Sha256dHash { bytes: [0x11; 32] };
    let toks = cat(vec![
        vec![Token::If],
        csv(1),
        vec![Token::Else, Token::Size, Token::Number(32), Token::EqualVerify, Token::Sha256, Token::Sha256Hash(h)],
        vec![Token::Equal, Token::EndIf],
    ]);
    assert_eq!(parse(toks), Ok(Elem::T(T::SwitchOr(Rc::new(T::Time(1)), Rc::new(T::HashEqual(h))))));

    let toks = cat(vec![
        vec![Token::Pubkey(a), Token::CheckSig, Token::IfDup, Token::NotIf],
        csv(3),
        vec![Token::EndIf],
    ]);
    assert_eq!(parse(toks), Ok(Elem::T(T::CascadeOr(Rc::new(E::CheckSig(a)), Rc::new(T::Time(3))))));
}

#[test]
fn and_chains_read_back() {
    let (a, b) = (key(11), key(12));
    let toks = cat(vec![vec![Token::Pubkey(a), Token::CheckSigVerify], csv(3), vec![Token::ZeroNotEqual]]);
    assert_eq!(parse(toks), Ok(Elem::F(F::And(Rc::new(V::CheckSig(a)), Rc::new(F::Time(3))))));

    let toks = cat(vec![vec![Token::Pubkey(a), Token::CheckSigVerify], csv(3), vec![Token::Drop]]);
    assert_eq!(parse(toks), Ok(Elem::V(V::And(Rc::new(V::CheckSig(a)), Rc::new(V::Time(3))))));

    // a switch of two `V`s, then a timelock
    let toks = cat(vec![
        vec![
            Token::If, Token::Pubkey(a), Token::CheckSigVerify, Token::Else, Token::Pubkey(b), Token::CheckSigVerify,
            Token::EndIf,
        ],
        csv(5),
    ]);
    let left = V::SwitchOr(Rc::new(V::CheckSig(a)), Rc::new(V::CheckSig(b)));
    assert_eq!(parse(toks), Ok(Elem::T(T::And(Rc::new(left), Rc::new(T::Time(5))))));
}

#[test]
fn cascade_or_of_two_expressions_reads_as_t() {
    // `E::CascadeOr` and `T::CascadeOr` share their script; the parser
    // answers with the `T`, its second part a cast expression.
    let (a, b) = (key(13), key(14));
    let toks = vec![
        Token::Pubkey(a), Token::CheckSig, Token::IfDup, Token::NotIf, Token::Pubkey(b), Token::CheckSig,
        Token::EndIf,
    ];
    let right = T::CastE(E::CheckSig(b));
    assert_eq!(parse(toks), Ok(Elem::T(T::CascadeOr(Rc::new(E::CheckSig(a)), Rc::new(right)))));
}

#[test]
fn cast_expression_in_the_alt_stack_reads_back() {
    let a = key(15);
    let toks = vec![Token::ToAltStack, Token::Pubkey(a), Token::CheckSig, Token::FromAltStack];
    assert_eq!(parse(toks), Ok(Elem::W(W::CastE(Rc::new(E::CheckSig(a))))));
    // what the alt stack holds must be an expression
    let toks = vec![Token::ToAltStack, Token::Pubkey(a), Token::CheckSigVerify, Token::FromAltStack];
    assert!(parse(toks).is_err());
}

#[test]
fn thresholds_read_back_parts_in_script_order() {
    let (a, b) = (key(16), key(17));
    // thres(1, pk(a), pk(b), time(4)) as an `E`
    let toks = cat(vec![
        vec![Token::Pubkey(a), Token::CheckSig],
        vec![Token::Swap, Token::Pubkey(b), Token::CheckSig, Token::Add],
        vec![Token::Swap, Token::Dup, Token::If],
        csv(4),
        vec![Token::Drop, Token::EndIf, Token::Add, Token::Number(1), Token::Equal],
    ]);
    assert_eq!(
        parse(toks),
        Ok(Elem::E(E::Threshold(1, Rc::new(E::CheckSig(a)), vec![Rc::new(W::CheckSig(b)), Rc::new(W::Time(4))])))
    );
}

#[test]
fn thresholds_without_wrapped_parts_of_each_kind() {
    let a = key(18);
    let v = vec![Token::Pubkey(a), Token::CheckSig, Token::Number(1), Token::EqualVerify];
    assert_eq!(parse(v.clone()), Ok(Elem::V(V::Threshold(1, Rc::new(E::CheckSig(a)), vec![]))));
    let mut f = v;
    f.push(Token::Number(1));
    assert_eq!(parse(f), Ok(Elem::F(F::Threshold(1, Rc::new(E::CheckSig(a)), vec![]))));
    let e = vec![Token::Pubkey(a), Token::CheckSig, Token::Number(1), Token::Equal];
    assert_eq!(parse(e), Ok(Elem::E(E::Threshold(1, Rc::new(E::CheckSig(a)), vec![]))));
}

#[test]
fn v_and_f_thresholds_read_back_their_wrapped_parts() {
    let (a, b) = (key(19), key(20));
    let v = vec![
        Token::Pubkey(a), Token::CheckSig, Token::Swap, Token::Pubkey(b), Token::CheckSig, Token::Add,
        Token::Number(1), Token::EqualVerify,
    ];
    let parts = vec![Rc::new(W::CheckSig(b))];
    assert_eq!(parse(v.clone()), Ok(Elem::V(V::Threshold(1, Rc::new(E::CheckSig(a)), parts.clone()))));
    let mut f = v;
    f.push(Token::Number(1));
    assert_eq!(parse(f), Ok(Elem::F(F::Threshold(1, Rc::new(E::CheckSig(a)), parts))));
}

#[test]
fn wrapped_cast_reads_back() {
    let (a, b) = (key(6), key(7));
    // E.and_p(pk(a), W(pk(b) cast)): <a> CHECKSIG TOALTSTACK <b> CHECKSIG FROMALTSTACK BOOLAND
    let toks = vec![
        Token::Pubkey(a), Token::CheckSig, Token::ToAltStack, Token::Pubkey(b), Token::CheckSig,
        Token::FromAltStack, Token::BoolAnd,
    ];
    assert_eq!(
        parse(toks),
        Ok(Elem::E(E::ParallelAnd(Rc::new(E::CheckSig(a)), Rc::new(W::CastE(Rc::new(E::CheckSig(b)))))))
    );
    // a threshold whose wrapped part is a cast parallel `and`
    let inner = E::ParallelAnd(Rc::new(E::CheckSig(b)), Rc::new(W::Time(3)));
    let toks = cat(vec![
        vec![Token::Pubkey(a), Token::CheckSig, Token::ToAltStack, Token::Pubkey(b), Token::CheckSig],
        vec![Token::Swap, Token::Dup, Token::If],
        csv(3),
        vec![Token::Drop, Token::EndIf, Token::BoolAnd, Token::FromAltStack, Token::Add],
        vec![Token::Number(2), Token::Equal],
    ]);
    assert_eq!(
        parse(toks),
        Ok(Elem::E(E::Threshold(
            2,
            Rc::new(E::CheckSig(a)),
            vec![Rc::new(W::CastE(Rc::new(inner)))]
        )))
    );
}
