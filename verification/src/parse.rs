//! The script parser: from the tokens of a script, read from its end, to
//! script fragments.

use std::rc::Rc;
use vstd::prelude::*;
use crate::ast::{E, W, F, V, T, Instr, key_instrs, ws_instrs, lemma_ws_instrs_prepend, ws_same};
use crate::elem::{AstElem, Elem, lemma_cast_t_keeps_script};
use crate::error::Error;
use crate::expression::refused_with;
use crate::canon::{
    multisig_tokens, hash_tokens, small, ends_well, lemma_canon_ends, lemma_switch_last, lemma_concat_last,
    ws_tokens, ws_canon, lemma_ws_canon, ws_sized,
};
use crate::keys::PublicKey;
use crate::lex::{
    Token, TokenIter, token_instr, toks_instrs, is_prefix, consumed, lemma_consumed_trans,
    lemma_consumed_none, lemma_consumed_last, token_text,
};
use crate::script::{
    script_bytes, OP_0NOTEQUAL, OP_BOOLAND, OP_BOOLOR, OP_CHECKMULTISIG, OP_CHECKMULTISIGVERIFY,
    OP_CHECKSIG, OP_CHECKSIGVERIFY, OP_CSV, OP_DROP, OP_ELSE, OP_ENDIF, OP_EQUAL, OP_EQUALVERIFY,
    OP_FROMALTSTACK, OP_VERIFY,
};

verus! {

/// `old` was read down to `new`, and the tokens taken, followed by the
/// instructions `done` of tokens taken before, are the script of `x`.
pub open spec fn reads(old: Seq<Token>, new: Seq<Token>, x: Elem, done: Seq<Instr<PublicKey>>) -> bool {
    &&& is_prefix(new, old)
    &&& consumed(old, new) + done == x.instrs()
}

/// The instructions of two lists of tokens, one after the other.
proof fn lemma_toks_instrs_concat()
    ensures
        forall|a: Seq<Token>, b: Seq<Token>| #[trigger] toks_instrs(a + b) == toks_instrs(a) + toks_instrs(b),
{
    assert forall|a: Seq<Token>, b: Seq<Token>| #[trigger] toks_instrs(a + b) == toks_instrs(a) + toks_instrs(b) by {
        assert(toks_instrs(a + b) =~= toks_instrs(a) + toks_instrs(b));
    }
}

/// The tokens of a key list are its script.
proof fn lemma_keys_script(pks: Seq<PublicKey>)
    ensures
        toks_instrs(pks.map_values(|p: PublicKey| Token::Pubkey(p))) == key_instrs(pks),
{
    assert(toks_instrs(pks.map_values(|p: PublicKey| Token::Pubkey(p))) =~= key_instrs(pks));
}

/// The tokens of a fragment are its script: the parser's view of a
/// fragment and its serialization agree, for every fragment whose numbers
/// fit in its tokens.
pub proof fn lemma_tokens_script(x: Elem)
    requires
        x.sized(),
    ensures
        toks_instrs(x.tokens()) == x.instrs(),
{
    match x {
        Elem::E(e) => lemma_e_script(&e),
        Elem::W(w) => lemma_w_script(&w),
        Elem::F(f) => lemma_f_script(&f),
        Elem::V(v) => lemma_v_script(&v),
        Elem::T(t) => lemma_t_script(&t),
    }
}

/// The cascade `or` of kind `E`, `<E> IFDUP NOTIF <E> ENDIF`, has the tokens
/// and the script of the `T` one whose second part is its second part cast
/// to a `T`; with its parts' numbers fitting their tokens, those tokens are
/// its script.
pub proof fn lemma_cascade_or_script(l: Rc<E<PublicKey>>, r: Rc<E<PublicKey>>)
    ensures
        E::CascadeOr(l, r).tokens() == T::CascadeOr(l, Rc::new(T::CastE(*r))).tokens(),
        E::CascadeOr(l, r).instrs() == T::CascadeOr(l, Rc::new(T::CastE(*r))).instrs(),
        l.sized() && r.sized() ==> toks_instrs(E::CascadeOr(l, r).tokens()) == E::CascadeOr(l, r).instrs(),
{
    let x = E::CascadeOr(l, r);
    assert(T::CastE(*r).tokens() == r.tokens());
    assert(T::CastE(*r).instrs() == r.instrs());
    assert(x.tokens() =~= T::CascadeOr(l, Rc::new(T::CastE(*r))).tokens());
    assert(x.instrs() =~= T::CascadeOr(l, Rc::new(T::CastE(*r))).instrs());
    if l.sized() && r.sized() {
        lemma_e_script(&x);
    }
}

/// The tokens of wrapped parts the parser reads back stand for their script.
proof fn lemma_ws_script(ws: Seq<Rc<W<PublicKey>>>)
    requires
        ws_sized(ws),
    ensures
        toks_instrs(ws_tokens(ws)) == ws_instrs(ws),
    decreases ws,
{
    lemma_toks_instrs_concat();
    if ws.len() > 0 {
        let p = ws.subrange(0, ws.len() - 1);
        lemma_ws_script(p);
        let w = ws.last();
        lemma_w_script(&w);
        assert(toks_instrs(ws_tokens(ws)) =~= ws_instrs(ws));
    } else {
        assert(toks_instrs(ws_tokens(ws)) =~= ws_instrs(ws));
    }
}

/// The tokens of a `W` of the forms read back stand for its script.
proof fn lemma_w_script(w: &W<PublicKey>)
    requires
        w.sized(),
    ensures
        toks_instrs(w.tokens()) == w.instrs(),
    decreases *w,
{
    lemma_toks_instrs_concat();
    if let W::CastE(e) = w {
        lemma_e_script(e);
    }
    assert(toks_instrs(w.tokens()) =~= w.instrs());
}

/// The tokens of an `E` of the forms read back stand for its script.
#[verifier::spinoff_prover]
#[verifier::rlimit(60)]
proof fn lemma_e_script(e: &E<PublicKey>)
    requires
        e.sized(),
    ensures
        toks_instrs(e.tokens()) == e.instrs(),
    decreases *e,
{
    lemma_toks_instrs_concat();
    match e {
        E::CheckMultiSig(k, pks) => {
            lemma_keys_script(pks@);
        },
        E::Likely(f) => {
            lemma_f_script(f);
        },
        E::CascadeAnd(l, r) => {
            lemma_e_script(l);
            lemma_f_script(r);
        },
        E::SwitchOrLeft(l, r) => {
            lemma_e_script(l);
            lemma_f_script(r);
        },
        E::SwitchOrRight(l, r) => {
            lemma_e_script(l);
            lemma_f_script(r);
        },
        E::Unlikely(f) => {
            lemma_f_script(f);
        },
        E::Threshold(_, l, ws) => {
            lemma_e_script(l);
            lemma_ws_script(ws@);
        },
        E::CascadeOr(l, r) => {
            lemma_e_script(l);
            lemma_e_script(r);
        },
        E::ParallelAnd(l, w) => {
            lemma_e_script(l);
            lemma_w_script(w);
        },
        E::ParallelOr(l, w) => {
            lemma_e_script(l);
            lemma_w_script(w);
        },
        _ => {},
    }
    assert(toks_instrs(e.tokens()) =~= e.instrs());
}

/// The tokens of an `F` of the forms read back stand for its script.
#[verifier::spinoff_prover]
#[verifier::rlimit(60)]
proof fn lemma_f_script(f: &F<PublicKey>)
    requires
        f.sized(),
    ensures
        toks_instrs(f.tokens()) == f.instrs(),
    decreases *f,
{
    lemma_toks_instrs_concat();
    match f {
        F::CheckMultiSig(k, pks) => {
            lemma_keys_script(pks@);
        },
        F::And(l, r) => {
            lemma_v_script(l);
            lemma_f_script(r);
        },
        F::SwitchOr(l, r) => {
            lemma_f_script(l);
            lemma_f_script(r);
        },
        F::CascadeOr(l, r) => {
            lemma_e_script(l);
            lemma_v_script(r);
        },
        F::SwitchOrV(l, r) => {
            lemma_v_script(l);
            lemma_v_script(r);
        },
        F::Threshold(_, l, ws) => {
            lemma_e_script(l);
            lemma_ws_script(ws@);
        },
        _ => {},
    }
    assert(toks_instrs(f.tokens()) =~= f.instrs());
}

/// The tokens of a `V` of the forms read back stand for its script.
#[verifier::spinoff_prover]
#[verifier::rlimit(60)]
proof fn lemma_v_script(v: &V<PublicKey>)
    requires
        v.sized(),
    ensures
        toks_instrs(v.tokens()) == v.instrs(),
    decreases *v,
{
    lemma_toks_instrs_concat();
    match v {
        V::CheckMultiSig(k, pks) => {
            lemma_keys_script(pks@);
        },
        V::And(l, r) => {
            lemma_v_script(l);
            lemma_v_script(r);
        },
        V::SwitchOr(l, r) => {
            lemma_v_script(l);
            lemma_v_script(r);
        },
        V::CascadeOr(l, r) => {
            lemma_e_script(l);
            lemma_v_script(r);
        },
        V::SwitchOrT(l, r) => {
            lemma_t_script(l);
            lemma_t_script(r);
        },
        V::Threshold(_, l, ws) => {
            lemma_e_script(l);
            lemma_ws_script(ws@);
        },
        _ => {},
    }
    assert(toks_instrs(v.tokens()) =~= v.instrs());
}

/// The tokens of a `T` of the forms read back stand for its script.
proof fn lemma_t_script(t: &T<PublicKey>)
    requires
        t.sized(),
    ensures
        toks_instrs(t.tokens()) == t.instrs(),
    decreases *t,
{
    lemma_toks_instrs_concat();
    match t {
        T::And(l, r) => {
            lemma_v_script(l);
            lemma_t_script(r);
        },
        T::SwitchOr(l, r) => {
            lemma_t_script(l);
            lemma_t_script(r);
        },
        T::CascadeOr(l, r) => {
            lemma_e_script(l);
            lemma_t_script(r);
        },
        T::ParallelOr(l, r) => {
            lemma_e_script(l);
            lemma_w_script(r);
        },
        T::CascadeOrV(l, r) => {
            lemma_e_script(l);
            lemma_v_script(r);
        },
        T::SwitchOrV(l, r) => {
            lemma_v_script(l);
            lemma_v_script(r);
        },
        T::CastE(e) => {
            lemma_e_script(e);
        },
        _ => {},
    }
    assert(toks_instrs(t.tokens()) =~= t.instrs());
}

/// The token `j` places before the last one.
pub open spec fn from_end(s: Seq<Token>, j: int) -> Token {
    s[s.len() - 1 - j]
}

/// What is left of `s` once its last `j` tokens are taken.
pub open spec fn cut(s: Seq<Token>, j: int) -> Seq<Token> {
    s.subrange(0, s.len() - j)
}

/// Nothing precedes, or a token that opens a branch or a cast to `W`: where
/// the parser stops joining fragments with `and`.
pub open spec fn stops(before: Seq<Token>) -> bool {
    ||| before.len() == 0
    ||| before.last() is If || before.last() is NotIf || before.last() is Else
    ||| before.last() is ToAltStack
}

/// What precedes the tokens of `x` lets them stand alone: anything before a
/// wrapped fragment, and a stop before the other kinds (which the parser
/// would otherwise join, with `and`, to what precedes them).
pub open spec fn fits(x: Elem, before: Seq<Token>) -> bool {
    x is W || stops(before)
}

/// `s` ends with the tokens `q`, from place `n` on.
pub open spec fn shaped(s: Seq<Token>, n: int, q: Seq<Token>) -> bool {
    &&& 0 <= n
    &&& n + q.len() == s.len()
    &&& s.subrange(n, s.len() as int) == q
}

/// `ts` ends with the tokens of `x` from place `n` on, where the parser
/// reads `x` back: `x` is of the forms it reads back, and what precedes its
/// tokens lets them stand alone.
pub open spec fn canon_at(ts: Seq<Token>, x: Elem, n: int) -> bool {
    &&& x.canon()
    &&& shaped(ts, n, x.tokens())
    &&& fits(x, ts.subrange(0, n))
}

/// Every fragment of the forms that the parser reads back, whose tokens end
/// `ts` and stand alone there, is read back: the result is that fragment
/// (see `E::same`), and what is left is what preceded its tokens.
pub open spec fn reads_back(ts: Seq<Token>, left: Seq<Token>, r: Result<Elem, Error>) -> bool {
    forall|x: Elem, n: int| #[trigger] canon_at(ts, x, n) ==> (r matches Ok(y) && y.same(x)) && left == ts.subrange(0, n)
}

/// Two fragments joined by `and`.
pub open spec fn is_and(x: Elem) -> bool {
    x matches Elem::F(F::And(_, _)) || x matches Elem::V(V::And(_, _)) || x matches Elem::T(T::And(_, _))
}

/// The parser reads the tokens of `x` back whatever precedes them.
pub open spec fn closed(x: Elem) -> bool {
    match x {
        Elem::E(_) => false,
        Elem::W(_) => true,
        Elem::F(f) => f.closed(),
        Elem::V(v) => v.closed(),
        Elem::T(t) => t.closed(),
    }
}

/// `ts` ends with the tokens of `x`, not joined by `and`, from place `n` on,
/// and a stop precedes them unless `x` is closed.
spec fn whole_at(ts: Seq<Token>, x: Elem, n: int) -> bool {
    &&& x.canon()
    &&& !is_and(x)
    &&& shaped(ts, n, x.tokens())
    &&& closed(x) || stops(ts.subrange(0, n))
}

/// What a helper of the parser reads back: every fragment, not joined by
/// `and`, whose tokens end `ts` (the helper's tokens and the token taken
/// before it was called).
spec fn reads_whole(ts: Seq<Token>, left: Seq<Token>, r: Result<Elem, Error>) -> bool {
    forall|x: Elem, n: int| #[trigger] whole_at(ts, x, n) ==> (r matches Ok(y) && y.same(x)) && left == ts.subrange(0, n)
}

/// Tokens that end with two parts end with each.
proof fn lemma_shaped_split(s: Seq<Token>, n: int, a: Seq<Token>, b: Seq<Token>)
    requires
        shaped(s, n, a + b),
    ensures
        shaped(s.subrange(0, n + a.len()), n, a),
        shaped(s, n + a.len(), b),
        s.subrange(0, n + a.len()).subrange(0, n) == s.subrange(0, n),
{
    assert(s.subrange(0, n + a.len()).subrange(n, n + a.len()) =~= (a + b).subrange(0, a.len() as int));
    assert((a + b).subrange(0, a.len() as int) =~= a);
    assert(s.subrange(n + a.len(), s.len() as int) =~= (a + b).subrange(a.len() as int, (a + b).len() as int));
    assert((a + b).subrange(a.len() as int, (a + b).len() as int) =~= b);
    assert(s.subrange(0, n + a.len()).subrange(0, n) =~= s.subrange(0, n));
}

/// Tokens that end with a part and `c`: without `c` they end with the part.
proof fn lemma_last_of(s: Seq<Token>, n: int, a: Seq<Token>, c: Token)
    requires
        shaped(s, n, a.push(c)),
    ensures
        s.len() >= 1,
        s.last() == c,
        shaped(s.drop_last(), n, a),
        s.drop_last().subrange(0, n) == s.subrange(0, n),
{
    assert(s.last() == s.subrange(n, s.len() as int)[a.len() as int]);
    assert forall|i: int| 0 <= i < a.len() implies s.drop_last().subrange(n, s.len() - 1)[i] == a[i] by {
        assert(s.subrange(n, s.len() as int)[i] == a.push(c)[i]);
    }
    assert(s.drop_last().subrange(n, s.len() - 1) =~= a);
    assert(s.drop_last().subrange(0, n) =~= s.subrange(0, n));
}

/// Tokens that end with `o` and a part end with the part, after `o`.
proof fn lemma_first_of(s: Seq<Token>, n: int, o: Token, a: Seq<Token>)
    requires
        shaped(s, n, seq![o] + a),
    ensures
        shaped(s, n + 1, a),
        s.subrange(0, n + 1).len() == n + 1,
        s.subrange(0, n + 1).last() == o,
        s.subrange(0, n + 1).drop_last() == s.subrange(0, n),
        (o is If || o is NotIf || o is Else) ==> stops(s.subrange(0, n + 1)),
{
    assert(s.subrange(0, n + 1).last() == s.subrange(n, s.len() as int)[0]);
    assert(s.subrange(n + 1, s.len() as int) =~= s.subrange(n, s.len() as int).subrange(1, a.len() + 1 as int));
    assert((seq![o] + a).subrange(1, a.len() + 1 as int) =~= a);
    assert(s.subrange(0, n + 1).drop_last() =~= s.subrange(0, n));
}

/// Tokens that end with `o`, a part and `c`: without `c` they end with the
/// part, after `o`.
proof fn lemma_open_part(s: Seq<Token>, n: int, o: Token, a: Seq<Token>, c: Token)
    requires
        shaped(s, n, seq![o] + a + seq![c]),
    ensures
        s.len() >= 2,
        s.last() == c,
        shaped(s.drop_last(), n + 1, a),
        s.drop_last().subrange(0, n + 1).len() == n + 1,
        s.drop_last().subrange(0, n + 1).last() == o,
        s.drop_last().subrange(0, n + 1).drop_last() == s.subrange(0, n),
{
    let q = seq![o] + a + seq![c];
    assert(s.last() == s.subrange(n, s.len() as int)[q.len() - 1]);
    assert forall|i: int| 0 <= i < a.len() implies s.drop_last().subrange(n + 1, s.len() - 1)[i] == a[i] by {
        assert(s.subrange(n, s.len() as int)[1 + i] == q[1 + i]);
    }
    assert(s.drop_last().subrange(n + 1, s.len() - 1) =~= a);
    assert(s.drop_last().subrange(0, n + 1).last() == s.subrange(n, s.len() as int)[0]);
    assert(s.drop_last().subrange(0, n + 1).drop_last() =~= s.subrange(0, n));
}

/// Where `s` followed by `tok` ends with the tokens of a whole fragment,
/// its last token is `tok`, and its others end `s`, place by place.
proof fn lemma_whole_before(s: Seq<Token>, tok: Token, x: Elem, n: int)
    requires
        whole_at(s.push(tok), x, n),
    ensures
        x.tokens().len() >= 1,
        x.tokens().last() == tok,
        shaped(s, n, x.tokens().drop_last()),
        forall|i: int| n <= i < s.len() ==> #[trigger] s[i] == x.tokens()[i - n],
        closed(x) || stops(s.subrange(0, n)),
        s.push(tok).subrange(0, n) == s.subrange(0, n),
{
    lemma_canon_ends(x);
    let ts = s.push(tok);
    let lt = x.tokens();
    assert(lt.last() == ts.subrange(n, ts.len() as int)[lt.len() - 1]);
    assert forall|i: int| n <= i < s.len() implies #[trigger] s[i] == lt[i - n] by {
        assert(ts.subrange(n, ts.len() as int)[i - n] == ts[i]);
    }
    assert(s.subrange(n, s.len() as int) =~= lt.drop_last());
    assert(ts.subrange(0, n) =~= s.subrange(0, n));
}

/// The `V` whose tokens, followed by `1`, are those of the `F` `x`.
spec fn v_under(x: Elem) -> Elem {
    match x {
        Elem::F(F::CheckSig(pk)) => Elem::V(V::CheckSig(pk)),
        Elem::F(F::CheckMultiSig(k, pks)) => Elem::V(V::CheckMultiSig(k, pks)),
        Elem::F(F::HashEqual(h)) => Elem::V(V::HashEqual(h)),
        Elem::F(F::Threshold(k, e, ws)) => Elem::V(V::Threshold(k, e, ws)),
        Elem::F(F::CascadeOr(l, r)) => Elem::V(V::CascadeOr(l, r)),
        Elem::F(F::SwitchOrV(l, r)) => Elem::V(V::SwitchOr(l, r)),
        _ => x,
    }
}

/// The fragments whose last token is `1`: an `F` from a `V`, whose tokens
/// end those of `s`.
proof fn lemma_one_whole(s: Seq<Token>, x: Elem, n: int)
    requires
        whole_at(s.push(Token::Number(1)), x, n),
    ensures
        s.push(Token::Number(1)).subrange(0, n) == s.subrange(0, n),
        x is F,
        canon_at(s, v_under(x), n),
{
    lemma_whole_before(s, Token::Number(1), x, n);
    assert(x.tokens().drop_last() =~= v_under(x).tokens());
}

/// Taking the last token shifts the places counted from the end.
proof fn lemma_from_end_drop(s: Seq<Token>)
    requires
        s.len() > 0,
    ensures
        forall|j: int| 0 <= j < s.len() - 1 ==> #[trigger] from_end(s.drop_last(), j) == from_end(s, j + 1),
        forall|j: int| 0 <= j < s.len() ==> #[trigger] cut(s.drop_last(), j) == cut(s, j + 1),
{
    assert forall|j: int| 0 <= j < s.len() implies #[trigger] cut(s.drop_last(), j) == cut(s, j + 1) by {
        assert(cut(s.drop_last(), j) =~= cut(s, j + 1));
    }
}

/// `s` ends with a timelock check as a branch: `DUP IF <m> CSV DROP`.
spec fn time_shape(s: Seq<Token>, m: u32) -> bool {
    &&& s.len() >= 5
    &&& from_end(s, 0) == Token::Drop
    &&& from_end(s, 1) == Token::CheckSequenceVerify
    &&& from_end(s, 2) == Token::Number(m)
    &&& from_end(s, 3) == Token::If
    &&& from_end(s, 4) == Token::Dup
}

/// The fragment `e` as one of any kind.
spec fn ee(e: &E<PublicKey>) -> Elem {
    Elem::E(*e)
}

/// The fragment `f` as one of any kind.
spec fn ef(f: &F<PublicKey>) -> Elem {
    Elem::F(*f)
}

/// The fragment `v` as one of any kind.
spec fn ev(v: &V<PublicKey>) -> Elem {
    Elem::V(*v)
}

/// The fragment `t` as one of any kind.
spec fn et(t: &T<PublicKey>) -> Elem {
    Elem::T(*t)
}

/// The fragment `w` as one of any kind.
spec fn ew(w: &W<PublicKey>) -> Elem {
    Elem::W(*w)
}

/// Tokens that end with a part `p`, closed by `ELSE` or `NOTIF`, and the
/// tokens of `r`: `r` stands alone there, and the tokens before it end
/// with `p`.
proof fn lemma_part_then(s: Seq<Token>, n: int, p: Seq<Token>, r: Elem)
    requires
        shaped(s, n, p + r.tokens()),
        r.canon(),
        p.len() >= 1,
        p.last() is Else || p.last() is NotIf,
    ensures
        canon_at(s, r, n + p.len()),
        shaped(s.subrange(0, n + p.len()), n, p),
        s.subrange(0, n + p.len()).subrange(0, n) == s.subrange(0, n),
        s.len() >= 1,
        s.last() == r.tokens().last(),
        ends_well(r),
{
    lemma_shaped_split(s, n, p, r.tokens());
    lemma_canon_ends(r);
    assert(s.subrange(0, n + p.len()).last() == s.subrange(0, n + p.len()).subrange(n, n + p.len())[p.len() - 1]);
    assert(s.last() == s.subrange(n + p.len(), s.len() as int)[r.tokens().len() - 1]);
}

/// The fragments whose last token is `ENDIF`, and what their tokens before
/// it are, as the parser looks for them.
#[verifier::spinoff_prover]
#[verifier::rlimit(100)]
proof fn lemma_endif_whole(s: Seq<Token>, x: Elem, n: int)
    requires
        whole_at(s.push(Token::EndIf), x, n),
    ensures
        s.push(Token::EndIf).subrange(0, n) == s.subrange(0, n),
        match x {
            Elem::E(E::Time(m)) => time_shape(s, m) && n == s.len() - 5 && !(s.len() >= 6 && from_end(s, 5) is Swap),
            Elem::W(W::Time(m)) => time_shape(s, m) && n == s.len() - 6 && s.len() >= 6 && from_end(s, 5) is Swap,
            Elem::W(W::HashEqual(h)) => from_end(s, 0) == Token::Number(1) && canon_at(s, Elem::F(F::HashEqual(h)), n + 4)
                && s.subrange(n, n + 4) == seq![Token::Swap, Token::Size, Token::ZeroNotEqual, Token::If],
            Elem::E(E::Likely(f)) => s.len() >= 1 && s.last() == Token::Number(0) && shaped(
                s.drop_last(),
                n,
                seq![Token::NotIf] + f.tokens() + seq![Token::Else],
            ) && f.canon(),
            Elem::E(E::Unlikely(f)) => s.len() >= 1 && s.last() == Token::Number(0) && shaped(
                s.drop_last(),
                n,
                seq![Token::If] + f.tokens() + seq![Token::Else],
            ) && f.canon(),
            Elem::V(V::SwitchOr(a, b)) => {
                let p = (seq![Token::If] + a.tokens()).push(Token::Else);
                &&& s.len() >= 1 && !(s.last() is Drop) && s.last() != Token::Number(0)
                &&& canon_at(s, Elem::V(*b), n + p.len())
                &&& shaped(s.subrange(0, n + p.len()), n, p)
                &&& a.canon()
            },
            Elem::V(V::CascadeOr(e, v)) => {
                let p = e.tokens().push(Token::NotIf);
                &&& s.len() >= 1 && !(s.last() is Drop) && s.last() != Token::Number(0)
                &&& canon_at(s, Elem::V(*v), n + p.len())
                &&& shaped(s.subrange(0, n + p.len()), n, p)
                &&& e.canon()
                &&& stops(s.subrange(0, n))
            },
            Elem::E(E::CascadeAnd(l, f)) => {
                let p = l.tokens().push(Token::NotIf).push(Token::Number(0)).push(Token::Else);
                &&& s.len() >= 1 && !(s.last() is Drop) && s.last() != Token::Number(0)
                &&& canon_at(s, Elem::F(*f), n + p.len())
                &&& shaped(s.subrange(0, n + p.len()), n, p)
                &&& l.canon()
                &&& stops(s.subrange(0, n))
            },
            Elem::E(E::SwitchOrLeft(l, f)) => {
                let p = (seq![Token::If] + l.tokens()).push(Token::Else);
                &&& s.len() >= 1 && !(s.last() is Drop) && s.last() != Token::Number(0)
                &&& canon_at(s, Elem::F(*f), n + p.len())
                &&& shaped(s.subrange(0, n + p.len()), n, p)
                &&& l.canon()
            },
            Elem::E(E::SwitchOrRight(l, f)) => {
                let p = (seq![Token::NotIf] + l.tokens()).push(Token::Else);
                &&& s.len() >= 1 && !(s.last() is Drop) && s.last() != Token::Number(0)
                &&& canon_at(s, Elem::F(*f), n + p.len())
                &&& shaped(s.subrange(0, n + p.len()), n, p)
                &&& l.canon()
            },
            Elem::F(F::SwitchOr(a, b)) => {
                let p = (seq![Token::If] + a.tokens()).push(Token::Else);
                &&& s.len() >= 1 && !(s.last() is Drop) && s.last() != Token::Number(0)
                &&& canon_at(s, Elem::F(*b), n + p.len())
                &&& shaped(s.subrange(0, n + p.len()), n, p)
                &&& a.canon()
            },
            Elem::T(T::SwitchOr(a, b)) => {
                let p = (seq![Token::If] + a.tokens()).push(Token::Else);
                &&& s.len() >= 1 && !(s.last() is Drop) && s.last() != Token::Number(0)
                &&& canon_at(s, Elem::T(*b), n + p.len())
                &&& shaped(s.subrange(0, n + p.len()), n, p)
                &&& a.canon()
            },
            Elem::T(T::CascadeOr(e, t)) => {
                let p = e.tokens().push(Token::IfDup).push(Token::NotIf);
                &&& s.len() >= 1 && !(s.last() is Drop) && s.last() != Token::Number(0)
                &&& canon_at(s, Elem::T(*t), n + p.len())
                &&& shaped(s.subrange(0, n + p.len()), n, p)
                &&& e.canon()
                &&& stops(s.subrange(0, n))
            },
            _ => false,
        },
{
    lemma_whole_before(s, Token::EndIf, x, n);
    match x {
        Elem::V(V::SwitchOr(a, b)) => {
            assert(x.tokens().drop_last() =~= (seq![Token::If] + a.tokens()).push(Token::Else) + b.tokens());
            lemma_part_then(s, n, (seq![Token::If] + ev(&a).tokens()).push(Token::Else), ev(&b));
        },
        Elem::V(V::CascadeOr(e, v)) => {
            assert(x.tokens().drop_last() =~= e.tokens().push(Token::NotIf) + v.tokens());
            lemma_part_then(s, n, ee(&e).tokens().push(Token::NotIf), ev(&v));
        },
        Elem::E(E::CascadeAnd(l, f)) => {
            assert(x.tokens().drop_last() =~= l.tokens().push(Token::NotIf).push(Token::Number(0)).push(Token::Else)
                + f.tokens());
            lemma_part_then(s, n, ee(&l).tokens().push(Token::NotIf).push(Token::Number(0)).push(Token::Else), ef(&f));
        },
        Elem::E(E::SwitchOrLeft(l, f)) => {
            assert(x.tokens().drop_last() =~= (seq![Token::If] + l.tokens()).push(Token::Else) + f.tokens());
            lemma_part_then(s, n, (seq![Token::If] + ee(&l).tokens()).push(Token::Else), ef(&f));
        },
        Elem::E(E::SwitchOrRight(l, f)) => {
            assert(x.tokens().drop_last() =~= (seq![Token::NotIf] + l.tokens()).push(Token::Else) + f.tokens());
            lemma_part_then(s, n, (seq![Token::NotIf] + ee(&l).tokens()).push(Token::Else), ef(&f));
        },
        Elem::F(F::SwitchOr(a, b)) => {
            assert(x.tokens().drop_last() =~= (seq![Token::If] + a.tokens()).push(Token::Else) + b.tokens());
            lemma_part_then(s, n, (seq![Token::If] + ef(&a).tokens()).push(Token::Else), ef(&b));
        },
        Elem::T(T::SwitchOr(a, b)) => {
            assert(x.tokens().drop_last() =~= (seq![Token::If] + a.tokens()).push(Token::Else) + b.tokens());
            lemma_part_then(s, n, (seq![Token::If] + et(&a).tokens()).push(Token::Else), et(&b));
        },
        Elem::T(T::CascadeOr(e, t)) => {
            assert(x.tokens().drop_last() =~= e.tokens().push(Token::IfDup).push(Token::NotIf) + t.tokens());
            lemma_part_then(s, n, ee(&e).tokens().push(Token::IfDup).push(Token::NotIf), et(&t));
        },
        Elem::E(E::Likely(f)) => {
            assert(s.drop_last().subrange(n, s.len() - 1) =~= seq![Token::NotIf] + f.tokens() + seq![Token::Else]);
        },
        Elem::E(E::Unlikely(f)) => {
            assert(s.drop_last().subrange(n, s.len() - 1) =~= seq![Token::If] + f.tokens() + seq![Token::Else]);
        },
        _ => {},
    }
    if let Elem::W(W::HashEqual(h)) = x {
        let f = Elem::F(F::HashEqual(h));
        assert(s.subrange(n + 4, s.len() as int) =~= f.tokens());
        assert(s.subrange(0, n + 4).last() == s[n + 3]);
        assert(canon_at(s, f, n + 4));
        assert(s.subrange(n, n + 4) =~= seq![Token::Swap, Token::Size, Token::ZeroNotEqual, Token::If]);
    }
    if let Elem::E(E::Time(m)) = x {
        if s.len() >= 6 {
            assert(from_end(s, 5) == s.subrange(0, n).last());
        }
    }
}

/// `s`, then `VERIFY`, ends with the tokens of `x` from place `n` on,
/// `x` a switch of two `T`s: what each step of the parser finds of it.
spec fn verify_steps(s: Seq<Token>, x: Elem, n: int) -> bool {
    &&& s.push(Token::Verify).subrange(0, n) == s.subrange(0, n)
    &&& x matches Elem::V(V::SwitchOrT(a, b)) && {
            let q = n + 2 + a.tokens().len();
            let s1 = s.drop_last();
            let s2 = s1.subrange(0, q);
            let s3 = s2.drop_last();
            &&& s.len() >= 1 && s.last() == Token::EndIf
            &&& canon_at(s1, Elem::T(*b), q)
            &&& s2.len() >= 1 && s2.last() == Token::Else
            &&& canon_at(s3, Elem::T(*a), n + 1)
            &&& s3.subrange(0, n + 1).len() >= 1 && s3.subrange(0, n + 1).last() == Token::If
            &&& s3.subrange(0, n + 1).drop_last() == s.subrange(0, n)
        }
}

/// The fragments whose last token is `VERIFY`: a switch of two `T`s.
#[verifier::spinoff_prover]
#[verifier::rlimit(60)]
proof fn lemma_verify_whole(s: Seq<Token>, x: Elem, n: int)
    requires
        whole_at(s.push(Token::Verify), x, n),
    ensures
        verify_steps(s, x, n),
{
    lemma_whole_before(s, Token::Verify, x, n);
    lemma_switch_last();
    lemma_concat_last();
    if let Elem::V(V::SwitchOrT(a, b)) = x {
        let ghost p = (seq![Token::If] + et(&a).tokens()).push(Token::Else);
        assert(x.tokens().drop_last() =~= (p + b.tokens()).push(Token::EndIf));
        lemma_last_of(s, n, p + et(&b).tokens(), Token::EndIf);
        lemma_part_then(s.drop_last(), n, p, et(&b));
        lemma_last_of(s.drop_last().subrange(0, n + p.len()), n, seq![Token::If] + et(&a).tokens(), Token::Else);
        lemma_first_of(s.drop_last().subrange(0, n + p.len()).drop_last(), n, Token::If, et(&a).tokens());
    } else {
        assert(false);
    }
}

/// Where `t` ends with the tokens of a whole fragment: which token ends
/// them, and what the tokens before it are, as the parser's helpers look for
/// them.
#[verifier::spinoff_prover]
#[verifier::rlimit(60)]
proof fn lemma_whole_dispatch(t: Seq<Token>, x: Elem, n: int)
    requires
        whole_at(t, x, n),
    ensures
        t.len() > 0,
        t == t.drop_last().push(t.last()),
        n <= t.len() - 1,
        t.subrange(0, n) == cut(t.drop_last(), t.len() - 1 - n),
        ({
            let s = t.drop_last();
            match x {
                Elem::E(E::CheckSig(pk)) => t.last() == Token::CheckSig && from_end(s, 0) == Token::Pubkey(pk) && n == s.len() - 1
                    && !(s.len() >= 2 && from_end(s, 1) is Swap),
                Elem::W(W::CheckSig(pk)) => t.last() == Token::CheckSig && from_end(s, 0) == Token::Pubkey(pk) && n == s.len() - 2
                    && s.len() >= 2 && from_end(s, 1) is Swap,
                Elem::V(V::CheckSig(pk)) => t.last() == Token::CheckSigVerify && from_end(s, 0) == Token::Pubkey(pk) && n == s.len()
                    - 1,
                Elem::E(E::CheckMultiSig(k, pks)) => t.last() == Token::CheckMultiSig && ends_with_keys(s, k, pks@) && n == s.len()
                    - pks@.len() - 2,
                Elem::V(V::CheckMultiSig(k, pks)) => t.last() == Token::CheckMultiSigVerify && ends_with_keys(s, k, pks@) && n
                    == s.len() - pks@.len() - 2,
                Elem::F(F::Time(m)) => t.last() == Token::ZeroNotEqual && s.len() >= 2 && from_end(s, 0) == Token::CheckSequenceVerify
                    && from_end(s, 1) == Token::Number(m) && n == s.len() - 2,
                Elem::V(V::Time(m)) => t.last() == Token::Drop && s.len() >= 2 && from_end(s, 0) == Token::CheckSequenceVerify
                    && from_end(s, 1) == Token::Number(m) && n == s.len() - 2,
                Elem::T(T::Time(m)) => t.last() == Token::CheckSequenceVerify && from_end(s, 0) == Token::Number(m) && n == s.len()
                    - 1,
                Elem::T(T::HashEqual(h)) => t.last() == Token::Equal && s.len() >= 5 && from_end(s, 0) == Token::Sha256Hash(h)
                    && s.subrange(s.len() - 5, s.len() as int) == hash_tokens(h) && n == s.len() - 5,
                Elem::V(V::HashEqual(h)) => t.last() == Token::EqualVerify && s.len() >= 5 && from_end(s, 0) == Token::Sha256Hash(h)
                    && s.subrange(s.len() - 5, s.len() as int) == hash_tokens(h) && n == s.len() - 5,
                Elem::F(F::SwitchOr(_, _)) => t.last() == Token::EndIf,
                Elem::F(_) => t.last() == Token::Number(1),
                Elem::V(V::SwitchOrT(_, _)) => t.last() == Token::Verify,
                Elem::E(E::Threshold(_, _, _)) => t.last() == Token::Equal,
                Elem::V(V::Threshold(_, _, _)) => t.last() == Token::EqualVerify,
                Elem::E(E::ParallelAnd(_, _)) => t.last() == Token::BoolAnd,
                Elem::E(E::ParallelOr(_, _)) => t.last() == Token::BoolOr,
                Elem::W(W::CastE(_)) => t.last() == Token::FromAltStack,
                _ => t.last() == Token::EndIf,
            }
        }),
{
    let s = t.drop_last();
    lemma_switch_last();
    lemma_concat_last();
    assert(t.len() > 0) by {
        lemma_canon_ends(x);
        if t.len() == 0 {
            assert(t.subrange(n, 0) =~= Seq::<Token>::empty());
        }
    }
    assert(t =~= s.push(t.last()));
    lemma_whole_before(s, t.last(), x, n);
    assert(t.subrange(0, n) =~= cut(s, t.len() - 1 - n));
    match x {
        Elem::E(E::CheckMultiSig(k, pks)) => {
            assert(s.subrange(s.len() - pks@.len() - 2, s.len() as int) =~= multisig_tokens(k, pks@));
        },
        Elem::V(V::CheckMultiSig(k, pks)) => {
            assert(s.subrange(s.len() - pks@.len() - 2, s.len() as int) =~= multisig_tokens(k, pks@));
        },
        Elem::T(T::HashEqual(h)) => {
            assert(s.subrange(s.len() - 5, s.len() as int) =~= hash_tokens(h));
        },
        Elem::V(V::HashEqual(h)) => {
            assert(s.subrange(s.len() - 5, s.len() as int) =~= hash_tokens(h));
        },
        Elem::E(E::CheckSig(pk)) => {
            if s.len() >= 2 {
                assert(from_end(s, 1) == t.subrange(0, n).last());
            }
        },
        _ => {},
    }
}

/// The script parser reads back what serialization writes. Whatever
/// fragment the parser returns, the tokens it took stand for exactly that
/// fragment's script: serializing the fragment gives the bytes of those
/// tokens.
pub proof fn lemma_parse_reads_script(old: Seq<Token>, new: Seq<Token>, x: Elem)
    requires
        reads(old, new, x, Seq::empty()),
    ensures
        toks_instrs(old.subrange(new.len() as int, old.len() as int)) == x.instrs(),
        script_bytes(x.instrs()) == script_bytes(toks_instrs(old.subrange(new.len() as int, old.len() as int))),
{
    assert(consumed(old, new) + Seq::<Instr<PublicKey>>::empty() =~= consumed(old, new));
}

/// `z` is `ret` after the `V` `l`, joined by `and`.
spec fn joined(z: Elem, l: V<PublicKey>, ret: Elem) -> bool {
    match ret {
        Elem::T(t) => z matches Elem::T(T::And(l2, t2)) && l2.same(l) && *t2 == t,
        Elem::F(f) => z matches Elem::F(F::And(l2, f2)) && l2.same(l) && *f2 == f,
        Elem::V(v) => z matches Elem::V(V::And(l2, v2)) && l2.same(l) && *v2 == v,
        _ => false,
    }
}

/// Where `t` ends with the tokens of a fragment that the parser reads back:
/// a whole fragment, or two joined by `and`, the second whole and closed,
/// the first a `V` read back from what precedes the second.
proof fn lemma_canon_split(t: Seq<Token>, x: Elem, n: int)
    requires
        canon_at(t, x, n),
    ensures
        !is_and(x) ==> whole_at(t, x, n),
        x matches Elem::F(F::And(l, r)) ==> whole_at(t, Elem::F(*r), n + l.tokens().len()) && canon_at(
            t.subrange(0, n + l.tokens().len()),
            Elem::V(*l),
            n,
        ) && !stops(t.subrange(0, n + l.tokens().len())),
        x matches Elem::V(V::And(l, r)) ==> whole_at(t, Elem::V(*r), n + l.tokens().len()) && canon_at(
            t.subrange(0, n + l.tokens().len()),
            Elem::V(*l),
            n,
        ) && !stops(t.subrange(0, n + l.tokens().len())),
        x matches Elem::T(T::And(l, r)) ==> whole_at(t, Elem::T(*r), n + l.tokens().len()) && canon_at(
            t.subrange(0, n + l.tokens().len()),
            Elem::V(*l),
            n,
        ) && !stops(t.subrange(0, n + l.tokens().len())),
{
    match x {
        Elem::F(F::And(l, r)) => {
            lemma_shaped_split(t, n, ev(&l).tokens(), ef(&r).tokens());
            l.lemma_ends();
            assert(t.subrange(0, n + l.tokens().len()).last() == t.subrange(n, t.len() as int)[l.tokens().len() - 1]);
        },
        Elem::V(V::And(l, r)) => {
            lemma_shaped_split(t, n, ev(&l).tokens(), ev(&r).tokens());
            l.lemma_ends();
            assert(t.subrange(0, n + l.tokens().len()).last() == t.subrange(n, t.len() as int)[l.tokens().len() - 1]);
        },
        Elem::T(T::And(l, r)) => {
            lemma_shaped_split(t, n, ev(&l).tokens(), et(&r).tokens());
            l.lemma_ends();
            assert(t.subrange(0, n + l.tokens().len()).last() == t.subrange(n, t.len() as int)[l.tokens().len() - 1]);
        },
        _ => {},
    }
}

/// The tokens with which the script of a fragment can end.
pub open spec fn ends_fragment(t: Token) -> bool {
    ||| t is BoolAnd || t is BoolOr || t is Equal || t is EqualVerify
    ||| t is CheckSig || t is CheckSigVerify || t is CheckMultiSig || t is CheckMultiSigVerify
    ||| t is ZeroNotEqual || t is CheckSequenceVerify || t is FromAltStack || t is Drop
    ||| t is EndIf || t is Verify || t == Token::Number(1)
}

/// Parse a subexpression that is -not- a wexpr (wexpr is special-cased
/// to avoid splitting expr into expr0 and exprn in the AST structure).
///
/// On success the tokens taken off the end are exactly the script of the
/// fragment returned (see `E::instrs`). Where the tokens end with those of a
/// fragment of the forms that it reads back (see `E::canon`), standing alone
/// there, that fragment is what comes back, and the tokens before it are
/// what is left (see `reads_back`). A script whose last token ends no
/// fragment is refused with that token's text, and one that ends with a `V`
/// of no `F` form, then `1`, with that `V`'s text.
pub fn parse_subexpression(tokens: &mut TokenIter) -> (r: Result<Elem, Error>)
    ensures
        final(tokens)@.len() <= old(tokens)@.len(),
        old(tokens)@.len() == 0 ==> r == Err::<Elem, Error>(Error::UnexpectedStart),
        r matches Ok(x) ==> final(tokens)@.len() < old(tokens)@.len() && reads(
            old(tokens)@,
            final(tokens)@,
            x,
            Seq::empty(),
        ),
        reads_back(old(tokens)@, final(tokens)@, r),
        r matches Ok(x) && x is E ==> stops(final(tokens)@),
        old(tokens)@.len() > 0 && old(tokens)@.last() == Token::Number(1) ==> forall|v: V<PublicKey>, n: int| #[trigger]
            canon_at(old(tokens)@.drop_last(), Elem::V(v), n) && !lifts_to_f(v) ==> refused_with(r, v.display()),
        old(tokens)@.len() > 0 && !ends_fragment(old(tokens)@.last()) ==> refused_with(
            r,
            token_text(old(tokens)@.last()),
        ),
    decreases old(tokens)@.len(), 0nat,
{
    if let Some(tok) = tokens.next() {
        tokens.un_next(tok);
    }
    proof {
        assert(tokens@ =~= old(tokens)@);
    }
    let ghost t0 = tokens@;
    let ret: Result<Elem, Error> = match tokens.next() {
        None => {
            proof {
                assert forall|x: Elem, n: int| #[trigger] canon_at(t0, x, n) implies false by {
                    lemma_canon_split(t0, x, n);
                    lemma_canon_ends(x);
                }
            }
            return Err(Error::UnexpectedStart);
        },
        Some(tok) => {
            proof {
                lemma_consumed_last(t0);
            }
            let ghost d = seq![token_instr(tok)];
            match tok {
                Token::BoolAnd => parse_parallel(tokens, true, Ghost(d)),
                Token::BoolOr => parse_parallel(tokens, false, Ghost(d)),
                Token::Equal => parse_equal(tokens, Ghost(d)),
                Token::EqualVerify => parse_equal_verify(tokens, Ghost(d)),
                Token::CheckSig => parse_checksig(tokens, Ghost(d)),
                Token::CheckSigVerify => parse_checksig_verify(tokens, Ghost(d)),
                Token::CheckMultiSig => parse_multisig(tokens, false, Ghost(d)),
                Token::CheckMultiSigVerify => parse_multisig(tokens, true, Ghost(d)),
                Token::ZeroNotEqual => parse_time_f(tokens, Ghost(d)),
                Token::CheckSequenceVerify => parse_time_t(tokens, Ghost(d)),
                Token::FromAltStack => parse_cast_w(tokens, Ghost(d)),
                Token::Drop => parse_time_v(tokens, Ghost(d)),
                Token::EndIf => parse_endif(tokens, Ghost(d)),
                Token::Verify => parse_verify(tokens, Ghost(d)),
                Token::Number(1) => parse_f_from_v(tokens, Ghost(d)),
                _ => Err(Error::Unexpected(tok.to_string())),
            }
        },
    };
    let ghost t1 = tokens@;
    proof {
        assert forall|x: Elem, n: int| #[trigger] whole_at(t0, x, n) implies (ret matches Ok(y) && y.same(x))
            && t1 == t0.subrange(0, n) by {
            lemma_whole_dispatch(t0, x, n);
        }
    }
    match ret {
        Err(e) => {
            proof {
                assert forall|x: Elem, n: int| #[trigger] canon_at(t0, x, n) implies false by {
                    lemma_canon_split(t0, x, n);
                }
            }
            Err(e)
        },
        Ok(ret) => {
            proof {
                lemma_consumed_trans(t0, t0.drop_last(), t1);
                lemma_consumed_none(t1);
                assert(consumed(t1, t1) + ret.instrs() =~= ret.instrs());
            }
            let r = and_tail(tokens, ret);
            let ghost t2 = tokens@;
            proof {
                if r is Ok {
                    lemma_consumed_trans(t0, t1, t2);
                    assert(consumed(t0, t2) =~= consumed(t0, t2) + Seq::<Instr<PublicKey>>::empty());
                }
                assert forall|x: Elem, n: int| #[trigger] canon_at(t0, x, n) implies (r matches Ok(y) && y.same(x)) && t2
                    == t0.subrange(0, n) by {
                    lemma_canon_split(t0, x, n);
                }
            }
            r
        },
    }
}

/// After a `T`, `F` or `V` fragment: where more of the script comes before
/// it (other than the branch tokens `IF`, `NOTIF` and `ELSE`), that is a `V`
/// fragment joined to it by `and_p`.
fn and_tail(tokens: &mut TokenIter, ret: Elem) -> (r: Result<Elem, Error>)
    ensures
        final(tokens)@.len() <= old(tokens)@.len(),
        r matches Ok(x) ==> reads(old(tokens)@, final(tokens)@, x, ret.instrs()),
        ret is W || stops(old(tokens)@) ==> r == Ok::<Elem, Error>(ret) && final(tokens)@ == old(tokens)@,
        r matches Ok(x) && x is E ==> stops(final(tokens)@),
        closed(ret) && !(ret is W) && !stops(old(tokens)@) ==> forall|l: V<PublicKey>, m: int| #[trigger] canon_at(
            old(tokens)@,
            Elem::V(l),
            m,
        ) ==> (r matches Ok(z) && joined(z, l, ret)) && final(tokens)@ == old(tokens)@.subrange(0, m),
    decreases old(tokens)@.len(), 1nat,
{
    let ghost t0 = tokens@;
    proof {
        lemma_consumed_none(t0);
        assert(consumed(t0, t0) + ret.instrs() =~= ret.instrs());
    }
    if ret.is_t() || ret.is_f() || ret.is_v() {
        let stop = match tokens.peek() {
            None => true,
            Some(t) => match t {
                Token::If | Token::NotIf | Token::Else | Token::ToAltStack => true,
                _ => false,
            },
        };
        if stop {
            Ok(ret)
        } else {
            let sub = parse_subexpression(tokens)?;
            let left = sub.into_v()?;
            let ghost t1 = tokens@;
            proof {
                assert(consumed(t0, t1) == (*left).instrs()) by {
                    assert(consumed(t0, t1) =~= consumed(t0, t1) + Seq::<Instr<PublicKey>>::empty());
                }
            }
            if ret.is_t() {
                proof {
                    lemma_cast_t_keeps_script(ret);
                }
                let right = ret.into_t().unwrap();
                Ok(Elem::T(T::And(left, right)))
            } else if ret.is_f() {
                let right = ret.into_f().unwrap();
                Ok(Elem::F(F::And(left, right)))
            } else {
                let right = ret.into_v().unwrap();
                Ok(Elem::V(V::And(left, right)))
            }
        }
    } else {
        Ok(ret)
    }
}

/// `s`, then the token that joins two parts side by side (`BOOLAND` where
/// `and`, else `BOOLOR`), ends with the tokens of `x` from place `n` on:
/// what each step of the parser finds of it.
spec fn parallel_steps(s: Seq<Token>, x: Elem, n: int, and: bool) -> bool {
    &&& s.push(if and { Token::BoolAnd } else { Token::BoolOr }).subrange(0, n) == s.subrange(0, n)
    &&& match x {
        Elem::E(E::ParallelAnd(l, w)) => and && parallel_parts(s, *l, *w, n),
        Elem::E(E::ParallelOr(l, w)) => !and && parallel_parts(s, *l, *w, n),
        _ => false,
    }
}

/// `s` ends with the tokens of `l`, then those of `w`, from place `n` on,
/// each where the parser reads it back.
spec fn parallel_parts(s: Seq<Token>, l: E<PublicKey>, w: W<PublicKey>, n: int) -> bool {
    let q = n + l.tokens().len();
    &&& canon_at(s, Elem::W(w), q)
    &&& canon_at(s.subrange(0, q), Elem::E(l), n)
    &&& s.subrange(0, q).subrange(0, n) == s.subrange(0, n)
}

/// The fragments whose last token is `BOOLAND` or `BOOLOR`: two parts side
/// by side.
#[verifier::spinoff_prover]
#[verifier::rlimit(40)]
proof fn lemma_parallel_whole(s: Seq<Token>, x: Elem, n: int, and: bool)
    requires
        whole_at(s.push(if and { Token::BoolAnd } else { Token::BoolOr }), x, n),
    ensures
        parallel_steps(s, x, n, and),
{
    let tok = if and { Token::BoolAnd } else { Token::BoolOr };
    lemma_whole_before(s, tok, x, n);
    lemma_switch_last();
    lemma_concat_last();
    lemma_canon_ends(x);
    match x {
        Elem::E(E::ParallelAnd(l, w)) => {
            assert(x.tokens().drop_last() =~= l.tokens() + w.tokens());
            lemma_shaped_split(s, n, ee(&l).tokens(), ew(&w).tokens());
        },
        Elem::E(E::ParallelOr(l, w)) => {
            assert(x.tokens().drop_last() =~= l.tokens() + w.tokens());
            lemma_shaped_split(s, n, ee(&l).tokens(), ew(&w).tokens());
        },
        _ => {},
    }
}

/// After `BOOLAND` or `BOOLOR`: a wrapped part, then an expression.
fn parse_parallel(tokens: &mut TokenIter, and: bool, Ghost(done): Ghost<Seq<Instr<PublicKey>>>) -> (r:
    Result<Elem, Error>)
    requires
        done == seq![Instr::<PublicKey>::Op(if and { OP_BOOLAND } else { OP_BOOLOR })],
    ensures
        final(tokens)@.len() <= old(tokens)@.len(),
        r matches Ok(x) ==> reads(old(tokens)@, final(tokens)@, x, done),
        reads_whole(old(tokens)@.push(if and { Token::BoolAnd } else { Token::BoolOr }), final(tokens)@, r),
    decreases old(tokens)@.len(), 1nat,
{
    let ghost t0 = tokens@;
    let ghost ts = t0.push(if and { Token::BoolAnd } else { Token::BoolOr });
    proof {
        assert forall|x: Elem, n: int| #[trigger] whole_at(ts, x, n) implies parallel_steps(t0, x, n, and) by {
            lemma_parallel_whole(t0, x, n, and);
        }
    }
    let sub = parse_subexpression(tokens);
    let ghost t1 = tokens@;
    let sub = match sub {
        Ok(sub) => sub,
        Err(e) => {
            return Err(e);
        },
    };
    if sub.is_w() {
        let wexpr = sub.into_w().unwrap();
        let sub2 = parse_subexpression(tokens);
        let ghost t2 = tokens@;
        let sub2 = match sub2 {
            Ok(sub2) => sub2,
            Err(e) => {
                return Err(e);
            },
        };
        if sub2.is_e() {
            let expr = sub2.into_e().unwrap();
            let x = if and {
                Elem::E(E::ParallelAnd(expr, wexpr))
            } else {
                Elem::E(E::ParallelOr(expr, wexpr))
            };
            proof {
                lemma_consumed_trans(t0, t1, t2);
                assert(consumed(t0, t2) + done =~= x.instrs());
            }
            Ok(x)
        } else {
            Err(Error::Unexpected(sub2.to_string()))
        }
    } else {
        Err(Error::Unexpected(sub.to_string()))
    }
}

/// The tokens of wrapped parts, split at place `m`.
proof fn lemma_ws_tokens_split(ws: Seq<Rc<W<PublicKey>>>, m: int)
    requires
        0 <= m <= ws.len(),
    ensures
        ws_tokens(ws) == ws_tokens(ws.subrange(0, m)) + ws_tokens(ws.subrange(m, ws.len() as int)),
    decreases ws.len(),
{
    if m == ws.len() {
        assert(ws.subrange(0, m) =~= ws);
        assert(ws_tokens(ws.subrange(m, ws.len() as int)) =~= Seq::<Token>::empty());
        assert(ws_tokens(ws) =~= ws_tokens(ws.subrange(0, m)) + Seq::<Token>::empty());
    } else {
        let p = ws.subrange(0, ws.len() - 1);
        lemma_ws_tokens_split(p, m);
        let q = ws.subrange(m, ws.len() as int);
        assert(p.subrange(0, m) =~= ws.subrange(0, m));
        assert(q.subrange(0, q.len() - 1) =~= p.subrange(m, p.len() as int));
        assert(q.last() == ws.last());
        assert(ws_tokens(ws) =~= ws_tokens(ws.subrange(0, m)) + ws_tokens(q));
    }
}

/// Wrapped parts that are the same, each with one more that is the same.
proof fn lemma_ws_same_push(a: Seq<Rc<W<PublicKey>>>, b: Seq<Rc<W<PublicKey>>>, x: Rc<W<PublicKey>>, y: Rc<W<PublicKey>>)
    requires
        ws_same(a, b),
        x.same(*y),
    ensures
        ws_same(a.push(x), b.push(y)),
{
    assert(a.push(x).subrange(0, a.len() as int) =~= a);
    assert(b.push(y).subrange(0, b.len() as int) =~= b);
}

/// The threshold `x`, whose tokens end `ts` (from place `n` on, up to its
/// `EQUAL` or `EQUALVERIFY`), as the parser takes it: it has taken the
/// wrapped parts after the first `m`, last first, into `got`, and `cur` is
/// what is left.
spec fn thr_state(ts: Seq<Token>, x: Elem, n: int, cur: Seq<Token>, got: Seq<Rc<W<PublicKey>>>) -> bool {
    &&& thr_parts(x) matches Some((e, ws)) && {
        let m = ws.len() - got.len();
        &&& got.len() <= ws.len()
        &&& cur == ts.subrange(0, n + e.tokens().len() + ws_tokens(ws.subrange(0, m)).len())
        &&& ws_same(got, ws.subrange(m, ws.len() as int).reverse())
    }
}

/// A `V` threshold.
spec fn v_threshold(x: Elem) -> bool {
    x matches Elem::V(V::Threshold(_, _, _))
}

/// The expression and wrapped parts of a threshold.
spec fn thr_parts(x: Elem) -> Option<(E<PublicKey>, Seq<Rc<W<PublicKey>>>)> {
    match x {
        Elem::E(E::Threshold(_, e, ws)) => Some((*e, ws@)),
        Elem::V(V::Threshold(_, e, ws)) => Some((*e, ws@)),
        _ => None,
    }
}

/// The threshold of a threshold.
spec fn thr_k(x: Elem) -> usize {
    match x {
        Elem::E(E::Threshold(k, _, _)) => k,
        Elem::V(V::Threshold(k, _, _)) => k,
        _ => 0,
    }
}

/// The fragments whose tokens, ending with `EQUAL` (where `eq`) or
/// `EQUALVERIFY`, are those of a threshold: what the parser finds first.
#[verifier::spinoff_prover]
#[verifier::rlimit(60)]
proof fn lemma_thr_start(s: Seq<Token>, x: Elem, n: int, eq: bool)
    requires
        whole_at(s.push(if eq { Token::Equal } else { Token::EqualVerify }), x, n),
        if eq { x is E } else { v_threshold(x) },
    ensures
        thr_parts(x) is Some,
        s.len() > 0,
        thr_k(x) <= u32::MAX,
        s.last() == Token::Number(thr_k(x) as u32),
        thr_state(s.push(if eq { Token::Equal } else { Token::EqualVerify }), x, n, s.drop_last(), Seq::empty()),
{
    let tok = if eq { Token::Equal } else { Token::EqualVerify };
    let ts = s.push(tok);
    lemma_whole_before(s, tok, x, n);
    lemma_switch_last();
    lemma_concat_last();
    lemma_canon_ends(x);
    match x {
        Elem::E(E::Threshold(k, e, ws)) => {
            let q = ee(&e).tokens() + ws_tokens(ws@);
            assert(x.tokens().drop_last() =~= q.push(Token::Number(k as u32)));
            lemma_last_of(s, n, q, Token::Number(k as u32));
            assert(ws@.subrange(0, ws@.len() as int) =~= ws@);
            assert(ws@.subrange(ws@.len() as int, ws@.len() as int).reverse() =~= Seq::<Rc<W<PublicKey>>>::empty());
            assert(s.drop_last() =~= ts.subrange(0, n + q.len()));
        },
        Elem::V(V::Threshold(k, e, ws)) => {
            let q = ee(&e).tokens() + ws_tokens(ws@);
            assert(x.tokens().drop_last() =~= q.push(Token::Number(k as u32)));
            lemma_last_of(s, n, q, Token::Number(k as u32));
            assert(ws@.subrange(0, ws@.len() as int) =~= ws@);
            assert(ws@.subrange(ws@.len() as int, ws@.len() as int).reverse() =~= Seq::<Rc<W<PublicKey>>>::empty());
            assert(s.drop_last() =~= ts.subrange(0, n + q.len()));
        },
        _ => {},
    }
}

/// One step of taking a threshold: where wrapped parts are left, an `ADD`
/// and then the last of them; else the expression.
#[verifier::spinoff_prover]
#[verifier::rlimit(60)]
proof fn lemma_thr_step(ts: Seq<Token>, x: Elem, n: int, cur: Seq<Token>, got: Seq<Rc<W<PublicKey>>>)
    requires
        whole_at(ts, x, n),
        thr_state(ts, x, n, cur, got),
    ensures
        thr_parts(x) matches Some((e, ws)) && {
            let m = ws.len() - got.len();
            let p = n + e.tokens().len() + ws_tokens(ws.subrange(0, m - 1)).len();
            &&& cur.len() > 0
            &&& m > 0 ==> cur.last() == Token::Add && canon_at(cur.drop_last(), Elem::W(*ws[m - 1]), p)
                && cur.drop_last().subrange(0, p) == ts.subrange(0, p)
                && thr_state(ts, x, n, ts.subrange(0, p), got.push(ws[m - 1]))
            &&& m == 0 ==> !(cur.last() is Add) && canon_at(cur, Elem::E(e), n) && cur.subrange(0, n) == ts.subrange(0, n)
        },
{
    lemma_concat_last();
    let (e, ws) = thr_parts(x).unwrap();
    let m = ws.len() - got.len();
    assert(x.canon());
    assert(e.canon());
    assert(ws_canon(ws));
    lemma_ws_canon(ws);
    lemma_ws_tokens_split(ws, m);
    let q = e.tokens() + ws_tokens(ws.subrange(0, m));
    let k = thr_k(x);
    let last = if x is E { Token::Equal } else { Token::EqualVerify };
    assert(x.tokens() =~= q + (ws_tokens(ws.subrange(m, ws.len() as int)) + seq![Token::Number(k as u32), last]));
    lemma_shaped_split(ts, n, q, ws_tokens(ws.subrange(m, ws.len() as int)) + seq![Token::Number(k as u32), last]);
    assert(cur == ts.subrange(0, n + q.len()));
    e.lemma_ends();
    if m > 0 {
        let wp = ws.subrange(0, m);
        let w = ws[m - 1];
        assert(wp.subrange(0, wp.len() - 1) =~= ws.subrange(0, m - 1));
        assert(wp.last() == w);
        assert(ws_canon(ws) ==> ws[m - 1].canon());
        let a = e.tokens() + ws_tokens(ws.subrange(0, m - 1));
        assert(q =~= (a + w.tokens()).push(Token::Add));
        lemma_last_of(cur, n, a + ew(&w).tokens(), Token::Add);
        lemma_shaped_split(cur.drop_last(), n, a, ew(&w).tokens());
        assert(cur.drop_last().subrange(0, n + a.len()) =~= ts.subrange(0, n + a.len()));
        assert(cur.drop_last().subrange(0, n + a.len()).last() == cur.drop_last().subrange(n, n + a.len()).last());
        w.lemma_same_refl();
        lemma_ws_same_push(got, ws.subrange(m, ws.len() as int).reverse(), w, w);
        assert(ws.subrange(m - 1, ws.len() as int).reverse() =~= ws.subrange(m, ws.len() as int).reverse().push(w));
        assert(ws.len() - got.push(w).len() == m - 1);
    } else {
        assert(ws.subrange(0, 0) =~= Seq::<Rc<W<PublicKey>>>::empty());
        assert(q =~= e.tokens());
        lemma_canon_ends(Elem::E(e));
        assert(cur.subrange(0, n) =~= ts.subrange(0, n));
        assert(cur.last() == cur.subrange(n, cur.len() as int).last());
    }
}

/// A threshold of kind `E` (where `eq`) or `V`.
spec fn thr_kind(x: Elem, eq: bool) -> bool {
    if eq {
        x is E
    } else {
        v_threshold(x)
    }
}

/// Wrapped parts that are the same are the same one by one.
proof fn lemma_ws_same_index(a: Seq<Rc<W<PublicKey>>>, b: Seq<Rc<W<PublicKey>>>)
    ensures
        ws_same(a, b) <==> (a.len() == b.len() && forall|i: int| 0 <= i < a.len() ==> #[trigger] a[i].same(*b[i])),
    decreases a.len(),
{
    if a.len() > 0 {
        let a2 = a.subrange(0, a.len() - 1);
        let b2 = b.subrange(0, b.len() - 1);
        lemma_ws_same_index(a2, b2);
        if a.len() == b.len() && forall|i: int| 0 <= i < a.len() ==> #[trigger] a[i].same(*b[i]) {
            assert forall|i: int| 0 <= i < a2.len() implies #[trigger] a2[i].same(*b2[i]) by {
                assert(a[i].same(*b[i]));
            }
            assert(a[a.len() - 1].same(*b[b.len() - 1]));
        }
        if ws_same(a, b) {
            assert forall|i: int| 0 <= i < a.len() implies #[trigger] a[i].same(*b[i]) by {
                if i < a.len() - 1 {
                    assert(a2[i].same(*b2[i]));
                }
            }
        }
    }
}

/// Wrapped parts the same as others read backwards: reversed, the same as
/// those others.
proof fn lemma_ws_same_reverse(a: Seq<Rc<W<PublicKey>>>, b: Seq<Rc<W<PublicKey>>>)
    requires
        ws_same(a, b.reverse()),
    ensures
        ws_same(a.reverse(), b),
{
    lemma_ws_same_index(a, b.reverse());
    lemma_ws_same_index(a.reverse(), b);
    assert forall|i: int| 0 <= i < a.len() implies #[trigger] a.reverse()[i].same(*b[i]) by {
        assert(a[a.len() - 1 - i].same(*b.reverse()[a.len() - 1 - i]));
    }
}

/// After a threshold's `k` and its `EQUAL` (where `eq`) or `EQUALVERIFY`:
/// the wrapped parts, each after an `ADD`, then the expression. The parser
/// takes the parts from the script's end and gives them in script order.
fn threshold_parts(
    tokens: &mut TokenIter,
    Ghost(ts): Ghost<Seq<Token>>,
    Ghost(eq): Ghost<bool>,
    Ghost(k): Ghost<u32>,
) -> (r: Result<(Rc<E<PublicKey>>, Vec<Rc<W<PublicKey>>>), Error>)
    requires
        ts == old(tokens)@.push(Token::Number(k)).push(if eq { Token::Equal } else { Token::EqualVerify }),
        forall|x: Elem, n: int| #[trigger] whole_at(ts, x, n) && thr_kind(x, eq) ==> thr_k(x) == k && thr_state(
            ts,
            x,
            n,
            old(tokens)@,
            Seq::empty(),
        ),
    ensures
        final(tokens)@.len() <= old(tokens)@.len(),
        r matches Ok((e, ws)) ==> is_prefix(final(tokens)@, old(tokens)@) && consumed(old(tokens)@, final(tokens)@)
            == (*e).instrs() + ws_instrs(ws@),
        forall|x: Elem, n: int| #[trigger] whole_at(ts, x, n) && thr_kind(x, eq) ==> (r matches Ok((e, ws))
            && thr_parts(x) matches Some((xe, xw)) && (*e).same(xe) && ws_same(ws@, xw)) && final(tokens)@
            == ts.subrange(0, n),
    decreases old(tokens)@.len(), 2nat,
{
    let ghost t1 = tokens@;
    proof {
        lemma_consumed_none(t1);
        assert(ws_instrs(Seq::<Rc<W<PublicKey>>>::empty().reverse()) =~= Seq::<Instr<PublicKey>>::empty());
    }
    let mut ws: Vec<Rc<W<PublicKey>>> = Vec::new();
    loop
        invariant
            ts == t1.push(Token::Number(k)).push(if eq { Token::Equal } else { Token::EqualVerify }),
            t1 == old(tokens)@,
            is_prefix(tokens@, t1),
            consumed(t1, tokens@) == ws_instrs(ws@.reverse()),
            forall|x: Elem, n: int| #[trigger] whole_at(ts, x, n) && thr_kind(x, eq) ==> thr_k(x) == k && thr_state(
                ts,
                x,
                n,
                tokens@,
                ws@,
            ),
        decreases tokens@.len(),
    {
        let ghost c0 = tokens@;
        let ghost g0 = ws@;
        proof {
            assert forall|x: Elem, n: int| #[trigger] whole_at(ts, x, n) && thr_kind(x, eq) implies thr_parts(x) matches Some(
                (e, xw),
            ) && {
                let m = xw.len() - g0.len();
                let p = n + e.tokens().len() + ws_tokens(xw.subrange(0, m - 1)).len();
                &&& c0.len() > 0
                &&& m > 0 ==> c0.last() == Token::Add && canon_at(c0.drop_last(), Elem::W(*xw[m - 1]), p)
                    && c0.drop_last().subrange(0, p) == ts.subrange(0, p) && thr_state(
                    ts,
                    x,
                    n,
                    ts.subrange(0, p),
                    g0.push(xw[m - 1]),
                )
                &&& m == 0 ==> !(c0.last() is Add) && canon_at(c0, Elem::E(e), n) && c0.subrange(0, n) == ts.subrange(
                    0,
                    n,
                )
            } by {
                lemma_thr_step(ts, x, n, c0, g0);
            }
        }
        match tokens.next() {
            Some(Token::Add) => {
                let ghost c1 = tokens@;
                let res = parse_subexpression(tokens);
                let ghost c2 = tokens@;
                let next_sub = match res {
                    Ok(next_sub) => next_sub,
                    Err(e) => {
                        return Err(e);
                    },
                };
                if next_sub.is_w() {
                    let w = next_sub.into_w().unwrap();
                    proof {
                        lemma_consumed_last(c0);
                        lemma_consumed_trans(c0, c1, c2);
                        lemma_consumed_trans(t1, c0, c2);
                        assert(consumed(c1, c2) =~= consumed(c1, c2) + Seq::<Instr<PublicKey>>::empty());
                        lemma_ws_instrs_prepend(w, g0.reverse());
                        assert(g0.push(w).reverse() =~= seq![w] + g0.reverse());
                        assert(consumed(t1, c2) =~= ws_instrs(g0.push(w).reverse()));
                        assert forall|x: Elem, n: int| #[trigger] whole_at(ts, x, n) && thr_kind(x, eq) implies thr_k(x) == k
                            && thr_state(ts, x, n, c2, g0.push(w)) by {
                            let (xe, xw) = thr_parts(x).unwrap();
                            let m = xw.len() - g0.len();
                            let p = n + xe.tokens().len() + ws_tokens(xw.subrange(0, m - 1)).len();
                            assert(canon_at(c1, Elem::W(*xw[m - 1]), p));
                            assert(next_sub.same(Elem::W(*xw[m - 1])));
                            lemma_ws_same_push(g0, xw.subrange(m, xw.len() as int).reverse(), w, xw[m - 1]);
                            assert(xw.subrange(m - 1, xw.len() as int).reverse() =~= xw.subrange(
                                m,
                                xw.len() as int,
                            ).reverse().push(xw[m - 1]));
                        }
                    }
                    ws.push(w);
                } else {
                    return Err(Error::Unexpected(next_sub.to_string()));
                }
            },
            Some(x) => {
                tokens.un_next(x);
                proof {
                    assert(tokens@ =~= c0);
                }
                let res = parse_subexpression(tokens);
                let ghost c2 = tokens@;
                let next_sub = match res {
                    Ok(next_sub) => next_sub,
                    Err(e) => {
                        return Err(e);
                    },
                };
                if next_sub.is_e() {
                    let e = next_sub.into_e().unwrap();
                    ws.reverse();
                    proof {
                        lemma_consumed_trans(t1, c0, c2);
                        assert(consumed(c0, c2) =~= consumed(c0, c2) + Seq::<Instr<PublicKey>>::empty());
                        assert(ws@ == g0.reverse());
                        assert(consumed(t1, c2) =~= (*e).instrs() + ws_instrs(ws@));
                        assert forall|x: Elem, n: int| #[trigger] whole_at(ts, x, n) && thr_kind(x, eq) implies (thr_parts(
                            x,
                        ) matches Some((xe, xw)) && (*e).same(xe) && ws_same(ws@, xw)) && c2 == ts.subrange(0, n) by {
                            let (xe, xw) = thr_parts(x).unwrap();
                            assert(xw.subrange(0, xw.len() as int) =~= xw);
                            lemma_ws_same_reverse(g0, xw);
                        }
                    }
                    return Ok((e, ws));
                } else {
                    return Err(Error::Unexpected(next_sub.to_string()));
                }
            },
            None => {
                return Err(Error::UnexpectedStart);
            },
        }
    }
}

/// The head of a helper's contract: `done` is what the caller took before.
/// After `EQUAL`: a hash check, or a threshold of an expression and wrapped
/// parts joined by `ADD`.
fn parse_equal(tokens: &mut TokenIter, Ghost(done): Ghost<Seq<Instr<PublicKey>>>) -> (r: Result<Elem, Error>)
    requires
        done == seq![Instr::<PublicKey>::Op(OP_EQUAL)],
    ensures
        final(tokens)@.len() <= old(tokens)@.len(),
        r matches Ok(x) ==> reads(old(tokens)@, final(tokens)@, x, done),
        old(tokens)@.len() >= 5 ==> (from_end(old(tokens)@, 0) matches Token::Sha256Hash(h) ==> (
        old(tokens)@.subrange(old(tokens)@.len() - 5, old(tokens)@.len() as int) == hash_tokens(h) ==> r == Ok::<Elem, Error>(
            Elem::T(T::HashEqual(h))) && final(tokens)@ == cut(old(tokens)@, 5))),
        forall|x: Elem, n: int| #[trigger] whole_at(old(tokens)@.push(Token::Equal), x, n) && x is E ==> (r matches Ok(
            y,
        ) && y.same(x)) && final(tokens)@ == old(tokens)@.push(Token::Equal).subrange(0, n),
    decreases old(tokens)@.len(), 1nat,
{
    let ghost t0 = tokens@;
    let ghost ts = t0.push(Token::Equal);
    proof {
        assert forall|x: Elem, n: int| #[trigger] whole_at(ts, x, n) && x is E implies thr_parts(x) is Some && t0.len()
            > 0 && thr_k(x) <= u32::MAX && t0.last() == Token::Number(thr_k(x) as u32) && thr_state(
            ts,
            x,
            n,
            t0.drop_last(),
            Seq::empty(),
        ) by {
            lemma_thr_start(t0, x, n, true);
        }
    }
    match tokens.next() {
        Some(Token::Sha256Hash(hash)) => {
            let ghost t1 = tokens@;
            tokens.expect(Token::Sha256)?;
            let ghost t2 = tokens@;
            tokens.expect(Token::EqualVerify)?;
            let ghost t3 = tokens@;
            tokens.expect(Token::Number(32))?;
            let ghost t4 = tokens@;
            tokens.expect(Token::Size)?;
            let ghost t5 = tokens@;
            let x = Elem::T(T::HashEqual(hash));
            proof {
                lemma_consumed_last(t0);
                lemma_consumed_last(t1);
                lemma_consumed_last(t2);
                lemma_consumed_last(t3);
                lemma_consumed_last(t4);
                lemma_consumed_trans(t0, t1, t2);
                lemma_consumed_trans(t0, t2, t3);
                lemma_consumed_trans(t0, t3, t4);
                lemma_consumed_trans(t0, t4, t5);
                assert(consumed(t0, t5) + done =~= x.instrs());
            }
            Ok(x)
        },
        Some(Token::Number(k)) => {
            let ghost t1 = tokens@;
            proof {
                lemma_consumed_last(t0);
                assert(ts == t1.push(Token::Number(k)).push(Token::Equal));
            }
            let (e, ws) = match threshold_parts(tokens, Ghost(ts), Ghost(true), Ghost(k)) {
                Ok(p) => p,
                Err(e) => {
                    return Err(e);
                },
            };
            let ghost t2 = tokens@;
            let r = Elem::E(E::Threshold(k as usize, e, ws));
            proof {
                lemma_consumed_trans(t0, t1, t2);
                assert(consumed(t0, t2) + done =~= r.instrs());
            }
            Ok(r)
        },
        Some(tok) => Err(Error::Unexpected(tok.to_string())),
        None => Err(Error::UnexpectedStart),
    }
}

/// After `EQUALVERIFY`: a hash check, or a threshold.
fn parse_equal_verify(tokens: &mut TokenIter, Ghost(done): Ghost<Seq<Instr<PublicKey>>>) -> (r: Result<Elem, Error>)
    requires
        done == seq![Instr::<PublicKey>::Op(OP_EQUALVERIFY)],
    ensures
        final(tokens)@.len() <= old(tokens)@.len(),
        r matches Ok(x) ==> reads(old(tokens)@, final(tokens)@, x, done),
        old(tokens)@.len() >= 5 ==> (from_end(old(tokens)@, 0) matches Token::Sha256Hash(h) ==> (
        old(tokens)@.subrange(old(tokens)@.len() - 5, old(tokens)@.len() as int) == hash_tokens(h) ==> r == Ok::<Elem, Error>(
            Elem::V(V::HashEqual(h))) && final(tokens)@ == cut(old(tokens)@, 5))),
        forall|x: Elem, n: int| #[trigger] whole_at(old(tokens)@.push(Token::EqualVerify), x, n) && v_threshold(x) ==> (
        r matches Ok(y) && y.same(x)) && final(tokens)@ == old(tokens)@.push(Token::EqualVerify).subrange(0, n),
    decreases old(tokens)@.len(), 1nat,
{
    let ghost t0 = tokens@;
    let ghost ts = t0.push(Token::EqualVerify);
    proof {
        assert forall|x: Elem, n: int| #[trigger] whole_at(ts, x, n) && v_threshold(x) implies thr_parts(
            x,
        ) is Some && t0.len() > 0 && thr_k(x) <= u32::MAX && t0.last() == Token::Number(thr_k(x) as u32) && thr_state(
            ts,
            x,
            n,
            t0.drop_last(),
            Seq::empty(),
        ) by {
            lemma_thr_start(t0, x, n, false);
        }
    }
    match tokens.next() {
        Some(Token::Sha256Hash(hash)) => {
            let ghost t1 = tokens@;
            tokens.expect(Token::Sha256)?;
            let ghost t2 = tokens@;
            tokens.expect(Token::EqualVerify)?;
            let ghost t3 = tokens@;
            tokens.expect(Token::Number(32))?;
            let ghost t4 = tokens@;
            tokens.expect(Token::Size)?;
            let ghost t5 = tokens@;
            let x = Elem::V(V::HashEqual(hash));
            proof {
                lemma_consumed_last(t0);
                lemma_consumed_last(t1);
                lemma_consumed_last(t2);
                lemma_consumed_last(t3);
                lemma_consumed_last(t4);
                lemma_consumed_trans(t0, t1, t2);
                lemma_consumed_trans(t0, t2, t3);
                lemma_consumed_trans(t0, t3, t4);
                lemma_consumed_trans(t0, t4, t5);
                assert(consumed(t0, t5) + done =~= x.instrs());
            }
            Ok(x)
        },
        Some(Token::Number(k)) => {
            let ghost t1 = tokens@;
            proof {
                lemma_consumed_last(t0);
                assert(ts == t1.push(Token::Number(k)).push(Token::EqualVerify));
            }
            let (e, ws) = match threshold_parts(tokens, Ghost(ts), Ghost(false), Ghost(k)) {
                Ok(p) => p,
                Err(e) => {
                    return Err(e);
                },
            };
            let ghost t2 = tokens@;
            let r = Elem::V(V::Threshold(k as usize, e, ws));
            proof {
                lemma_consumed_trans(t0, t1, t2);
                assert(consumed(t0, t2) + done =~= r.instrs());
            }
            Ok(r)
        },
        Some(tok) => Err(Error::Unexpected(tok.to_string())),
        None => Err(Error::UnexpectedStart),
    }
}

/// After `CHECKSIG`: a key, then a `SWAP` for the wrapped form.
fn parse_checksig(tokens: &mut TokenIter, Ghost(done): Ghost<Seq<Instr<PublicKey>>>) -> (r: Result<Elem, Error>)
    requires
        done == seq![Instr::<PublicKey>::Op(OP_CHECKSIG)],
    ensures
        final(tokens)@.len() <= old(tokens)@.len(),
        r matches Ok(x) ==> reads(old(tokens)@, final(tokens)@, x, done),
        old(tokens)@.len() >= 1 ==> (from_end(old(tokens)@, 0) matches Token::Pubkey(pk) ==> if old(tokens)@.len()
            >= 2 && from_end(old(tokens)@, 1) is Swap {
            r == Ok::<Elem, Error>(Elem::W(W::CheckSig(pk))) && final(tokens)@ == cut(old(tokens)@, 2)
        } else {
            r == Ok::<Elem, Error>(Elem::E(E::CheckSig(pk))) && final(tokens)@ == cut(old(tokens)@, 1)
        }),
    decreases old(tokens)@.len(), 1nat,
{
    let ghost t0 = tokens@;
    match tokens.next() {
        Some(Token::Pubkey(pk)) => {
            let ghost t1 = tokens@;
            proof {
                lemma_consumed_last(t0);
            }
            match tokens.next() {
                Some(Token::Swap) => {
                    let ghost t2 = tokens@;
                    let x = Elem::W(W::CheckSig(pk));
                    proof {
                        lemma_consumed_last(t1);
                        lemma_consumed_trans(t0, t1, t2);
                        assert(consumed(t0, t2) + done =~= x.instrs());
                    }
                    Ok(x)
                },
                Some(x) => {
                    tokens.un_next(x);
                    proof {
                        assert(tokens@ =~= t1);
                    }
                    let r = Elem::E(E::CheckSig(pk));
                    proof {
                        assert(consumed(t0, t1) + done =~= r.instrs());
                    }
                    Ok(r)
                },
                None => {
                    let r = Elem::E(E::CheckSig(pk));
                    proof {
                        assert(consumed(t0, t1) + done =~= r.instrs());
                    }
                    Ok(r)
                },
            }
        },
        Some(tok) => Err(Error::Unexpected(tok.to_string())),
        None => Err(Error::UnexpectedStart),
    }
}

/// After `CHECKSIGVERIFY`: a key.
fn parse_checksig_verify(tokens: &mut TokenIter, Ghost(done): Ghost<Seq<Instr<PublicKey>>>) -> (r: Result<Elem, Error>)
    requires
        done == seq![Instr::<PublicKey>::Op(OP_CHECKSIGVERIFY)],
    ensures
        final(tokens)@.len() <= old(tokens)@.len(),
        r matches Ok(x) ==> reads(old(tokens)@, final(tokens)@, x, done),
        old(tokens)@.len() >= 1 ==> (from_end(old(tokens)@, 0) matches Token::Pubkey(pk) ==> r == Ok::<Elem, Error>(
            Elem::V(V::CheckSig(pk)),
        ) && final(tokens)@ == cut(old(tokens)@, 1)),
{
    let ghost t0 = tokens@;
    match tokens.next() {
        Some(Token::Pubkey(pk)) => {
            let x = Elem::V(V::CheckSig(pk));
            proof {
                lemma_consumed_last(t0);
                assert(consumed(t0, tokens@) + done =~= x.instrs());
            }
            Ok(x)
        },
        Some(tok) => Err(Error::Unexpected(tok.to_string())),
        None => Err(Error::UnexpectedStart),
    }
}

/// `s` ends with the tokens of a key list: `k` signatures of the keys `pks`.
pub open spec fn ends_with_keys(s: Seq<Token>, k: usize, pks: Seq<PublicKey>) -> bool {
    &&& small(k, pks)
    &&& s.len() >= pks.len() + 2
    &&& s.subrange(s.len() - pks.len() - 2, s.len() as int) == multisig_tokens(k, pks)
}

/// Tokens that end with a key list: each place of it.
proof fn lemma_keys_at(s: Seq<Token>, k: usize, pks: Seq<PublicKey>)
    requires
        ends_with_keys(s, k, pks),
    ensures
        from_end(s, 0) == Token::Number(pks.len() as u32),
        from_end(s, (pks.len() + 1) as int) == Token::Number(k as u32),
        forall|j: int| 0 <= j < pks.len() ==> #[trigger] from_end(s, pks.len() - j) == Token::Pubkey(pks[j]),
{
    let m = s.len() - pks.len() - 2;
    let ts = multisig_tokens(k, pks);
    assert(ts.len() == pks.len() + 2);
    assert(s[s.len() - 1] == s.subrange(m, s.len() as int)[pks.len() + 1 as int]);
    assert(s[m] == s.subrange(m, s.len() as int)[0]);
    assert forall|j: int| 0 <= j < pks.len() implies #[trigger] from_end(s, pks.len() - j) == Token::Pubkey(pks[j]) by {
        assert(s[m + 1 + j] == s.subrange(m, s.len() as int)[1 + j]);
        assert(ts[1 + j] == pks.map_values(|p: PublicKey| Token::Pubkey(p))[j]);
    }
}

/// After `CHECKMULTISIG` or `CHECKMULTISIGVERIFY`: the number of keys, the
/// keys (last first), and the number of signatures.
fn parse_multisig(tokens: &mut TokenIter, verify: bool, Ghost(done): Ghost<Seq<Instr<PublicKey>>>) -> (r:
    Result<Elem, Error>)
    requires
        done == seq![Instr::<PublicKey>::Op(if verify { OP_CHECKMULTISIGVERIFY } else { OP_CHECKMULTISIG })],
    ensures
        final(tokens)@.len() <= old(tokens)@.len(),
        r matches Ok(x) ==> reads(old(tokens)@, final(tokens)@, x, done),
        forall|k: usize, pks: Seq<PublicKey>| #[trigger] ends_with_keys(old(tokens)@, k, pks) ==> (r matches Ok(y)
            && if verify {
            y matches Elem::V(V::CheckMultiSig(k2, pks2)) && k2 == k && pks2@ == pks
        } else {
            y matches Elem::E(E::CheckMultiSig(k2, pks2)) && k2 == k && pks2@ == pks
        }) && final(tokens)@ == cut(old(tokens)@, pks.len() + 2 as int),
{
    let ghost t0 = tokens@;
    let n = match tokens.next() {
        Some(Token::Number(n)) => n,
        Some(tok) => {
            proof {
                assert forall|k: usize, pks: Seq<PublicKey>| ends_with_keys(t0, k, pks) implies false by {
                    lemma_keys_at(t0, k, pks);
                }
            }
            return Err(Error::Unexpected(tok.to_string()));
        },
        None => return Err(Error::UnexpectedStart),
    };
    let ghost t1 = tokens@;
    proof {
        lemma_consumed_last(t0);
        lemma_consumed_none(t1);
        assert(key_instrs(Seq::<PublicKey>::empty().reverse()) =~= Seq::<Instr<PublicKey>>::empty());
    }
    let mut pks: Vec<PublicKey> = Vec::new();
    let mut i: u32 = 0;
    while i < n
        invariant
            t0.len() > 0,
            t1 == t0.drop_last(),
            t0 == old(tokens)@,
            consumed(t0, t1) == seq![Instr::<PublicKey>::Int(n as i64)],
            i <= n,
            pks@.len() == i,
            is_prefix(tokens@, t1),
            consumed(t1, tokens@) == key_instrs(pks@.reverse()),
            t0.last() == Token::Number(n),
            i <= t1.len(),
            tokens@ == cut(t1, i as int),
            forall|j: int| 0 <= j < i ==> #[trigger] from_end(t1, j) == Token::Pubkey(pks@[j]),
        decreases n - i,
    {
        let ghost c0 = tokens@;
        match tokens.next() {
            Some(Token::Pubkey(pk)) => {
                proof {
                    lemma_consumed_last(c0);
                    lemma_consumed_trans(t1, c0, tokens@);
                    assert(key_instrs(pks@.push(pk).reverse()) =~= consumed(t1, tokens@));
                    assert(tokens@ =~= cut(t1, i + 1));
                    assert(from_end(t1, i as int) == c0.last());
                }
                pks.push(pk);
            },
            Some(tok) => {
                proof {
                    assert(from_end(t1, i as int) == c0.last());
                    assert forall|k: usize, ks: Seq<PublicKey>| ends_with_keys(t0, k, ks) implies false by {
                        lemma_keys_at(t0, k, ks);
                        assert(from_end(t0, ks.len() - (ks.len() - 1 - i)) == from_end(t1, i as int));
                    }
                }
                return Err(Error::Unexpected(tok.to_string()));
            },
            None => {
                proof {
                    assert forall|k: usize, ks: Seq<PublicKey>| ends_with_keys(t0, k, ks) implies false by {
                        lemma_keys_at(t0, k, ks);
                    }
                }
                return Err(Error::UnexpectedStart);
            },
        }
        i = i + 1;
    }
    let ghost before = pks@;
    pks.reverse();
    proof {
        assert(pks@.reverse() =~= before);
        assert(before.reverse() =~= pks@);
    }
    let ghost t2 = tokens@;
    proof {
        assert forall|j: int| 0 <= j < n implies #[trigger] from_end(t1, n - 1 - j) == Token::Pubkey(pks@[j]) by {
            assert(pks@[j] == before[n - 1 - j]);
        }
    }
    let k = match tokens.next() {
        Some(Token::Number(k)) => k,
        Some(tok) => {
            proof {
                assert forall|k: usize, ks: Seq<PublicKey>| ends_with_keys(t0, k, ks) implies false by {
                    lemma_keys_at(t0, k, ks);
                    assert(from_end(t0, ks.len() + 1 as int) == t2.last());
                }
            }
            return Err(Error::Unexpected(tok.to_string()));
        },
        None => {
            proof {
                assert forall|k: usize, ks: Seq<PublicKey>| ends_with_keys(t0, k, ks) implies false by {
                    lemma_keys_at(t0, k, ks);
                }
            }
            return Err(Error::UnexpectedStart);
        },
    };
    let ghost t3 = tokens@;
    let x = if verify {
        Elem::V(V::CheckMultiSig(k as usize, pks))
    } else {
        Elem::E(E::CheckMultiSig(k as usize, pks))
    };
    proof {
        lemma_consumed_last(t2);
        lemma_consumed_trans(t0, t1, t2);
        lemma_consumed_trans(t0, t2, t3);
        assert(consumed(t0, t3) + done =~= x.instrs());
        assert forall|kk: usize, ks: Seq<PublicKey>| ends_with_keys(t0, kk, ks) implies kk == k as usize && pks@ == ks
            && t3 == cut(t0, ks.len() + 2 as int) by {
            lemma_keys_at(t0, kk, ks);
            assert(from_end(t0, ks.len() + 1 as int) == t2.last());
            assert forall|j: int| 0 <= j < ks.len() implies pks@[j] == ks[j] by {
                assert(from_end(t0, ks.len() - j) == from_end(t1, n - 1 - j));
            }
            assert(pks@ =~= ks);
            assert(t3 =~= cut(t0, ks.len() + 2 as int));
        }
    }
    Ok(x)
}

/// After `0NOTEQUAL`: `CSV` and a number.
fn parse_time_f(tokens: &mut TokenIter, Ghost(done): Ghost<Seq<Instr<PublicKey>>>) -> (r: Result<Elem, Error>)
    requires
        done == seq![Instr::<PublicKey>::Op(OP_0NOTEQUAL)],
    ensures
        final(tokens)@.len() <= old(tokens)@.len(),
        r matches Ok(x) ==> reads(old(tokens)@, final(tokens)@, x, done),
        old(tokens)@.len() >= 2 && from_end(old(tokens)@, 0) is CheckSequenceVerify ==> (from_end(old(tokens)@, 1) matches Token::Number(n)
            ==> r == Ok::<Elem, Error>(Elem::F(F::Time(n))) && final(tokens)@ == cut(old(tokens)@, 2)),
{
    let ghost t0 = tokens@;
    tokens.expect(Token::CheckSequenceVerify)?;
    let ghost t1 = tokens@;
    match tokens.next() {
        Some(Token::Number(n)) => {
            let x = Elem::F(F::Time(n));
            proof {
                lemma_consumed_last(t0);
                lemma_consumed_last(t1);
                lemma_consumed_trans(t0, t1, tokens@);
                assert(consumed(t0, tokens@) + done =~= x.instrs());
            }
            Ok(x)
        },
        Some(tok) => Err(Error::Unexpected(tok.to_string())),
        None => Err(Error::UnexpectedStart),
    }
}

/// After `CSV`: a number.
fn parse_time_t(tokens: &mut TokenIter, Ghost(done): Ghost<Seq<Instr<PublicKey>>>) -> (r: Result<Elem, Error>)
    requires
        done == seq![Instr::<PublicKey>::Op(OP_CSV)],
    ensures
        final(tokens)@.len() <= old(tokens)@.len(),
        r matches Ok(x) ==> reads(old(tokens)@, final(tokens)@, x, done),
        old(tokens)@.len() >= 1 ==> (from_end(old(tokens)@, 0) matches Token::Number(n) ==> r == Ok::<Elem, Error>(
            Elem::T(T::Time(n)),
        ) && final(tokens)@ == cut(old(tokens)@, 1)),
{
    let ghost t0 = tokens@;
    match tokens.next() {
        Some(Token::Number(n)) => {
            let x = Elem::T(T::Time(n));
            proof {
                lemma_consumed_last(t0);
                assert(consumed(t0, tokens@) + done =~= x.instrs());
            }
            Ok(x)
        },
        Some(tok) => Err(Error::Unexpected(tok.to_string())),
        None => Err(Error::UnexpectedStart),
    }
}

/// After `DROP`: `CSV` and a number.
fn parse_time_v(tokens: &mut TokenIter, Ghost(done): Ghost<Seq<Instr<PublicKey>>>) -> (r: Result<Elem, Error>)
    requires
        done == seq![Instr::<PublicKey>::Op(OP_DROP)],
    ensures
        final(tokens)@.len() <= old(tokens)@.len(),
        r matches Ok(x) ==> reads(old(tokens)@, final(tokens)@, x, done),
        old(tokens)@.len() >= 2 && from_end(old(tokens)@, 0) is CheckSequenceVerify ==> (from_end(old(tokens)@, 1) matches Token::Number(n)
            ==> r == Ok::<Elem, Error>(Elem::V(V::Time(n))) && final(tokens)@ == cut(old(tokens)@, 2)),
{
    let ghost t0 = tokens@;
    tokens.expect(Token::CheckSequenceVerify)?;
    let ghost t1 = tokens@;
    match tokens.next() {
        Some(Token::Number(n)) => {
            let x = Elem::V(V::Time(n));
            proof {
                lemma_consumed_last(t0);
                lemma_consumed_last(t1);
                lemma_consumed_trans(t0, t1, tokens@);
                assert(consumed(t0, tokens@) + done =~= x.instrs());
            }
            Ok(x)
        },
        Some(tok) => Err(Error::Unexpected(tok.to_string())),
        None => Err(Error::UnexpectedStart),
    }
}

/// A cast of an expression to a wrapped fragment.
spec fn is_cast_w(x: Elem) -> bool {
    x matches Elem::W(W::CastE(_))
}

/// After `FROMALTSTACK`: an expression, then `TOALTSTACK`, which stops the
/// expression from being joined by `and` to what precedes it.
fn parse_cast_w(tokens: &mut TokenIter, Ghost(done): Ghost<Seq<Instr<PublicKey>>>) -> (r: Result<Elem, Error>)
    requires
        done == seq![Instr::<PublicKey>::Op(OP_FROMALTSTACK)],
    ensures
        final(tokens)@.len() <= old(tokens)@.len(),
        r matches Ok(x) ==> reads(old(tokens)@, final(tokens)@, x, done),
        forall|x: Elem, n: int| #[trigger] whole_at(old(tokens)@.push(Token::FromAltStack), x, n) && is_cast_w(x) ==> (r matches Ok(y) && y.same(x)) && final(tokens)@ == old(tokens)@.subrange(0, n),
        old(tokens)@.len() == 0 ==> r == Err::<Elem, Error>(Error::UnexpectedStart),
        old(tokens)@.len() > 0 && !ends_fragment(old(tokens)@.last()) ==> refused_with(
            r,
            token_text(old(tokens)@.last()),
        ),
    decreases old(tokens)@.len(), 1nat,
{
    let ghost t0 = tokens@;
    proof {
        assert forall|x: Elem, n: int| #[trigger] whole_at(t0.push(Token::FromAltStack), x, n) && is_cast_w(x) implies canon_at(t0, Elem::E(*x->W_0->CastE_0), n + 1)
            && t0.subrange(0, n + 1).len() > 0 && t0.subrange(0, n + 1).last() == Token::ToAltStack
            && t0.subrange(0, n + 1).drop_last() == t0.subrange(0, n) by {
            let e = *x->W_0->CastE_0;
            let ts = t0.push(Token::FromAltStack);
            lemma_whole_before(t0, Token::FromAltStack, x, n);
            assert(x.tokens() =~= seq![Token::ToAltStack] + e.tokens() + seq![Token::FromAltStack]);
            assert(t0.subrange(n + 1, t0.len() as int) =~= e.tokens());
            assert(t0[n] == Token::ToAltStack);
            assert(t0.subrange(0, n + 1).last() == Token::ToAltStack);
            assert(t0.subrange(0, n + 1).drop_last() =~= t0.subrange(0, n));
        }
    }
    let sub = parse_subexpression(tokens)?;
    let ghost t1 = tokens@;
    if sub.is_e() {
        let expr = sub.into_e().unwrap();
        match tokens.expect(Token::ToAltStack) {
            Ok(()) => {},
            Err(e) => {
                proof {
                    assert forall|y: Elem, n: int| #[trigger] whole_at(t0.push(Token::FromAltStack), y, n) && is_cast_w(
                        y,
                    ) implies false by {
                        assert(canon_at(t0, Elem::E(*y->W_0->CastE_0), n + 1));
                        assert(t1 == t0.subrange(0, n + 1));
                        assert(t1.last() == Token::ToAltStack);
                    }
                }
                return Err(e);
            },
        }
        let ghost t2 = tokens@;
        let x = Elem::W(W::CastE(expr));
        proof {
            lemma_consumed_last(t1);
            lemma_consumed_trans(t0, t1, t2);
            assert(consumed(t0, t1) =~= consumed(t0, t1) + Seq::<Instr<PublicKey>>::empty());
            assert(consumed(t0, t2) + done =~= x.instrs());
            assert forall|y: Elem, n: int| #[trigger] whole_at(t0.push(Token::FromAltStack), y, n) && is_cast_w(y) implies x.same(y) && t2 == t0.subrange(0, n) by {
                assert(canon_at(t0, Elem::E(*y->W_0->CastE_0), n + 1));
                assert(t1 == t0.subrange(0, n + 1));
                assert(t1.last() == Token::ToAltStack);
                assert(t2 =~= t0.subrange(0, n));
            }
        }
        Ok(x)
    } else {
        proof {
            assert forall|y: Elem, n: int| #[trigger] whole_at(t0.push(Token::FromAltStack), y, n) && is_cast_w(y) implies false by {
                assert(canon_at(t0, Elem::E(*y->W_0->CastE_0), n + 1));
            }
        }
        Err(Error::Unexpected(sub.to_string()))
    }
}

/// After `ENDIF`: a timelock, a lifted `F`, or a branch whose last part is
/// an `F`, a `V` or a `T`.
#[verifier::spinoff_prover]
#[verifier::rlimit(60)]
fn parse_endif(tokens: &mut TokenIter, Ghost(done): Ghost<Seq<Instr<PublicKey>>>) -> (r: Result<Elem, Error>)
    requires
        done == seq![Instr::<PublicKey>::Op(OP_ENDIF)],
    ensures
        final(tokens)@.len() <= old(tokens)@.len(),
        r matches Ok(x) ==> reads(old(tokens)@, final(tokens)@, x, done),
        reads_whole(old(tokens)@.push(Token::EndIf), final(tokens)@, r),
    decreases old(tokens)@.len(), 1nat,
{
    let ghost t0 = tokens@;
    let ghost te = t0.push(Token::EndIf);
    match tokens.next() {
        Some(Token::Drop) => {
            let ghost t1 = tokens@;
            proof {
                lemma_consumed_last(t0);
            }
            proof {
                assert(seq![Instr::Op(OP_DROP)] + done =~= seq![Instr::<PublicKey>::Op(OP_DROP), Instr::Op(OP_ENDIF)]);
            }
            let r = endif_time(tokens, Ghost(seq![Instr::Op(OP_DROP)] + done));
            proof {
                if r is Ok {
                    lemma_consumed_trans(t0, t1, tokens@);
                    assert(consumed(t0, tokens@) + done =~= consumed(t1, tokens@) + (seq![Instr::Op(OP_DROP)] + done));
                }
                lemma_from_end_drop(t0);
                assert forall|x: Elem, n: int| #[trigger] whole_at(te, x, n) implies (r matches Ok(y) && y.same(x))
                    && tokens@ == te.subrange(0, n) by {
                    lemma_endif_whole(t0, x, n);
                }
            }
            r
        },
        Some(Token::Number(0)) => {
            let ghost t1 = tokens@;
            proof {
                lemma_consumed_last(t0);
            }
            proof {
                assert(seq![Instr::Int(0)] + done =~= seq![Instr::<PublicKey>::Int(0), Instr::Op(OP_ENDIF)]);
            }
            let r = endif_lift(tokens, Ghost(seq![Instr::Int(0)] + done));
            proof {
                if r is Ok {
                    lemma_consumed_trans(t0, t1, tokens@);
                    assert(consumed(t0, tokens@) + done =~= consumed(t1, tokens@) + (seq![Instr::Int(0)] + done));
                }
                assert forall|x: Elem, n: int| #[trigger] whole_at(te, x, n) implies (r matches Ok(y) && y.same(x))
                    && tokens@ == te.subrange(0, n) by {
                    lemma_endif_whole(t0, x, n);
                    assert(t0.drop_last().subrange(0, n) =~= t0.subrange(0, n));
                }
            }
            r
        },
        Some(tok) => {
            tokens.un_next(tok);
            proof {
                assert(tokens@ =~= t0);
            }
            let res = parse_subexpression(tokens);
            let sub = match res {
                Ok(sub) => sub,
                Err(e) => {
                    proof {
                        assert forall|x: Elem, n: int| #[trigger] whole_at(te, x, n) implies false by {
                            lemma_endif_whole(t0, x, n);
                        }
                    }
                    return Err(e);
                },
            };
            let ghost t1 = tokens@;
            proof {
                assert(consumed(t0, t1) =~= consumed(t0, t1) + Seq::<Instr<PublicKey>>::empty());
            }
            let ghost d2 = sub.instrs() + done;
            let r = if sub.is_f() {
                let right = sub.into_f().unwrap();
                endif_f(tokens, right, Ghost(d2))
            } else if sub.is_v() {
                let right = sub.into_v().unwrap();
                endif_v(tokens, right, Ghost(d2))
            } else if sub.is_t() {
                proof {
                    lemma_cast_t_keeps_script(sub);
                }
                let right = sub.into_t().unwrap();
                endif_t(tokens, right, Ghost(d2))
            } else {
                Err(Error::Unexpected(sub.to_string()))
            };
            proof {
                if r is Ok {
                    lemma_consumed_trans(t0, t1, tokens@);
                    assert(consumed(t0, tokens@) + done =~= consumed(t1, tokens@) + d2);
                }
                assert forall|x: Elem, n: int| #[trigger] whole_at(te, x, n) implies (r matches Ok(y) && y.same(x))
                    && tokens@ == te.subrange(0, n) by {
                    lemma_endif_whole(t0, x, n);
                    if let Elem::W(W::HashEqual(h)) = x {
                        assert(t1.subrange(t1.len() - 4, t1.len() as int) =~= t0.subrange(n, n + 4));
                        assert(t0.subrange(0, n) =~= cut(t1, 4));
                    }
                }
            }
            r
        },
        None => {
            proof {
                assert forall|x: Elem, n: int| #[trigger] whole_at(te, x, n) implies false by {
                    lemma_endif_whole(t0, x, n);
                }
            }
            Err(Error::UnexpectedStart)
        },
    }
}

/// After `DROP ENDIF`: `CSV`, a number, `IF`, `DUP`, and `SWAP` for the
/// wrapped form.
#[verifier::spinoff_prover]
#[verifier::rlimit(60)]
fn endif_time(tokens: &mut TokenIter, Ghost(done): Ghost<Seq<Instr<PublicKey>>>) -> (r: Result<Elem, Error>)
    requires
        done == seq![Instr::<PublicKey>::Op(OP_DROP), Instr::Op(OP_ENDIF)],
    ensures
        final(tokens)@.len() <= old(tokens)@.len(),
        r matches Ok(x) ==> reads(old(tokens)@, final(tokens)@, x, done),
        old(tokens)@.len() >= 4 && from_end(old(tokens)@, 0) is CheckSequenceVerify && from_end(old(tokens)@, 2) is If
            && from_end(old(tokens)@, 3) is Dup ==> (from_end(old(tokens)@, 1) matches Token::Number(n) ==> if old(
            tokens)@.len() >= 5 && from_end(old(tokens)@, 4) is Swap {
            r == Ok::<Elem, Error>(Elem::W(W::Time(n))) && final(tokens)@ == cut(old(tokens)@, 5)
        } else {
            r == Ok::<Elem, Error>(Elem::E(E::Time(n))) && final(tokens)@ == cut(old(tokens)@, 4)
        }),
{
    let ghost t0 = tokens@;
    tokens.expect(Token::CheckSequenceVerify)?;
    let ghost t1 = tokens@;
    let n = match tokens.next() {
        Some(Token::Number(n)) => n,
        Some(tok) => return Err(Error::Unexpected(tok.to_string())),
        None => return Err(Error::UnexpectedStart),
    };
    let ghost t2 = tokens@;
    tokens.expect(Token::If)?;
    let ghost t3 = tokens@;
    tokens.expect(Token::Dup)?;
    let ghost t4 = tokens@;
    proof {
        lemma_consumed_last(t0);
        lemma_consumed_last(t1);
        lemma_consumed_last(t2);
        lemma_consumed_last(t3);
        lemma_consumed_trans(t0, t1, t2);
        lemma_consumed_trans(t0, t2, t3);
        lemma_consumed_trans(t0, t3, t4);
    }
    match tokens.next() {
        Some(Token::Swap) => {
            let x = Elem::W(W::Time(n));
            proof {
                lemma_consumed_last(t4);
                lemma_consumed_trans(t0, t4, tokens@);
                assert(consumed(t0, tokens@) + done =~= x.instrs());
            }
            Ok(x)
        },
        Some(x) => {
            tokens.un_next(x);
            proof {
                assert(tokens@ =~= t4);
            }
            let r = Elem::E(E::Time(n));
            proof {
                assert(consumed(t0, t4) + done =~= r.instrs());
            }
            Ok(r)
        },
        None => {
            let r = Elem::E(E::Time(n));
            proof {
                assert(consumed(t0, t4) + done =~= r.instrs());
            }
            Ok(r)
        },
    }
}

/// After `0 ENDIF`: `ELSE`, an `F`, and `IF` or `NOTIF`.
fn endif_lift(tokens: &mut TokenIter, Ghost(done): Ghost<Seq<Instr<PublicKey>>>) -> (r: Result<Elem, Error>)
    requires
        done == seq![Instr::<PublicKey>::Int(0), Instr::Op(OP_ENDIF)],
    ensures
        final(tokens)@.len() <= old(tokens)@.len(),
        r matches Ok(x) ==> reads(old(tokens)@, final(tokens)@, x, done),
        forall|f: F<PublicKey>, n: int| #[trigger] shaped(
            old(tokens)@,
            n,
            seq![Token::NotIf] + f.tokens() + seq![Token::Else],
        ) && f.canon() ==> (r matches Ok(Elem::E(E::Likely(f2))) && (*f2).same(f)) && final(tokens)@ == old(
            tokens,
        )@.subrange(0, n),
        forall|f: F<PublicKey>, n: int| #[trigger] shaped(
            old(tokens)@,
            n,
            seq![Token::If] + f.tokens() + seq![Token::Else],
        ) && f.canon() ==> (r matches Ok(Elem::E(E::Unlikely(f2))) && (*f2).same(f)) && final(tokens)@ == old(
            tokens,
        )@.subrange(0, n),
    decreases old(tokens)@.len(), 1nat,
{
    let ghost t0 = tokens@;
    proof {
        assert forall|o: Token, f: F<PublicKey>, n: int| #[trigger] shaped(t0, n, seq![o] + f.tokens() + seq![Token::Else])
            && (o is If || o is NotIf) && f.canon() implies t0.last() == Token::Else && canon_at(
            t0.drop_last(),
            Elem::F(f),
            n + 1,
        ) by {
            lemma_open_part(t0, n, o, f.tokens(), Token::Else);
        }
    }
    tokens.expect(Token::Else)?;
    let ghost t1 = tokens@;
    let sub = parse_subexpression(tokens)?;
    let ghost t2 = tokens@;
    let r = if sub.is_f() {
        let right = sub.into_f().unwrap();
        proof {
            lemma_consumed_last(t0);
            lemma_consumed_trans(t0, t1, t2);
            assert(consumed(t1, t2) =~= consumed(t1, t2) + Seq::<Instr<PublicKey>>::empty());
        }
        match tokens.next() {
            Some(Token::If) => {
                let x = Elem::E(E::Unlikely(right));
                proof {
                    lemma_consumed_last(t2);
                    lemma_consumed_trans(t0, t2, tokens@);
                    assert(consumed(t0, tokens@) + done =~= x.instrs());
                }
                Ok(x)
            },
            Some(Token::NotIf) => {
                let x = Elem::E(E::Likely(right));
                proof {
                    lemma_consumed_last(t2);
                    lemma_consumed_trans(t0, t2, tokens@);
                    assert(consumed(t0, tokens@) + done =~= x.instrs());
                }
                Ok(x)
            },
            Some(tok) => Err(Error::Unexpected(tok.to_string())),
            None => Err(Error::UnexpectedStart),
        }
    } else {
        Err(Error::Unexpected(sub.to_string()))
    };
    proof {
        assert forall|o: Token, f: F<PublicKey>, n: int| #[trigger] shaped(t0, n, seq![o] + f.tokens() + seq![Token::Else])
            && (o is If || o is NotIf) && f.canon() implies tokens@ == t0.subrange(0, n) && (o is If ==> (r matches Ok(
            Elem::E(E::Unlikely(f2))) && (*f2).same(f))) && (o is NotIf ==> (r matches Ok(Elem::E(E::Likely(f2)))
            && (*f2).same(f))) by {
            lemma_open_part(t0, n, o, f.tokens(), Token::Else);
            assert(canon_at(t1, Elem::F(f), n + 1));
        }
    }
    r
}
/// After an `F` and `ENDIF`: the wrapped hash check, or a branch.
fn endif_f(tokens: &mut TokenIter, right: Rc<F<PublicKey>>, Ghost(done): Ghost<Seq<Instr<PublicKey>>>) -> (r:
    Result<Elem, Error>)
    requires
        done == (*right).instrs() + seq![Instr::<PublicKey>::Op(OP_ENDIF)],
    ensures
        final(tokens)@.len() <= old(tokens)@.len(),
        r matches Ok(x) ==> reads(old(tokens)@, final(tokens)@, x, done),
        *right matches F::HashEqual(h) ==> (old(tokens)@.len() >= 4 && old(tokens)@.subrange(
            old(tokens)@.len() - 4,
            old(tokens)@.len() as int,
        ) == seq![Token::Swap, Token::Size, Token::ZeroNotEqual, Token::If] ==> r == Ok::<Elem, Error>(
            Elem::W(W::HashEqual(h)),
        ) && final(tokens)@ == cut(old(tokens)@, 4)),
        forall|l: E<PublicKey>, n: int| #[trigger] shaped(
            old(tokens)@,
            n,
            l.tokens().push(Token::NotIf).push(Token::Number(0)).push(Token::Else),
        ) && l.canon() && stops(old(tokens)@.subrange(0, n)) ==> (r matches Ok(Elem::E(E::CascadeAnd(l2, r2)))
            && (*l2).same(l) && *r2 == *right) && final(tokens)@ == old(tokens)@.subrange(0, n),
        forall|o: Token, l: E<PublicKey>, n: int| #[trigger] shaped(
            old(tokens)@,
            n,
            (seq![o] + l.tokens()).push(Token::Else),
        ) && l.canon() && (o is If || o is NotIf) ==> (o is If ==> (r matches Ok(Elem::E(E::SwitchOrLeft(l2, r2)))
            && (*l2).same(l) && *r2 == *right)) && (o is NotIf ==> (r matches Ok(Elem::E(E::SwitchOrRight(l2, r2)))
            && (*l2).same(l) && *r2 == *right)) && final(tokens)@ == old(tokens)@.subrange(0, n),
        forall|a: F<PublicKey>, n: int| #[trigger] shaped(
            old(tokens)@,
            n,
            (seq![Token::If] + a.tokens()).push(Token::Else),
        ) && a.canon() ==> (r matches Ok(Elem::F(F::SwitchOr(a2, r2))) && (*a2).same(a) && *r2 == *right)
            && final(tokens)@ == old(tokens)@.subrange(0, n),
    decreases old(tokens)@.len(), 1nat,
{
    let ghost t0 = tokens@;
    proof {
        assert forall|l: E<PublicKey>, n: int| #[trigger] shaped(
            t0,
            n,
            l.tokens().push(Token::NotIf).push(Token::Number(0)).push(Token::Else),
        ) implies t0.len() >= 1 && t0.last() == Token::Else && shaped(
            t0.drop_last(),
            n,
            l.tokens().push(Token::NotIf).push(Token::Number(0)),
        ) && t0.drop_last().subrange(0, n) == t0.subrange(0, n) by {
            lemma_last_of(t0, n, l.tokens().push(Token::NotIf).push(Token::Number(0)), Token::Else);
        }
        assert forall|o: Token, l: E<PublicKey>, n: int| #[trigger] shaped(t0, n, (seq![o] + l.tokens()).push(Token::Else))
            implies t0.len() >= 1 && t0.last() == Token::Else && shaped(t0.drop_last(), n, seq![o] + l.tokens())
            && t0.drop_last().subrange(0, n) == t0.subrange(0, n) by {
            lemma_last_of(t0, n, seq![o] + l.tokens(), Token::Else);
        }
        assert forall|a: F<PublicKey>, n: int| #[trigger] shaped(t0, n, (seq![Token::If] + a.tokens()).push(Token::Else))
            implies t0.len() >= 1 && t0.last() == Token::Else && shaped(t0.drop_last(), n, seq![Token::If] + a.tokens())
            && t0.drop_last().subrange(0, n) == t0.subrange(0, n) by {
            lemma_last_of(t0, n, seq![Token::If] + a.tokens(), Token::Else);
        }
    }
    proof {
        if t0.len() >= 4 {
            let q = t0.subrange(t0.len() - 4, t0.len() as int);
            assert(from_end(t0, 0) == q[3]);
            assert(from_end(t0, 1) == q[2]);
            assert(from_end(t0, 2) == q[1]);
            assert(from_end(t0, 3) == q[0]);
        }
    }
    match tokens.next() {
        Some(Token::If) => {
            let ghost t1 = tokens@;
            tokens.expect(Token::ZeroNotEqual)?;
            let ghost t2 = tokens@;
            tokens.expect(Token::Size)?;
            let ghost t3 = tokens@;
            tokens.expect(Token::Swap)?;
            let ghost t4 = tokens@;
            if let F::HashEqual(hash) = &*right {
                let x = Elem::W(W::HashEqual(*hash));
                proof {
                    lemma_consumed_last(t0);
                    lemma_consumed_last(t1);
                    lemma_consumed_last(t2);
                    lemma_consumed_last(t3);
                    lemma_consumed_trans(t0, t1, t2);
                    lemma_consumed_trans(t0, t2, t3);
                    lemma_consumed_trans(t0, t3, t4);
                    assert(consumed(t0, t4) + done =~= x.instrs());
                }
                Ok(x)
            } else {
                Err(Error::Unexpected(right.to_string()))
            }
        },
        Some(Token::Else) => {
            let ghost t1 = tokens@;
            proof {
                lemma_consumed_last(t0);
            }
            let r = endif_f_else(tokens, right, Ghost(seq![Instr::Op(OP_ELSE)] + done));
            proof {
                if r is Ok {
                    lemma_consumed_trans(t0, t1, tokens@);
                    assert(consumed(t0, tokens@) + done =~= consumed(t1, tokens@) + (seq![Instr::Op(OP_ELSE)] + done));
                }
            }
            r
        },
        Some(tok) => Err(Error::Unexpected(tok.to_string())),
        None => Err(Error::UnexpectedStart),
    }
}

/// After `ELSE`, an `F` and `ENDIF`: a cascade and, or a switch whose first
/// branch is an `F` or an `E`.
fn endif_f_else(tokens: &mut TokenIter, right: Rc<F<PublicKey>>, Ghost(done): Ghost<Seq<Instr<PublicKey>>>) -> (r:
    Result<Elem, Error>)
    requires
        done == seq![Instr::<PublicKey>::Op(OP_ELSE)] + ((*right).instrs() + seq![Instr::<PublicKey>::Op(OP_ENDIF)]),
    ensures
        final(tokens)@.len() <= old(tokens)@.len(),
        r matches Ok(x) ==> reads(old(tokens)@, final(tokens)@, x, done),
        forall|l: E<PublicKey>, n: int| #[trigger] shaped(
            old(tokens)@,
            n,
            l.tokens().push(Token::NotIf).push(Token::Number(0)),
        ) && l.canon() && stops(old(tokens)@.subrange(0, n)) ==> (r matches Ok(Elem::E(E::CascadeAnd(l2, r2)))
            && (*l2).same(l) && *r2 == *right) && final(tokens)@ == old(tokens)@.subrange(0, n),
        forall|o: Token, l: E<PublicKey>, n: int| #[trigger] shaped(old(tokens)@, n, seq![o] + l.tokens()) && l.canon() && (
        o is If || o is NotIf) ==> (o is If ==> (r matches Ok(Elem::E(E::SwitchOrLeft(l2, r2))) && (*l2).same(l)
            && *r2 == *right)) && (o is NotIf ==> (r matches Ok(Elem::E(E::SwitchOrRight(l2, r2))) && (*l2).same(l)
            && *r2 == *right)) && final(tokens)@ == old(tokens)@.subrange(0, n),
        forall|a: F<PublicKey>, n: int| #[trigger] shaped(old(tokens)@, n, seq![Token::If] + a.tokens()) && a.canon() ==> (
        r matches Ok(Elem::F(F::SwitchOr(a2, r2))) && (*a2).same(a) && *r2 == *right) && final(tokens)@ == old(
            tokens,
        )@.subrange(0, n),
    decreases old(tokens)@.len(), 1nat,
{
    let ghost t0 = tokens@;
    proof {
        assert forall|l: E<PublicKey>, n: int| #[trigger] shaped(t0, n, l.tokens().push(Token::NotIf).push(Token::Number(0)))
            && l.canon() && stops(t0.subrange(0, n)) implies t0.len() >= 2 && t0.last() == Token::Number(0)
            && t0.drop_last().last() == Token::NotIf && canon_at(t0.drop_last().drop_last(), Elem::E(l), n) by {
            lemma_last_of(t0, n, l.tokens().push(Token::NotIf), Token::Number(0));
            lemma_last_of(t0.drop_last(), n, l.tokens(), Token::NotIf);
        }
        assert forall|o: Token, l: E<PublicKey>, n: int| #[trigger] shaped(t0, n, seq![o] + l.tokens()) && l.canon() && (o is If
            || o is NotIf) implies t0.len() >= 1 && t0.last() != Token::Number(0) && canon_at(t0, Elem::E(l), n + 1)
            && t0.subrange(0, n + 1).last() == o && t0.subrange(0, n + 1).drop_last() == t0.subrange(0, n) by {
            lemma_first_of(t0, n, o, l.tokens());
            lemma_canon_ends(Elem::E(l));
            assert(t0.last() == t0.subrange(n + 1, t0.len() as int)[l.tokens().len() - 1]);
        }
        assert forall|a: F<PublicKey>, n: int| #[trigger] shaped(t0, n, seq![Token::If] + a.tokens()) && a.canon() implies t0.len()
            >= 1 && t0.last() != Token::Number(0) && canon_at(t0, Elem::F(a), n + 1) && t0.subrange(0, n + 1).last()
            == Token::If && t0.subrange(0, n + 1).drop_last() == t0.subrange(0, n) by {
            lemma_first_of(t0, n, Token::If, a.tokens());
            lemma_canon_ends(Elem::F(a));
            assert(t0.last() == t0.subrange(n + 1, t0.len() as int)[a.tokens().len() - 1]);
        }
    }
    match tokens.next() {
        Some(Token::Number(0)) => {
            let ghost t1 = tokens@;
            tokens.expect(Token::NotIf)?;
            let ghost t2 = tokens@;
            let sub = parse_subexpression(tokens)?;
            let ghost t3 = tokens@;
            if sub.is_e() {
                let left = sub.into_e().unwrap();
                let x = Elem::E(E::CascadeAnd(left, right));
                proof {
                    lemma_consumed_last(t0);
                    lemma_consumed_last(t1);
                    lemma_consumed_trans(t0, t1, t2);
                    lemma_consumed_trans(t0, t2, t3);
                    assert(consumed(t2, t3) =~= consumed(t2, t3) + Seq::<Instr<PublicKey>>::empty());
                    assert(consumed(t0, t3) + done =~= x.instrs());
                }
                Ok(x)
            } else {
                Err(Error::Unexpected(sub.to_string()))
            }
        },
        Some(tok) => {
            tokens.un_next(tok);
            proof {
                assert(tokens@ =~= t0);
            }
            let sub = parse_subexpression(tokens)?;
            let ghost t1 = tokens@;
            proof {
                assert(consumed(t0, t1) =~= consumed(t0, t1) + Seq::<Instr<PublicKey>>::empty());
            }
            if sub.is_f() {
                let left = sub.into_f().unwrap();
                tokens.expect(Token::If)?;
                let x = Elem::F(F::SwitchOr(left, right));
                proof {
                    lemma_consumed_last(t1);
                    lemma_consumed_trans(t0, t1, tokens@);
                    assert(consumed(t0, tokens@) + done =~= x.instrs());
                }
                Ok(x)
            } else if sub.is_e() {
                let left = sub.into_e().unwrap();
                match tokens.next() {
                    Some(Token::If) => {
                        let x = Elem::E(E::SwitchOrLeft(left, right));
                        proof {
                            lemma_consumed_last(t1);
                            lemma_consumed_trans(t0, t1, tokens@);
                            assert(consumed(t0, tokens@) + done =~= x.instrs());
                        }
                        Ok(x)
                    },
                    Some(Token::NotIf) => {
                        let x = Elem::E(E::SwitchOrRight(left, right));
                        proof {
                            lemma_consumed_last(t1);
                            lemma_consumed_trans(t0, t1, tokens@);
                            assert(consumed(t0, tokens@) + done =~= x.instrs());
                        }
                        Ok(x)
                    },
                    Some(tok) => Err(Error::Unexpected(tok.to_string())),
                    None => Err(Error::UnexpectedStart),
                }
            } else {
                Err(Error::Unexpected(sub.to_string()))
            }
        },
        None => Err(Error::UnexpectedStart),
    }
}

/// After a `V` and `ENDIF`: a switch of two `V`s, or a cascade or.
fn endif_v(tokens: &mut TokenIter, right: Rc<V<PublicKey>>, Ghost(done): Ghost<Seq<Instr<PublicKey>>>) -> (r:
    Result<Elem, Error>)
    requires
        done == (*right).instrs() + seq![Instr::<PublicKey>::Op(OP_ENDIF)],
    ensures
        final(tokens)@.len() <= old(tokens)@.len(),
        r matches Ok(x) ==> reads(old(tokens)@, final(tokens)@, x, done),
        forall|a: V<PublicKey>, n: int| #[trigger] shaped(
            old(tokens)@,
            n,
            (seq![Token::If] + a.tokens()).push(Token::Else),
        ) && a.canon() ==> (r matches Ok(Elem::V(V::SwitchOr(a2, r2))) && (*a2).same(a) && *r2 == *right)
            && final(tokens)@ == old(tokens)@.subrange(0, n),
        forall|e: E<PublicKey>, n: int| #[trigger] shaped(old(tokens)@, n, e.tokens().push(Token::NotIf)) && e.canon()
            && stops(old(tokens)@.subrange(0, n)) ==> (r matches Ok(Elem::V(V::CascadeOr(e2, r2))) && (*e2).same(e)
            && *r2 == *right) && final(tokens)@ == old(tokens)@.subrange(0, n),
    decreases old(tokens)@.len(), 1nat,
{
    let ghost t0 = tokens@;
    proof {
        assert forall|a: V<PublicKey>, n: int| #[trigger] shaped(t0, n, (seq![Token::If] + a.tokens()).push(Token::Else))
            && a.canon() implies t0.len() >= 1 && t0.last() == Token::Else && canon_at(t0.drop_last(), Elem::V(a), n + 1)
            && t0.drop_last().subrange(0, n + 1).last() == Token::If && t0.drop_last().subrange(0, n + 1).drop_last()
            == t0.subrange(0, n) by {
            lemma_last_of(t0, n, seq![Token::If] + a.tokens(), Token::Else);
            lemma_first_of(t0.drop_last(), n, Token::If, a.tokens());
        }
        assert forall|e: E<PublicKey>, n: int| #[trigger] shaped(t0, n, e.tokens().push(Token::NotIf)) && e.canon()
            && stops(t0.subrange(0, n)) implies t0.len() >= 1 && t0.last() == Token::NotIf && canon_at(
            t0.drop_last(),
            Elem::E(e),
            n,
        ) by {
            lemma_last_of(t0, n, e.tokens(), Token::NotIf);
        }
    }
    match tokens.next() {
        Some(Token::Else) => {
            let ghost t1 = tokens@;
            let sub = parse_subexpression(tokens)?;
            let ghost t2 = tokens@;
            if sub.is_v() {
                let left = sub.into_v().unwrap();
                tokens.expect(Token::If)?;
                let x = Elem::V(V::SwitchOr(left, right));
                proof {
                    lemma_consumed_last(t0);
                    lemma_consumed_last(t2);
                    lemma_consumed_trans(t0, t1, t2);
                    lemma_consumed_trans(t0, t2, tokens@);
                    assert(consumed(t1, t2) =~= consumed(t1, t2) + Seq::<Instr<PublicKey>>::empty());
                    assert(consumed(t0, tokens@) + done =~= x.instrs());
                }
                Ok(x)
            } else {
                Err(Error::Unexpected(sub.to_string()))
            }
        },
        Some(Token::NotIf) => {
            let ghost t1 = tokens@;
            let sub = parse_subexpression(tokens)?;
            let ghost t2 = tokens@;
            if sub.is_e() {
                let left = sub.into_e().unwrap();
                let x = Elem::V(V::CascadeOr(left, right));
                proof {
                    lemma_consumed_last(t0);
                    lemma_consumed_trans(t0, t1, t2);
                    assert(consumed(t1, t2) =~= consumed(t1, t2) + Seq::<Instr<PublicKey>>::empty());
                    assert(consumed(t0, t2) + done =~= x.instrs());
                }
                Ok(x)
            } else {
                Err(Error::Unexpected(sub.to_string()))
            }
        },
        Some(tok) => Err(Error::Unexpected(tok.to_string())),
        None => Err(Error::UnexpectedStart),
    }
}

/// After a `T` and `ENDIF`: a switch of two `T`s, or a cascade or.
fn endif_t(tokens: &mut TokenIter, right: Rc<T<PublicKey>>, Ghost(done): Ghost<Seq<Instr<PublicKey>>>) -> (r:
    Result<Elem, Error>)
    requires
        done == (*right).instrs() + seq![Instr::<PublicKey>::Op(OP_ENDIF)],
    ensures
        final(tokens)@.len() <= old(tokens)@.len(),
        r matches Ok(x) ==> reads(old(tokens)@, final(tokens)@, x, done),
        forall|a: T<PublicKey>, n: int| #[trigger] shaped(
            old(tokens)@,
            n,
            (seq![Token::If] + a.tokens()).push(Token::Else),
        ) && a.canon() ==> (r matches Ok(Elem::T(T::SwitchOr(a2, r2))) && (*a2).same(a) && *r2 == *right)
            && final(tokens)@ == old(tokens)@.subrange(0, n),
        forall|e: E<PublicKey>, n: int| #[trigger] shaped(
            old(tokens)@,
            n,
            e.tokens().push(Token::IfDup).push(Token::NotIf),
        ) && e.canon() && stops(old(tokens)@.subrange(0, n)) ==> (r matches Ok(Elem::T(T::CascadeOr(e2, r2)))
            && (*e2).same(e) && *r2 == *right) && final(tokens)@ == old(tokens)@.subrange(0, n),
    decreases old(tokens)@.len(), 1nat,
{
    let ghost t0 = tokens@;
    proof {
        assert forall|a: T<PublicKey>, n: int| #[trigger] shaped(t0, n, (seq![Token::If] + a.tokens()).push(Token::Else))
            && a.canon() implies t0.len() >= 1 && t0.last() == Token::Else && canon_at(t0.drop_last(), Elem::T(a), n + 1)
            && t0.drop_last().subrange(0, n + 1).last() == Token::If && t0.drop_last().subrange(0, n + 1).drop_last()
            == t0.subrange(0, n) by {
            lemma_last_of(t0, n, seq![Token::If] + a.tokens(), Token::Else);
            lemma_first_of(t0.drop_last(), n, Token::If, a.tokens());
        }
        assert forall|e: E<PublicKey>, n: int| #[trigger] shaped(t0, n, e.tokens().push(Token::IfDup).push(Token::NotIf))
            && e.canon() && stops(t0.subrange(0, n)) implies t0.len() >= 2 && t0.last() == Token::NotIf
            && t0.drop_last().last() == Token::IfDup && canon_at(t0.drop_last().drop_last(), Elem::E(e), n) by {
            lemma_last_of(t0, n, e.tokens().push(Token::IfDup), Token::NotIf);
            lemma_last_of(t0.drop_last(), n, e.tokens(), Token::IfDup);
        }
    }
    match tokens.next() {
        Some(Token::Else) => {
            let ghost t1 = tokens@;
            let sub = parse_subexpression(tokens)?;
            let ghost t2 = tokens@;
            if sub.is_t() {
                proof {
                    lemma_cast_t_keeps_script(sub);
                }
                let left = sub.into_t().unwrap();
                tokens.expect(Token::If)?;
                let x = Elem::T(T::SwitchOr(left, right));
                proof {
                    lemma_consumed_last(t0);
                    lemma_consumed_last(t2);
                    lemma_consumed_trans(t0, t1, t2);
                    lemma_consumed_trans(t0, t2, tokens@);
                    assert(consumed(t1, t2) =~= consumed(t1, t2) + Seq::<Instr<PublicKey>>::empty());
                    assert(consumed(t0, tokens@) + done =~= x.instrs());
                }
                Ok(x)
            } else {
                Err(Error::Unexpected(sub.to_string()))
            }
        },
        Some(Token::NotIf) => {
            let ghost t1 = tokens@;
            tokens.expect(Token::IfDup)?;
            let ghost t2 = tokens@;
            let sub = parse_subexpression(tokens)?;
            let ghost t3 = tokens@;
            if sub.is_e() {
                let left = sub.into_e().unwrap();
                let x = Elem::T(T::CascadeOr(left, right));
                proof {
                    lemma_consumed_last(t0);
                    lemma_consumed_last(t1);
                    lemma_consumed_trans(t0, t1, t2);
                    lemma_consumed_trans(t0, t2, t3);
                    assert(consumed(t2, t3) =~= consumed(t2, t3) + Seq::<Instr<PublicKey>>::empty());
                    assert(consumed(t0, t3) + done =~= x.instrs());
                }
                Ok(x)
            } else {
                Err(Error::Unexpected(sub.to_string()))
            }
        },
        Some(tok) => Err(Error::Unexpected(tok.to_string())),
        None => Err(Error::UnexpectedStart),
    }
}

/// After `VERIFY`: `ENDIF`, a `T`, `ELSE`, a `T`, `IF`.
#[verifier::spinoff_prover]
#[verifier::rlimit(60)]
fn parse_verify(tokens: &mut TokenIter, Ghost(done): Ghost<Seq<Instr<PublicKey>>>) -> (r: Result<Elem, Error>)
    requires
        done == seq![Instr::<PublicKey>::Op(OP_VERIFY)],
    ensures
        final(tokens)@.len() <= old(tokens)@.len(),
        r matches Ok(x) ==> reads(old(tokens)@, final(tokens)@, x, done),
        reads_whole(old(tokens)@.push(Token::Verify), final(tokens)@, r),
    decreases old(tokens)@.len(), 1nat,
{
    let ghost t0 = tokens@;
    proof {
        assert forall|x: Elem, n: int| #[trigger] whole_at(t0.push(Token::Verify), x, n) implies verify_steps(t0, x, n) by {
            lemma_verify_whole(t0, x, n);
        }
    }
    match tokens.next() {
        Some(Token::EndIf) => {
            let ghost t1 = tokens@;
            let sub = parse_subexpression(tokens)?;
            let ghost t2 = tokens@;
            if sub.is_t() {
                proof {
                    lemma_cast_t_keeps_script(sub);
                }
                let right = sub.into_t().unwrap();
                tokens.expect(Token::Else)?;
                let ghost t3 = tokens@;
                let sub2 = parse_subexpression(tokens)?;
                let ghost t4 = tokens@;
                if sub2.is_t() {
                    proof {
                        lemma_cast_t_keeps_script(sub2);
                    }
                    let left = sub2.into_t().unwrap();
                    tokens.expect(Token::If)?;
                    let x = Elem::V(V::SwitchOrT(left, right));
                    proof {
                        lemma_consumed_last(t0);
                        lemma_consumed_last(t2);
                        lemma_consumed_last(t4);
                        lemma_consumed_trans(t0, t1, t2);
                        lemma_consumed_trans(t0, t2, t3);
                        lemma_consumed_trans(t0, t3, t4);
                        lemma_consumed_trans(t0, t4, tokens@);
                        assert(consumed(t1, t2) =~= consumed(t1, t2) + Seq::<Instr<PublicKey>>::empty());
                        assert(consumed(t3, t4) =~= consumed(t3, t4) + Seq::<Instr<PublicKey>>::empty());
                        assert(consumed(t0, tokens@) + done =~= x.instrs());
                    }
                    Ok(x)
                } else {
                    Err(Error::Unexpected(sub2.to_string()))
                }
            } else {
                Err(Error::Unexpected(sub.to_string()))
            }
        },
        Some(tok) => Err(Error::Unexpected(tok.to_string())),
        None => Err(Error::UnexpectedStart),
    }
}

/// The `V` forms that, followed by `1`, are an `F`.
pub open spec fn lifts_to_f(v: V<PublicKey>) -> bool {
    v is CheckSig || v is CheckMultiSig || v is HashEqual || v is Threshold || v is CascadeOr || v is SwitchOr
}

/// After `1`: a `V` that, followed by `1`, is the `F` of the same shape.
fn parse_f_from_v(tokens: &mut TokenIter, Ghost(done): Ghost<Seq<Instr<PublicKey>>>) -> (r: Result<Elem, Error>)
    requires
        done == seq![Instr::<PublicKey>::Int(1)],
    ensures
        final(tokens)@.len() <= old(tokens)@.len(),
        r matches Ok(x) ==> reads(old(tokens)@, final(tokens)@, x, done),
        reads_whole(old(tokens)@.push(Token::Number(1)), final(tokens)@, r),
        forall|v: V<PublicKey>, n: int| #[trigger] canon_at(old(tokens)@, Elem::V(v), n) && !lifts_to_f(v) ==> refused_with(
            r,
            v.display(),
        ),
    decreases old(tokens)@.len(), 1nat,
{
    let ghost t0 = tokens@;
    let res = parse_subexpression(tokens);
    let ghost t1 = tokens@;
    let r = match res {
        Err(e) => Err(e),
        Ok(Elem::V(vexpr)) => match vexpr {
            V::CheckSig(pk) => Ok(Elem::F(F::CheckSig(pk))),
            V::CheckMultiSig(k, keys) => Ok(Elem::F(F::CheckMultiSig(k, keys))),
            V::HashEqual(hash) => Ok(Elem::F(F::HashEqual(hash))),
            V::Threshold(k, e, ws) => Ok(Elem::F(F::Threshold(k, e, ws))),
            V::CascadeOr(left, right) => Ok(Elem::F(F::CascadeOr(left, right))),
            V::SwitchOr(left, right) => Ok(Elem::F(F::SwitchOrV(left, right))),
            x => Err(Error::Unexpected(x.to_string())),
        },
        Ok(other) => Err(Error::Unexpected(other.to_string())),
    };
    proof {
        if r is Ok {
            assert(consumed(t0, t1) =~= consumed(t0, t1) + Seq::<Instr<PublicKey>>::empty());
            assert(consumed(t0, t1) + done =~= r->Ok_0.instrs());
        }
        assert forall|v: V<PublicKey>, n: int| #[trigger] canon_at(t0, Elem::V(v), n) && !lifts_to_f(v) implies refused_with(
            r,
            v.display(),
        ) by {
            if let Ok(Elem::V(v2)) = res {
                v2.lemma_same_display(&v);
            }
        }
        assert forall|x: Elem, n: int| #[trigger] whole_at(t0.push(Token::Number(1)), x, n) implies (r matches Ok(y)
            && y.same(x)) && t1 == t0.push(Token::Number(1)).subrange(0, n) by {
            lemma_one_whole(t0, x, n);
        }
    }
    r
}

} // verus!
