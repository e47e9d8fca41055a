//! The tokens of a fragment, and the fragments that the script parser reads
//! back from their own tokens.

use std::rc::Rc;
use vstd::prelude::*;
use crate::ast::{E, W, F, V, T};
use crate::elem::Elem;
use crate::keys::{PublicKey, Sha256dHash};
use crate::lex::Token;

verus! {

/// The tokens of a key list: the number of signatures, the keys, the
/// number of keys.
pub open spec fn multisig_tokens(k: usize, pks: Seq<PublicKey>) -> Seq<Token> {
    seq![Token::Number(k as u32)] + pks.map_values(|p: PublicKey| Token::Pubkey(p)) + seq![
        Token::Number(pks.len() as u32),
    ]
}

/// The tokens of a hash check, up to the hash.
pub open spec fn hash_tokens(h: Sha256dHash) -> Seq<Token> {
    seq![Token::Size, Token::Number(32), Token::EqualVerify, Token::Sha256, Token::Sha256Hash(h)]
}

/// The tokens of a relative timelock.
pub open spec fn time_tokens(n: u32) -> Seq<Token> {
    seq![Token::Number(n), Token::CheckSequenceVerify]
}

/// A key list whose sizes fit in script numbers.
pub open spec fn small(k: usize, pks: Seq<PublicKey>) -> bool {
    k <= u32::MAX && pks.len() <= u32::MAX
}

/// The tokens of the wrapped parts of a threshold, each followed by `ADD`.
pub open spec fn ws_tokens(ws: Seq<Rc<W<PublicKey>>>) -> Seq<Token>
    decreases ws,
{
    if ws.len() == 0 {
        Seq::empty()
    } else {
        ws_tokens(ws.subrange(0, ws.len() - 1)) + ws.last().tokens() + seq![Token::Add]
    }
}

/// Wrapped parts the parser reads back.
pub open spec fn ws_canon(ws: Seq<Rc<W<PublicKey>>>) -> bool
    decreases ws,
{
    if ws.len() == 0 {
        true
    } else {
        ws_canon(ws.subrange(0, ws.len() - 1)) && ws.last().canon()
    }
}

/// Wrapped parts are read back just where each of them is.
pub proof fn lemma_ws_canon(ws: Seq<Rc<W<PublicKey>>>)
    ensures
        ws_canon(ws) <==> forall|i: int| 0 <= i < ws.len() ==> #[trigger] ws[i].canon(),
    decreases ws.len(),
{
    if ws.len() > 0 {
        let p = ws.subrange(0, ws.len() - 1);
        lemma_ws_canon(p);
        if forall|i: int| 0 <= i < ws.len() ==> #[trigger] ws[i].canon() {
            assert forall|i: int| 0 <= i < p.len() implies #[trigger] p[i].canon() by {
                assert(p[i] == ws[i]);
            }
            assert(ws[ws.len() - 1].canon());
        }
        if ws_canon(ws) {
            assert forall|i: int| 0 <= i < ws.len() implies #[trigger] ws[i].canon() by {
                if i < ws.len() - 1 {
                    assert(p[i] == ws[i]);
                    assert(p[i].canon());
                }
            }
        }
    }
}

/// The tokens of an `IF <l> ELSE <r> ENDIF` switch, opened by `open`.
pub open spec fn switch_tokens(open: Token, l: Seq<Token>, r: Seq<Token>) -> Seq<Token> {
    seq![open] + l + seq![Token::Else] + r + seq![Token::EndIf]
}

impl E<PublicKey> {
    /// The tokens of the fragment's script, in order.
    pub open spec fn tokens(self) -> Seq<Token>
        decreases self,
    {
        match self {
            E::CheckSig(pk) => seq![Token::Pubkey(pk), Token::CheckSig],
            E::CheckMultiSig(k, pks) => multisig_tokens(k, pks@).push(Token::CheckMultiSig),
            E::Time(n) => seq![Token::Dup, Token::If] + time_tokens(n) + seq![Token::Drop, Token::EndIf],
            E::Threshold(k, e, ws) => e.tokens() + ws_tokens(ws@) + seq![Token::Number(k as u32), Token::Equal],
            E::ParallelAnd(l, r) => l.tokens() + r.tokens() + seq![Token::BoolAnd],
            E::CascadeAnd(l, r) => l.tokens() + seq![Token::NotIf, Token::Number(0), Token::Else] + r.tokens() + seq![
                Token::EndIf,
            ],
            E::ParallelOr(l, r) => l.tokens() + r.tokens() + seq![Token::BoolOr],
            E::CascadeOr(l, r) => l.tokens() + seq![Token::IfDup, Token::NotIf] + r.tokens() + seq![Token::EndIf],
            E::SwitchOrLeft(l, r) => switch_tokens(Token::If, l.tokens(), r.tokens()),
            E::SwitchOrRight(l, r) => switch_tokens(Token::NotIf, l.tokens(), r.tokens()),
            E::Likely(f) => seq![Token::NotIf] + f.tokens() + seq![Token::Else, Token::Number(0), Token::EndIf],
            E::Unlikely(f) => seq![Token::If] + f.tokens() + seq![Token::Else, Token::Number(0), Token::EndIf],
        }
    }

    /// The parser reads the fragment back from its tokens, where a stop
    /// precedes them: no cascade `or` (whose tokens are also those of a
    /// `T`), and wrapped parts read back.
    pub open spec fn canon(self) -> bool
        decreases self,
    {
        match self {
            E::CheckSig(_) => true,
            E::CheckMultiSig(k, pks) => small(k, pks@),
            E::Time(_) => true,
            E::Threshold(k, e, ws) => k <= u32::MAX && e.canon() && ws_canon(ws@),
            E::ParallelAnd(l, r) => l.canon() && r.canon(),
            E::ParallelOr(l, r) => l.canon() && r.canon(),
            E::CascadeAnd(l, r) => l.canon() && r.canon(),
            E::SwitchOrLeft(l, r) => l.canon() && r.canon(),
            E::SwitchOrRight(l, r) => l.canon() && r.canon(),
            E::Likely(f) => f.canon(),
            E::Unlikely(f) => f.canon(),
            _ => false,
        }
    }
}

impl W<PublicKey> {
    /// The tokens of the fragment's script, in order.
    pub open spec fn tokens(self) -> Seq<Token>
        decreases self,
    {
        match self {
            W::CheckSig(pk) => seq![Token::Swap, Token::Pubkey(pk), Token::CheckSig],
            W::HashEqual(h) => seq![Token::Swap, Token::Size, Token::ZeroNotEqual, Token::If] + hash_tokens(h) + seq![
                Token::EqualVerify,
                Token::Number(1),
                Token::EndIf,
            ],
            W::Time(n) => seq![Token::Swap, Token::Dup, Token::If] + time_tokens(n) + seq![Token::Drop, Token::EndIf],
            W::CastE(e) => seq![Token::ToAltStack] + e.tokens() + seq![Token::FromAltStack],
        }
    }

    /// The parser reads the fragment back from its tokens: a cast `E`
    /// where the parser reads that `E` back.
    pub open spec fn canon(self) -> bool
        decreases self,
    {
        match self {
            W::CastE(e) => e.canon(),
            _ => true,
        }
    }
}

impl F<PublicKey> {
    /// The tokens of the fragment's script, in order.
    pub open spec fn tokens(self) -> Seq<Token>
        decreases self,
    {
        match self {
            F::CheckSig(pk) => seq![Token::Pubkey(pk), Token::CheckSigVerify, Token::Number(1)],
            F::CheckMultiSig(k, pks) => multisig_tokens(k, pks@) + seq![Token::CheckMultiSigVerify, Token::Number(1)],
            F::Time(n) => time_tokens(n).push(Token::ZeroNotEqual),
            F::HashEqual(h) => hash_tokens(h) + seq![Token::EqualVerify, Token::Number(1)],
            F::Threshold(k, e, ws) => e.tokens() + ws_tokens(ws@) + seq![
                Token::Number(k as u32),
                Token::EqualVerify,
                Token::Number(1),
            ],
            F::And(l, r) => l.tokens() + r.tokens(),
            F::CascadeOr(l, r) => l.tokens() + seq![Token::NotIf] + r.tokens() + seq![Token::EndIf, Token::Number(1)],
            F::SwitchOr(l, r) => switch_tokens(Token::If, l.tokens(), r.tokens()),
            F::SwitchOrV(l, r) => switch_tokens(Token::If, l.tokens(), r.tokens()).push(Token::Number(1)),
        }
    }

    /// The parser reads the fragment's tokens back without looking at what
    /// precedes them: it may stand after another fragment, joined by `and`.
    pub open spec fn closed(self) -> bool {
        self is Time || self is SwitchOr
    }

    /// The parser reads the fragment back from its tokens, where a stop
    /// precedes them: wrapped parts read back, the second part of
    /// an `and` closed, and no `V` that ends with `DROP` before an `ENDIF`.
    pub open spec fn canon(self) -> bool
        decreases self,
    {
        match self {
            F::CheckSig(_) => true,
            F::CheckMultiSig(k, pks) => small(k, pks@),
            F::Time(_) => true,
            F::HashEqual(_) => true,
            F::Threshold(k, e, ws) => k <= u32::MAX && e.canon() && ws_canon(ws@),
            F::And(l, r) => l.canon() && r.canon() && r.closed(),
            F::SwitchOr(l, r) => l.canon() && r.canon(),
            F::CascadeOr(l, r) => l.canon() && r.canon() && !r.ends_with_drop(),
            F::SwitchOrV(l, r) => l.canon() && r.canon() && !r.ends_with_drop(),
        }
    }
}

impl V<PublicKey> {
    /// The tokens of the fragment's script, in order.
    pub open spec fn tokens(self) -> Seq<Token>
        decreases self,
    {
        match self {
            V::CheckSig(pk) => seq![Token::Pubkey(pk), Token::CheckSigVerify],
            V::CheckMultiSig(k, pks) => multisig_tokens(k, pks@).push(Token::CheckMultiSigVerify),
            V::Time(n) => time_tokens(n).push(Token::Drop),
            V::HashEqual(h) => hash_tokens(h).push(Token::EqualVerify),
            V::Threshold(k, e, ws) => e.tokens() + ws_tokens(ws@) + seq![Token::Number(k as u32), Token::EqualVerify],
            V::And(l, r) => l.tokens() + r.tokens(),
            V::CascadeOr(l, r) => l.tokens() + seq![Token::NotIf] + r.tokens() + seq![Token::EndIf],
            V::SwitchOr(l, r) => switch_tokens(Token::If, l.tokens(), r.tokens()),
            V::SwitchOrT(l, r) => switch_tokens(Token::If, l.tokens(), r.tokens()).push(Token::Verify),
        }
    }

    /// The fragment's tokens end with `DROP`.
    pub open spec fn ends_with_drop(self) -> bool
        decreases self,
    {
        match self {
            V::Time(_) => true,
            V::And(_, r) => r.ends_with_drop(),
            _ => false,
        }
    }

    /// The parser reads the fragment's tokens back without looking at what
    /// precedes them: it may stand after another fragment, joined by `and`.
    pub open spec fn closed(self) -> bool {
        self is CheckSig || self is CheckMultiSig || self is Time || self is HashEqual || self is SwitchOr
            || self is SwitchOrT
    }

    /// The parser reads the fragment back from its tokens, where a stop
    /// precedes them: wrapped parts read back, the second part of
    /// an `and` closed, and no `V` that ends with `DROP` before an `ENDIF`.
    pub open spec fn canon(self) -> bool
        decreases self,
    {
        match self {
            V::CheckSig(_) => true,
            V::CheckMultiSig(k, pks) => small(k, pks@),
            V::Time(_) => true,
            V::HashEqual(_) => true,
            V::Threshold(k, e, ws) => k <= u32::MAX && e.canon() && ws_canon(ws@),
            V::And(l, r) => l.canon() && r.canon() && r.closed(),
            V::CascadeOr(l, r) => l.canon() && r.canon() && !r.ends_with_drop(),
            V::SwitchOr(l, r) => l.canon() && r.canon() && !r.ends_with_drop(),
            V::SwitchOrT(l, r) => l.canon() && r.canon(),
        }
    }
}

impl T<PublicKey> {
    /// The tokens of the fragment's script, in order.
    pub open spec fn tokens(self) -> Seq<Token>
        decreases self,
    {
        match self {
            T::Time(n) => time_tokens(n),
            T::HashEqual(h) => hash_tokens(h).push(Token::Equal),
            T::And(l, r) => l.tokens() + r.tokens(),
            T::ParallelOr(l, r) => l.tokens() + r.tokens() + seq![Token::BoolOr],
            T::CascadeOr(l, r) => l.tokens() + seq![Token::IfDup, Token::NotIf] + r.tokens() + seq![Token::EndIf],
            T::CascadeOrV(l, r) => l.tokens() + seq![Token::NotIf] + r.tokens() + seq![Token::EndIf, Token::Number(1)],
            T::SwitchOr(l, r) => switch_tokens(Token::If, l.tokens(), r.tokens()),
            T::SwitchOrV(l, r) => switch_tokens(Token::If, l.tokens(), r.tokens()).push(Token::Number(1)),
            T::CastE(e) => e.tokens(),
        }
    }

    /// The parser reads the fragment's tokens back without looking at what
    /// precedes them: it may stand after another fragment, joined by `and`.
    pub open spec fn closed(self) -> bool {
        self is Time || self is HashEqual || self is SwitchOr
    }

    /// The parser reads the fragment back, as a `T`, from its tokens, where
    /// a stop precedes them: those forms whose tokens are not also those of
    /// an `E` or an `F`, the second part of an `and` closed.
    pub open spec fn canon(self) -> bool
        decreases self,
    {
        match self {
            T::Time(_) => true,
            T::HashEqual(_) => true,
            T::And(l, r) => l.canon() && r.canon() && r.closed(),
            T::CascadeOr(l, r) => l.canon() && r.canon(),
            T::SwitchOr(l, r) => l.canon() && r.canon(),
            _ => false,
        }
    }
}

impl Elem {
    /// The tokens of the fragment's script, in order.
    pub open spec fn tokens(self) -> Seq<Token> {
        match self {
            Elem::E(x) => x.tokens(),
            Elem::W(x) => x.tokens(),
            Elem::F(x) => x.tokens(),
            Elem::V(x) => x.tokens(),
            Elem::T(x) => x.tokens(),
        }
    }

    /// The parser reads the fragment back from its tokens, where a stop
    /// precedes them; see `E::canon`.
    pub open spec fn canon(self) -> bool {
        match self {
            Elem::E(x) => x.canon(),
            Elem::W(x) => x.canon(),
            Elem::F(x) => x.canon(),
            Elem::V(x) => x.canon(),
            Elem::T(x) => x.canon(),
        }
    }

    /// The same fragment, of the same kind, lists compared by their
    /// contents.
    pub open spec fn same(self, x: Elem) -> bool {
        match (self, x) {
            (Elem::E(y), Elem::E(x)) => y.same(x),
            (Elem::W(y), Elem::W(x)) => y.same(x),
            (Elem::F(y), Elem::F(x)) => y.same(x),
            (Elem::V(y), Elem::V(x)) => y.same(x),
            (Elem::T(y), Elem::T(x)) => y.same(x),
            _ => false,
        }
    }
}

/// A switch ends with `ENDIF`.
pub proof fn lemma_switch_last()
    ensures
        forall|o: Token, l: Seq<Token>, r: Seq<Token>| #[trigger] switch_tokens(o, l, r).last() == Token::EndIf
            && switch_tokens(o, l, r).len() >= 3,
{
    assert forall|o: Token, l: Seq<Token>, r: Seq<Token>| #[trigger] switch_tokens(o, l, r).last() == Token::EndIf
        && switch_tokens(o, l, r).len() >= 3 by {
        let q = seq![o] + l + seq![Token::Else] + r;
        assert(switch_tokens(o, l, r) == q + seq![Token::EndIf]);
        assert((q + seq![Token::EndIf]).last() == Token::EndIf);
    }
}

/// The last token of a fragment: never a token that opens a branch, `SWAP`
/// or `0`; by kind, one of a few; for a `V`, `DROP` just where it ends with
/// one.
pub open spec fn ends_well(x: Elem) -> bool {
    let last = x.tokens().last();
    &&& x.tokens().len() >= 1
    &&& !(last is If || last is NotIf || last is Else || last is Swap || last == Token::Number(0))
    &&& match x {
        Elem::E(_) => last is CheckSig || last is CheckMultiSig || last is EndIf || last is BoolAnd || last is BoolOr
            || last is Equal,
        Elem::W(_) => last is CheckSig || last is EndIf || last is FromAltStack,
        Elem::F(_) => last == Token::Number(1) || last is ZeroNotEqual || last is EndIf,
        Elem::V(v) => (last is CheckSigVerify || last is CheckMultiSigVerify || last is Drop || last is EqualVerify
            || last is EndIf || last is Verify) && (last is Drop <==> v.ends_with_drop()),
        Elem::T(_) => last is CheckSequenceVerify || last is Equal || last is EndIf,
    }
}

/// The last of two lists of tokens, one after the other, is that of the
/// second.
pub proof fn lemma_concat_last()
    ensures
        forall|a: Seq<Token>, b: Seq<Token>| #![trigger a + b] b.len() >= 1 ==> (a + b).len() >= 1 && (a + b).last()
            == b.last(),
{
    assert forall|a: Seq<Token>, b: Seq<Token>| #![trigger a + b] b.len() >= 1 implies (a + b).len() >= 1 && (a
        + b).last() == b.last() by {
        assert((a + b)[(a + b).len() - 1] == b[b.len() - 1]);
    }
}

/// How the fragments that the parser reads back end.
pub proof fn lemma_canon_ends(x: Elem)
    requires
        x.canon(),
    ensures
        ends_well(x),
{
    match x {
        Elem::E(e) => e.lemma_ends(),
        Elem::W(w) => w.lemma_ends(),
        Elem::F(f) => f.lemma_ends(),
        Elem::V(v) => v.lemma_ends(),
        Elem::T(t) => t.lemma_ends(),
    }
}

impl E<PublicKey> {
    /// How the fragments that the parser reads back end.
    pub proof fn lemma_ends(&self)
        requires
            self.canon(),
        ensures
            ends_well(Elem::E(*self)),
    {
        lemma_switch_last();
        lemma_concat_last();
    }
}

impl W<PublicKey> {
    /// How the fragments that the parser reads back end.
    pub proof fn lemma_ends(&self)
        requires
            self.canon(),
        ensures
            ends_well(Elem::W(*self)),
    {
        lemma_concat_last();
    }
}

impl F<PublicKey> {
    /// How the fragments that the parser reads back end.
    pub proof fn lemma_ends(&self)
        requires
            self.canon(),
        ensures
            ends_well(Elem::F(*self)),
        decreases *self,
    {
        lemma_switch_last();
        lemma_concat_last();
        if let F::And(l, r) = self {
            r.lemma_ends();
        }
    }
}

impl V<PublicKey> {
    /// How the fragments that the parser reads back end.
    pub proof fn lemma_ends(&self)
        requires
            self.canon(),
        ensures
            ends_well(Elem::V(*self)),
        decreases *self,
    {
        lemma_switch_last();
        lemma_concat_last();
        if let V::And(l, r) = self {
            r.lemma_ends();
        }
    }
}

impl T<PublicKey> {
    /// How the fragments that the parser reads back end.
    pub proof fn lemma_ends(&self)
        requires
            self.canon(),
        ensures
            ends_well(Elem::T(*self)),
        decreases *self,
    {
        lemma_switch_last();
        lemma_concat_last();
        if let T::And(l, r) = self {
            r.lemma_ends();
        }
    }
}

/// The numbers of wrapped parts fit in the script numbers of their tokens.
pub open spec fn ws_sized(ws: Seq<Rc<W<PublicKey>>>) -> bool
    decreases ws,
{
    if ws.len() == 0 {
        true
    } else {
        ws_sized(ws.subrange(0, ws.len() - 1)) && ws.last().sized()
    }
}

impl E<PublicKey> {
    /// Every threshold and key count of the fragment fits in the script
    /// number of its token.
    pub open spec fn sized(&self) -> bool
        decreases self,
    {
        match self {
            E::CheckMultiSig(k, pks) => small(*k, pks@),
            E::Threshold(k, e, ws) => *k <= u32::MAX && e.sized() && ws_sized(ws@),
            E::ParallelAnd(l, r) => l.sized() && r.sized(),
            E::CascadeAnd(l, r) => l.sized() && r.sized(),
            E::ParallelOr(l, r) => l.sized() && r.sized(),
            E::CascadeOr(l, r) => l.sized() && r.sized(),
            E::SwitchOrLeft(l, r) => l.sized() && r.sized(),
            E::SwitchOrRight(l, r) => l.sized() && r.sized(),
            E::Likely(f) => f.sized(),
            E::Unlikely(f) => f.sized(),
            _ => true,
        }
    }
}

impl W<PublicKey> {
    /// Every threshold and key count of the fragment fits in the script
    /// number of its token.
    pub open spec fn sized(&self) -> bool
        decreases self,
    {
        match self {
            W::CastE(e) => e.sized(),
            _ => true,
        }
    }
}

impl F<PublicKey> {
    /// Every threshold and key count of the fragment fits in the script
    /// number of its token.
    pub open spec fn sized(&self) -> bool
        decreases self,
    {
        match self {
            F::CheckMultiSig(k, pks) => small(*k, pks@),
            F::Threshold(k, e, ws) => *k <= u32::MAX && e.sized() && ws_sized(ws@),
            F::And(l, r) => l.sized() && r.sized(),
            F::CascadeOr(l, r) => l.sized() && r.sized(),
            F::SwitchOr(l, r) => l.sized() && r.sized(),
            F::SwitchOrV(l, r) => l.sized() && r.sized(),
            _ => true,
        }
    }
}

impl V<PublicKey> {
    /// Every threshold and key count of the fragment fits in the script
    /// number of its token.
    pub open spec fn sized(&self) -> bool
        decreases self,
    {
        match self {
            V::CheckMultiSig(k, pks) => small(*k, pks@),
            V::Threshold(k, e, ws) => *k <= u32::MAX && e.sized() && ws_sized(ws@),
            V::And(l, r) => l.sized() && r.sized(),
            V::CascadeOr(l, r) => l.sized() && r.sized(),
            V::SwitchOr(l, r) => l.sized() && r.sized(),
            V::SwitchOrT(l, r) => l.sized() && r.sized(),
            _ => true,
        }
    }
}

impl T<PublicKey> {
    /// Every threshold and key count of the fragment fits in the script
    /// number of its token.
    pub open spec fn sized(&self) -> bool
        decreases self,
    {
        match self {
            T::And(l, r) => l.sized() && r.sized(),
            T::ParallelOr(l, r) => l.sized() && r.sized(),
            T::CascadeOr(l, r) => l.sized() && r.sized(),
            T::CascadeOrV(l, r) => l.sized() && r.sized(),
            T::SwitchOr(l, r) => l.sized() && r.sized(),
            T::SwitchOrV(l, r) => l.sized() && r.sized(),
            T::CastE(e) => e.sized(),
            _ => true,
        }
    }
}

impl Elem {
    /// Every threshold and key count of the fragment fits in the script
    /// number of its token.
    pub open spec fn sized(&self) -> bool {
        match self {
            Elem::E(x) => x.sized(),
            Elem::W(x) => x.sized(),
            Elem::F(x) => x.sized(),
            Elem::V(x) => x.sized(),
            Elem::T(x) => x.sized(),
        }
    }
}

} // verus!
