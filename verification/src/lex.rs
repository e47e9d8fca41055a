//! Tokens of a script, and the stack of them that the script parser reads.
//!
//! A script is read from its end: the parser takes tokens off the back of
//! the list, which holds them in script order.

use vstd::prelude::*;
use vstd::string::StringExecFns;
use crate::ast::Instr;
use crate::display::key_text;
use crate::keys::{PublicKey, Sha256dHash};
use crate::script::{
    OP_0NOTEQUAL, OP_ADD, OP_BOOLAND, OP_BOOLOR, OP_CHECKMULTISIG, OP_CHECKMULTISIGVERIFY,
    OP_CHECKSIG, OP_CHECKSIGVERIFY, OP_CSV, OP_DROP, OP_DUP, OP_ELSE, OP_ENDIF, OP_EQUAL,
    OP_EQUALVERIFY, OP_FROMALTSTACK, OP_SHA256, OP_IF, OP_IFDUP, OP_NOTIF, OP_SIZE, OP_SWAP,
    OP_TOALTSTACK, OP_VERIFY,
};
use crate::text::{dec, hex, push_dec, push_hex};

verus! {

/// A script token: an opcode, a small number, a key or a hash.
#[derive(Clone, Copy, PartialEq, Eq, Debug)]
pub enum Token {
    BoolAnd,
    BoolOr,
    Add,
    Equal,
    EqualVerify,
    CheckSig,
    CheckSigVerify,
    CheckMultiSig,
    CheckMultiSigVerify,
    CheckSequenceVerify,
    FromAltStack,
    ToAltStack,
    Drop,
    Dup,
    If,
    IfDup,
    NotIf,
    Else,
    EndIf,
    ZeroNotEqual,
    Size,
    Swap,
    Verify,
    /// The SHA256 opcode (`OP_SHA256`).
    Sha256,
    Number(u32),
    Sha256Hash(Sha256dHash),
    Pubkey(PublicKey),
}

/// The script instruction that a token stands for.
pub open spec fn token_instr(t: Token) -> Instr<PublicKey> {
    match t {
        Token::BoolAnd => Instr::Op(OP_BOOLAND),
        Token::BoolOr => Instr::Op(OP_BOOLOR),
        Token::Add => Instr::Op(OP_ADD),
        Token::Equal => Instr::Op(OP_EQUAL),
        Token::EqualVerify => Instr::Op(OP_EQUALVERIFY),
        Token::CheckSig => Instr::Op(OP_CHECKSIG),
        Token::CheckSigVerify => Instr::Op(OP_CHECKSIGVERIFY),
        Token::CheckMultiSig => Instr::Op(OP_CHECKMULTISIG),
        Token::CheckMultiSigVerify => Instr::Op(OP_CHECKMULTISIGVERIFY),
        Token::CheckSequenceVerify => Instr::Op(OP_CSV),
        Token::FromAltStack => Instr::Op(OP_FROMALTSTACK),
        Token::ToAltStack => Instr::Op(OP_TOALTSTACK),
        Token::Drop => Instr::Op(OP_DROP),
        Token::Dup => Instr::Op(OP_DUP),
        Token::If => Instr::Op(OP_IF),
        Token::IfDup => Instr::Op(OP_IFDUP),
        Token::NotIf => Instr::Op(OP_NOTIF),
        Token::Else => Instr::Op(OP_ELSE),
        Token::EndIf => Instr::Op(OP_ENDIF),
        Token::ZeroNotEqual => Instr::Op(OP_0NOTEQUAL),
        Token::Size => Instr::Op(OP_SIZE),
        Token::Swap => Instr::Op(OP_SWAP),
        Token::Verify => Instr::Op(OP_VERIFY),
        Token::Sha256 => Instr::Op(OP_SHA256),
        Token::Number(n) => Instr::Int(n as i64),
        Token::Sha256Hash(h) => Instr::Hash(h),
        Token::Pubkey(pk) => Instr::Key(pk),
    }
}

/// The instructions that a list of tokens stands for.
pub open spec fn toks_instrs(ts: Seq<Token>) -> Seq<Instr<PublicKey>> {
    ts.map_values(|t: Token| token_instr(t))
}

/// `new` is what is left of `old` after tokens were taken off its back.
pub open spec fn is_prefix(new: Seq<Token>, old: Seq<Token>) -> bool {
    new.len() <= old.len() && new == old.subrange(0, new.len() as int)
}

/// The instructions of the tokens taken off `old` to leave `new`.
pub open spec fn consumed(old: Seq<Token>, new: Seq<Token>) -> Seq<Instr<PublicKey>> {
    toks_instrs(old.subrange(new.len() as int, old.len() as int))
}

/// What two steps take, the first from `a` to `b`, then from `b` to `c`,
/// is what the whole takes: the later tokens first.
pub proof fn lemma_consumed_trans(a: Seq<Token>, b: Seq<Token>, c: Seq<Token>)
    requires
        is_prefix(b, a),
        is_prefix(c, b),
    ensures
        is_prefix(c, a),
        consumed(a, c) == consumed(b, c) + consumed(a, b),
{
    assert(c =~= a.subrange(0, c.len() as int));
    assert(b.subrange(c.len() as int, b.len() as int) =~= a.subrange(c.len() as int, b.len() as int));
    assert(a.subrange(c.len() as int, a.len() as int) =~= a.subrange(c.len() as int, b.len() as int)
        + a.subrange(b.len() as int, a.len() as int));
    assert(consumed(a, c) =~= consumed(b, c) + consumed(a, b));
}

/// Taking nothing takes no instruction.
pub proof fn lemma_consumed_none(a: Seq<Token>)
    ensures
        is_prefix(a, a),
        consumed(a, a) == Seq::<Instr<PublicKey>>::empty(),
{
    assert(a =~= a.subrange(0, a.len() as int));
    assert(consumed(a, a) =~= Seq::<Instr<PublicKey>>::empty());
}

/// Taking the last token takes its instruction.
pub proof fn lemma_consumed_last(a: Seq<Token>)
    requires
        a.len() > 0,
    ensures
        is_prefix(a.drop_last(), a),
        consumed(a, a.drop_last()) == seq![token_instr(a.last())],
{
    assert(a.drop_last() =~= a.subrange(0, a.len() - 1));
    assert(consumed(a, a.drop_last()) =~= seq![token_instr(a.last())]);
}

/// The text of a token: its name, a number after `#`, a key or a hash in hex.
pub open spec fn token_text(t: Token) -> Seq<char> {
    match t {
        Token::BoolAnd => "BoolAnd"@,
        Token::BoolOr => "BoolOr"@,
        Token::Add => "Add"@,
        Token::Equal => "Equal"@,
        Token::EqualVerify => "EqualVerify"@,
        Token::CheckSig => "CheckSig"@,
        Token::CheckSigVerify => "CheckSigVerify"@,
        Token::CheckMultiSig => "CheckMultiSig"@,
        Token::CheckMultiSigVerify => "CheckMultiSigVerify"@,
        Token::CheckSequenceVerify => "CheckSequenceVerify"@,
        Token::FromAltStack => "FromAltStack"@,
        Token::ToAltStack => "ToAltStack"@,
        Token::Drop => "Drop"@,
        Token::Dup => "Dup"@,
        Token::If => "If"@,
        Token::IfDup => "IfDup"@,
        Token::NotIf => "NotIf"@,
        Token::Else => "Else"@,
        Token::EndIf => "EndIf"@,
        Token::ZeroNotEqual => "ZeroNotEqual"@,
        Token::Size => "Size"@,
        Token::Swap => "Swap"@,
        Token::Verify => "Verify"@,
        Token::Sha256 => "Sha256"@,
        Token::Number(n) => "#"@ + dec(n as nat),
        Token::Sha256Hash(h) => hex(h.bytes@),
        Token::Pubkey(pk) => key_text(pk),
    }
}

impl Token {
    /// The text of this token.
    pub fn to_string(&self) -> (r: String)
        ensures
            r@ == token_text(*self),
    {
        let mut s = String::new();
        match self {
            Token::BoolAnd => s.append("BoolAnd"),
            Token::BoolOr => s.append("BoolOr"),
            Token::Add => s.append("Add"),
            Token::Equal => s.append("Equal"),
            Token::EqualVerify => s.append("EqualVerify"),
            Token::CheckSig => s.append("CheckSig"),
            Token::CheckSigVerify => s.append("CheckSigVerify"),
            Token::CheckMultiSig => s.append("CheckMultiSig"),
            Token::CheckMultiSigVerify => s.append("CheckMultiSigVerify"),
            Token::CheckSequenceVerify => s.append("CheckSequenceVerify"),
            Token::FromAltStack => s.append("FromAltStack"),
            Token::ToAltStack => s.append("ToAltStack"),
            Token::Drop => s.append("Drop"),
            Token::Dup => s.append("Dup"),
            Token::If => s.append("If"),
            Token::IfDup => s.append("IfDup"),
            Token::NotIf => s.append("NotIf"),
            Token::Else => s.append("Else"),
            Token::EndIf => s.append("EndIf"),
            Token::ZeroNotEqual => s.append("ZeroNotEqual"),
            Token::Size => s.append("Size"),
            Token::Swap => s.append("Swap"),
            Token::Verify => s.append("Verify"),
            Token::Sha256 => s.append("Sha256"),
            Token::Number(n) => {
                s.append("#");
                push_dec(&mut s, *n as u64);
            },
            Token::Sha256Hash(h) => push_hex(&mut s, h.bytes.as_slice()),
            Token::Pubkey(pk) => push_hex(&mut s, pk.bytes.as_slice()),
        }
        proof {
            assert(s@ =~= token_text(*self));
        }
        s
    }
}

/// Whether two byte strings are equal.
fn same_bytes(a: &[u8], b: &[u8]) -> (r: bool)
    ensures
        r == (a@ == b@),
{
    if a.len() != b.len() {
        return false;
    }
    let mut i: usize = 0;
    while i < a.len()
        invariant
            i <= a@.len(),
            a@.len() == b@.len(),
            forall|j: int| 0 <= j < i ==> a@[j] == b@[j],
        decreases a.len() - i,
    {
        if a[i] != b[i] {
            return false;
        }
        i = i + 1;
    }
    proof {
        assert(a@ =~= b@);
    }
    true
}

/// Whether two tokens are equal.
fn is_token(t: Token, want: Token) -> (r: bool)
    ensures
        r == (t == want),
{
    match (t, want) {
        (Token::BoolAnd, Token::BoolAnd) => true,
        (Token::BoolOr, Token::BoolOr) => true,
        (Token::Add, Token::Add) => true,
        (Token::Equal, Token::Equal) => true,
        (Token::EqualVerify, Token::EqualVerify) => true,
        (Token::CheckSig, Token::CheckSig) => true,
        (Token::CheckSigVerify, Token::CheckSigVerify) => true,
        (Token::CheckMultiSig, Token::CheckMultiSig) => true,
        (Token::CheckMultiSigVerify, Token::CheckMultiSigVerify) => true,
        (Token::CheckSequenceVerify, Token::CheckSequenceVerify) => true,
        (Token::FromAltStack, Token::FromAltStack) => true,
        (Token::ToAltStack, Token::ToAltStack) => true,
        (Token::Drop, Token::Drop) => true,
        (Token::Dup, Token::Dup) => true,
        (Token::If, Token::If) => true,
        (Token::IfDup, Token::IfDup) => true,
        (Token::NotIf, Token::NotIf) => true,
        (Token::Else, Token::Else) => true,
        (Token::EndIf, Token::EndIf) => true,
        (Token::ZeroNotEqual, Token::ZeroNotEqual) => true,
        (Token::Size, Token::Size) => true,
        (Token::Swap, Token::Swap) => true,
        (Token::Verify, Token::Verify) => true,
        (Token::Sha256, Token::Sha256) => true,
        (Token::Number(a), Token::Number(b)) => a == b,
        (Token::Sha256Hash(a), Token::Sha256Hash(b)) => {
            let r = same_bytes(a.bytes.as_slice(), b.bytes.as_slice());
            proof {
                if r {
                    assert(a.bytes =~= b.bytes);
                }
            }
            r
        },
        (Token::Pubkey(a), Token::Pubkey(b)) => {
            let r = same_bytes(a.bytes.as_slice(), b.bytes.as_slice());
            proof {
                if r {
                    assert(a.bytes =~= b.bytes);
                }
            }
            r
        },
        _ => false,
    }
}

/// The tokens of a script, read from its end.
pub struct TokenIter(pub Vec<Token>);

impl View for TokenIter {
    type V = Seq<Token>;

    open spec fn view(&self) -> Seq<Token> {
        self.0@
    }
}

impl TokenIter {
    /// A reader over the given tokens, in script order.
    pub fn new(v: Vec<Token>) -> (r: TokenIter)
        ensures
            r@ == v@,
    {
        TokenIter(v)
    }

    /// The token that `next` would give, if any.
    pub fn peek(&self) -> (r: Option<&Token>)
        ensures
            r matches Some(t) ==> self@.len() > 0 && *t == self@.last(),
            r is None ==> self@.len() == 0,
    {
        let n = self.0.len();
        if n == 0 {
            None
        } else {
            Some(&self.0[n - 1])
        }
    }

    /// Takes the last token off.
    pub fn next(&mut self) -> (r: Option<Token>)
        ensures
            old(self)@.len() == 0 ==> r is None && final(self)@ == old(self)@,
            old(self)@.len() > 0 ==> r == Some(old(self)@.last()) && final(self)@ == old(self)@.drop_last(),
    {
        self.0.pop()
    }

    /// Puts a token back on.
    pub fn un_next(&mut self, tok: Token)
        ensures
            final(self)@ == old(self)@.push(tok),
    {
        self.0.push(tok);
    }

    /// Takes the last token off, which must be `want`.
    pub fn expect(&mut self, want: Token) -> (r: Result<(), crate::error::Error>)
        ensures
            r is Ok <==> (old(self)@.len() > 0 && old(self)@.last() == want),
            old(self)@.len() == 0 ==> r == Err::<(), crate::error::Error>(crate::error::Error::UnexpectedStart),
            old(self)@.len() > 0 ==> final(self)@ == old(self)@.drop_last(),
            old(self)@.len() == 0 ==> final(self)@ == old(self)@,
            r matches Err(crate::error::Error::Unexpected(s)) ==> s@ == token_text(old(self)@.last()),
    {
        match self.next() {
            Some(tok) => {
                if is_token(tok, want) {
                    Ok(())
                } else {
                    Err(crate::error::Error::Unexpected(tok.to_string()))
                }
            },
            None => Err(crate::error::Error::UnexpectedStart),
        }
    }
}

} // verus!
