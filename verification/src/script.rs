//! Bitcoin Script building, on top of `bitcoin::blockdata::script::Builder`.
//!
//! A script is modelled by its bytes. Every fragment that the AST emits is a
//! sequence of instructions (`Instr`): an opcode, a minimal integer push, or a
//! data push of a key or of a hash.

use vstd::prelude::*;
use bitcoin::blockdata::script::Builder;
use bitcoin::blockdata::opcodes::Opcode;
use bitcoin::blockdata::script::PushBytes;
use crate::ast::Instr;
use crate::keys::PublicKey;

verus! {

/// `bitcoin`'s script builder, opaque here: what it holds is
/// `builder_bytes`.
#[verifier::external_type_specification]
#[verifier::external_body]
pub struct ExBuilder(Builder);

/// The bytes of the script that a `Builder` has built so far.
pub uninterp spec fn builder_bytes(b: Builder) -> Seq<u8>;

pub const OP_0: u8 = 0x00;
pub const OP_PUSHDATA1: u8 = 0x4c;
pub const OP_PUSHDATA2: u8 = 0x4d;
pub const OP_PUSHDATA4: u8 = 0x4e;
pub const OP_PUSHNUM_1: u8 = 0x51;
pub const OP_IF: u8 = 0x63;
pub const OP_NOTIF: u8 = 0x64;
pub const OP_ELSE: u8 = 0x67;
pub const OP_ENDIF: u8 = 0x68;
pub const OP_VERIFY: u8 = 0x69;
pub const OP_TOALTSTACK: u8 = 0x6b;
pub const OP_FROMALTSTACK: u8 = 0x6c;
pub const OP_IFDUP: u8 = 0x73;
pub const OP_DROP: u8 = 0x75;
pub const OP_DUP: u8 = 0x76;
pub const OP_SWAP: u8 = 0x7c;
pub const OP_SIZE: u8 = 0x82;
pub const OP_EQUAL: u8 = 0x87;
pub const OP_EQUALVERIFY: u8 = 0x88;
pub const OP_0NOTEQUAL: u8 = 0x92;
pub const OP_ADD: u8 = 0x93;
pub const OP_BOOLAND: u8 = 0x9a;
pub const OP_BOOLOR: u8 = 0x9b;
pub const OP_SHA256: u8 = 0xa8;
pub const OP_CHECKSIG: u8 = 0xac;
pub const OP_CHECKSIGVERIFY: u8 = 0xad;
pub const OP_CHECKMULTISIG: u8 = 0xae;
pub const OP_CHECKMULTISIGVERIFY: u8 = 0xaf;
pub const OP_CSV: u8 = 0xb2;

/// Little-endian bytes of a positive magnitude, with no zero byte on top.
pub open spec fn le_bytes(a: nat) -> Seq<u8>
    decreases a,
{
    if a <= 0xff {
        seq![a as u8]
    } else {
        seq![(a % 256) as u8] + le_bytes(a / 256)
    }
}

/// The minimal sign-magnitude encoding of a script integer.
pub open spec fn scriptint(n: int) -> Seq<u8> {
    if n == 0 {
        Seq::empty()
    } else {
        let a: nat = if n < 0 { (-n) as nat } else { n as nat };
        let bs = le_bytes(a);
        let sign: u8 = if n < 0 { 0x80 } else { 0 };
        if bs.last() >= 0x80 {
            bs.push(sign)
        } else {
            bs.drop_last().push((bs.last() + sign) as u8)
        }
    }
}

/// The bytes of a data push: a length prefix, then the data.
pub open spec fn push_data_bytes(data: Seq<u8>) -> Seq<u8> {
    let n = data.len();
    if n < 0x4c {
        seq![n as u8] + data
    } else if n < 0x100 {
        seq![OP_PUSHDATA1, n as u8] + data
    } else if n < 0x10000 {
        seq![OP_PUSHDATA2, (n % 0x100) as u8, (n / 0x100) as u8] + data
    } else {
        seq![
            OP_PUSHDATA4,
            (n % 0x100) as u8,
            ((n / 0x100) % 0x100) as u8,
            ((n / 0x10000) % 0x100) as u8,
            (n / 0x1000000) as u8,
        ] + data
    }
}

/// The bytes of an integer push: a small-integer opcode where one exists,
/// otherwise a data push of the script integer.
pub open spec fn push_int_bytes(n: i64) -> Seq<u8> {
    if n == -1 || (1 <= n && n <= 16) {
        seq![(n - 1 + OP_PUSHNUM_1) as u8]
    } else if n == 0 {
        seq![OP_0]
    } else {
        push_data_bytes(scriptint(n as int))
    }
}

/// The bytes of one instruction.
pub open spec fn instr_bytes(i: Instr<PublicKey>) -> Seq<u8> {
    match i {
        Instr::Op(o) => seq![o],
        Instr::Int(n) => push_int_bytes(n),
        Instr::Key(k) => push_data_bytes(k.bytes@),
        Instr::Hash(h) => push_data_bytes(h.bytes@),
    }
}

/// The bytes of a sequence of instructions.
pub open spec fn script_bytes(s: Seq<Instr<PublicKey>>) -> Seq<u8>
    decreases s.len(),
{
    if s.len() == 0 {
        Seq::empty()
    } else {
        script_bytes(s.drop_last()) + instr_bytes(s.last())
    }
}

/// The bytes of instructions, one more after them.
pub proof fn lemma_script_bytes_push(s: Seq<Instr<PublicKey>>, i: Instr<PublicKey>)
    ensures
        script_bytes(s.push(i)) == script_bytes(s) + instr_bytes(i),
{
    assert(s.push(i).drop_last() =~= s);
}

/// The bytes of instructions one after others are their bytes one after
/// the others: serializing a fragment after what a builder holds (see
/// `AstElem::serialize`) gives the bytes of both scripts, in order.
pub proof fn lemma_script_bytes_concat(a: Seq<Instr<PublicKey>>, b: Seq<Instr<PublicKey>>)
    ensures
        script_bytes(a + b) == script_bytes(a) + script_bytes(b),
    decreases b.len(),
{
    if b.len() == 0 {
        assert(a + b =~= a);
        assert(script_bytes(a) + script_bytes(b) =~= script_bytes(a));
    } else {
        lemma_script_bytes_concat(a, b.drop_last());
        assert((a + b).drop_last() =~= a + b.drop_last());
        assert((a + b).last() == b.last());
        assert(script_bytes(a + b) =~= script_bytes(a) + script_bytes(b));
    }
}

/// `Builder::push_opcode`: appends the opcode's byte.
#[verifier::external_body]
pub(crate) fn push_opcode(b: Builder, op: u8) -> (r: Builder)
    ensures
        builder_bytes(r) == builder_bytes(b).push(op),
{
    b.push_opcode(Opcode::from(op))
}

/// `Builder::push_slice`: appends a length prefix and the data. The crate
/// panics on 4 GiB or more of data, which `requires` leaves out.
#[verifier::external_body]
pub(crate) fn push_slice(b: Builder, data: &[u8]) -> (r: Builder)
    requires
        data@.len() < 0x1_0000_0000,
    ensures
        builder_bytes(r) == builder_bytes(b) + push_data_bytes(data@),
{
    match <&PushBytes>::try_from(data) {
        Ok(p) => b.push_slice(p),
        Err(_) => b,
    }
}

/// `Builder::push_int`: appends a small-integer opcode, `OP_0`, or a data push
/// of the minimal script integer. The crate's encoder overruns its buffer on
/// `i64::MIN`, which `requires` leaves out.
#[verifier::external_body]
pub(crate) fn push_int(b: Builder, n: i64) -> (r: Builder)
    requires
        n != i64::MIN,
    ensures
        builder_bytes(r) == builder_bytes(b) + push_int_bytes(n),
{
    b.push_int(n)
}

} // verus!
