//! Serialization of script fragments into Bitcoin Script.

use std::rc::Rc;
use vstd::prelude::*;
use bitcoin::blockdata::script::Builder;
use crate::ast::{E, W, F, V, T, Instr, key_instrs, ws_instrs, no_min_push, lemma_no_min_push_concat, lemma_ws_instrs_split};
use crate::keys::PublicKey;
use crate::script::{
    builder_bytes, script_bytes, push_int, push_opcode, push_slice, lemma_script_bytes_push,
    OP_0NOTEQUAL, OP_ADD, OP_BOOLAND, OP_BOOLOR, OP_CHECKMULTISIG,
    OP_CHECKMULTISIGVERIFY, OP_CHECKSIG, OP_CHECKSIGVERIFY, OP_CSV, OP_DROP, OP_DUP, OP_ELSE, OP_ENDIF,
    OP_EQUAL, OP_EQUALVERIFY, OP_FROMALTSTACK, OP_SHA256, OP_IF, OP_IFDUP, OP_NOTIF, OP_SIZE, OP_SWAP,
    OP_TOALTSTACK, OP_VERIFY,
};

verus! {

broadcast use lemma_no_min_push_concat;

/// Appends one instruction to the builder.
fn emit(
    b: Builder,
    i: Instr<PublicKey>,
    Ghost(base): Ghost<Seq<u8>>,
    Ghost(acc): Ghost<Seq<Instr<PublicKey>>>,
) -> (r: (Builder, Ghost<Seq<Instr<PublicKey>>>))
    requires
        builder_bytes(b) == base + script_bytes(acc),
        !(i matches Instr::Int(n) && n == i64::MIN),
    ensures
        r.1@ == acc.push(i),
        builder_bytes(r.0) == base + script_bytes(r.1@),
{
    proof {
        lemma_script_bytes_push(acc, i);
    }
    let r = match i {
        Instr::Op(o) => push_opcode(b, o),
        Instr::Int(n) => push_int(b, n),
        Instr::Key(k) => push_slice(b, k.bytes.as_slice()),
        Instr::Hash(h) => push_slice(b, h.bytes.as_slice()),
    };
    (r, Ghost(acc.push(i)))
}

/// Appends a push of each key in turn.
fn push_keys(
    b: Builder,
    pks: &Vec<PublicKey>,
    Ghost(base): Ghost<Seq<u8>>,
    a0: Ghost<Seq<Instr<PublicKey>>>,
) -> (r: (Builder, Ghost<Seq<Instr<PublicKey>>>))
    requires
        builder_bytes(b) == base + script_bytes(a0@),
    ensures
        r.1@ == a0@ + key_instrs(pks@),
        builder_bytes(r.0) == base + script_bytes(r.1@),
{
    let mut b = b;
    let mut a = a0;
    let mut i: usize = 0;
    while i < pks.len()
        invariant
            i <= pks.len(),
            a@ == a0@ + key_instrs(pks@.subrange(0, i as int)),
            builder_bytes(b) == base + script_bytes(a@),
        decreases pks.len() - i,
    {
        let (b1, a1) = emit(b, Instr::Key(pks[i]), Ghost(base), a);
        proof {
            assert(key_instrs(pks@.subrange(0, i + 1)) =~= key_instrs(pks@.subrange(0, i as int)).push(
                Instr::Key(pks@[i as int]),
            ));
        }
        b = b1;
        a = a1;
        i = i + 1;
    }
    proof {
        assert(pks@.subrange(0, pks@.len() as int) =~= pks@);
    }
    (b, a)
}

/// Appends each wrapped part of a threshold, each followed by `ADD`.
fn ser_ws(
    b: Builder,
    ws: &Vec<Rc<W<PublicKey>>>,
    Ghost(base): Ghost<Seq<u8>>,
    a0: Ghost<Seq<Instr<PublicKey>>>,
) -> (r: (Builder, Ghost<Seq<Instr<PublicKey>>>))
    requires
        builder_bytes(b) == base + script_bytes(a0@),
        no_min_push(ws_instrs(ws@)),
    ensures
        r.1@ == a0@ + ws_instrs(ws@),
        builder_bytes(r.0) == base + script_bytes(r.1@),
    decreases ws@, 0nat,
{
    let mut b = b;
    let mut a = a0;
    let mut i: usize = 0;
    while i < ws.len()
        invariant
            i <= ws.len(),
            a@ == a0@ + ws_instrs(ws@.subrange(0, i as int)),
            builder_bytes(b) == base + script_bytes(a@),
            no_min_push(ws_instrs(ws@)),
        decreases ws.len() - i,
    {
        proof {
            lemma_ws_instrs_split(ws@, i + 1);
            let s = ws@.subrange(0, i + 1);
            assert(s.subrange(0, s.len() - 1) =~= ws@.subrange(0, i as int));
            assert(ws_instrs(s) == ws_instrs(ws@.subrange(0, i as int)) + ws@[i as int].instrs() + seq![Instr::Op(OP_ADD)]);
        }
        let (b1, a1) = ws[i].ser(b, Ghost(base), a);
        let (b2, a2) = emit(b1, Instr::Op(OP_ADD), Ghost(base), a1);
        proof {
            assert(a2@ =~= a0@ + ws_instrs(ws@.subrange(0, i + 1)));
        }
        b = b2;
        a = a2;
        i = i + 1;
    }
    proof {
        assert(ws@.subrange(0, ws@.len() as int) =~= ws@);
    }
    (b, a)
}

impl E<PublicKey> {
    /// Appends this fragment's instructions, threading the instructions
    /// emitted so far.
    #[verifier::spinoff_prover]
    #[verifier::rlimit(40)]
    fn ser(
        &self,
        b: Builder,
        Ghost(base): Ghost<Seq<u8>>,
        Ghost(acc): Ghost<Seq<Instr<PublicKey>>>,
    ) -> (r: (Builder, Ghost<Seq<Instr<PublicKey>>>))
        requires
            builder_bytes(b) == base + script_bytes(acc),
            no_min_push(self.instrs()),
        ensures
            r.1@ == acc + self.instrs(),
            builder_bytes(r.0) == base + script_bytes(r.1@),
        decreases self,
    {
        let a = Ghost(acc);
        let (b, a) = match self {
            E::CheckSig(pk) => {
                let (b, a) = emit(b, Instr::Key(*pk), Ghost(base), a);
                let (b, a) = emit(b, Instr::Op(OP_CHECKSIG), Ghost(base), a);
                (b, a)
            },
            E::CheckMultiSig(k, pks) => {
                proof {
                    let s = self.instrs();
                    assert(s[0] == Instr::<PublicKey>::Int(*k as i64));
                    assert(s[pks.len() + 1] == Instr::<PublicKey>::Int(pks.len() as i64));
                }
                let (b, a) = emit(b, Instr::Int(*k as i64), Ghost(base), a);
                let (b, a) = push_keys(b, pks, Ghost(base), a);
                let (b, a) = emit(b, Instr::Int(pks.len() as i64), Ghost(base), a);
                let (b, a) = emit(b, Instr::Op(OP_CHECKMULTISIG), Ghost(base), a);
                (b, a)
            },
            E::Time(n) => {
                let (b, a) = emit(b, Instr::Op(OP_DUP), Ghost(base), a);
                let (b, a) = emit(b, Instr::Op(OP_IF), Ghost(base), a);
                let (b, a) = emit(b, Instr::Int(*n as i64), Ghost(base), a);
                let (b, a) = emit(b, Instr::Op(OP_CSV), Ghost(base), a);
                let (b, a) = emit(b, Instr::Op(OP_DROP), Ghost(base), a);
                let (b, a) = emit(b, Instr::Op(OP_ENDIF), Ghost(base), a);
                (b, a)
            },
            E::Threshold(k, e, ws) => {
                let (b, a) = e.ser(b, Ghost(base), a);
                let (b, a) = ser_ws(b, ws, Ghost(base), a);
                let (b, a) = emit(b, Instr::Int(*k as i64), Ghost(base), a);
                let (b, a) = emit(b, Instr::Op(OP_EQUAL), Ghost(base), a);
                (b, a)
            },
            E::ParallelAnd(l, r) => {
                let (b, a) = l.ser(b, Ghost(base), a);
                let (b, a) = r.ser(b, Ghost(base), a);
                let (b, a) = emit(b, Instr::Op(OP_BOOLAND), Ghost(base), a);
                (b, a)
            },
            E::CascadeAnd(l, r) => {
                let (b, a) = l.ser(b, Ghost(base), a);
                let (b, a) = emit(b, Instr::Op(OP_NOTIF), Ghost(base), a);
                let (b, a) = emit(b, Instr::Int(0), Ghost(base), a);
                let (b, a) = emit(b, Instr::Op(OP_ELSE), Ghost(base), a);
                let (b, a) = r.ser(b, Ghost(base), a);
                let (b, a) = emit(b, Instr::Op(OP_ENDIF), Ghost(base), a);
                (b, a)
            },
            E::ParallelOr(l, r) => {
                let (b, a) = l.ser(b, Ghost(base), a);
                let (b, a) = r.ser(b, Ghost(base), a);
                let (b, a) = emit(b, Instr::Op(OP_BOOLOR), Ghost(base), a);
                (b, a)
            },
            E::CascadeOr(l, r) => {
                let (b, a) = l.ser(b, Ghost(base), a);
                let (b, a) = emit(b, Instr::Op(OP_IFDUP), Ghost(base), a);
                let (b, a) = emit(b, Instr::Op(OP_NOTIF), Ghost(base), a);
                let (b, a) = r.ser(b, Ghost(base), a);
                let (b, a) = emit(b, Instr::Op(OP_ENDIF), Ghost(base), a);
                (b, a)
            },
            E::SwitchOrLeft(l, r) => {
                let (b, a) = emit(b, Instr::Op(OP_IF), Ghost(base), a);
                let (b, a) = l.ser(b, Ghost(base), a);
                let (b, a) = emit(b, Instr::Op(OP_ELSE), Ghost(base), a);
                let (b, a) = r.ser(b, Ghost(base), a);
                let (b, a) = emit(b, Instr::Op(OP_ENDIF), Ghost(base), a);
                (b, a)
            },
            E::SwitchOrRight(l, r) => {
                let (b, a) = emit(b, Instr::Op(OP_NOTIF), Ghost(base), a);
                let (b, a) = l.ser(b, Ghost(base), a);
                let (b, a) = emit(b, Instr::Op(OP_ELSE), Ghost(base), a);
                let (b, a) = r.ser(b, Ghost(base), a);
                let (b, a) = emit(b, Instr::Op(OP_ENDIF), Ghost(base), a);
                (b, a)
            },
            E::Likely(f) => {
                let (b, a) = emit(b, Instr::Op(OP_NOTIF), Ghost(base), a);
                let (b, a) = f.ser(b, Ghost(base), a);
                let (b, a) = emit(b, Instr::Op(OP_ELSE), Ghost(base), a);
                let (b, a) = emit(b, Instr::Int(0), Ghost(base), a);
                let (b, a) = emit(b, Instr::Op(OP_ENDIF), Ghost(base), a);
                (b, a)
            },
            E::Unlikely(f) => {
                let (b, a) = emit(b, Instr::Op(OP_IF), Ghost(base), a);
                let (b, a) = f.ser(b, Ghost(base), a);
                let (b, a) = emit(b, Instr::Op(OP_ELSE), Ghost(base), a);
                let (b, a) = emit(b, Instr::Int(0), Ghost(base), a);
                let (b, a) = emit(b, Instr::Op(OP_ENDIF), Ghost(base), a);
                (b, a)
            },
        };
        proof {
            assert(a@ =~= acc + self.instrs());
        }
        (b, a)
    }

    /// Serializes the fragment as a piece of Bitcoin Script, appended to
    /// what the builder holds.
    pub(crate) fn push_script(&self, builder: Builder) -> (r: Builder)
        requires
            no_min_push(self.instrs()),
        ensures
            builder_bytes(r) == builder_bytes(builder) + script_bytes(self.instrs()),
    {
        let ghost base = builder_bytes(builder);
        proof {
            assert(base + script_bytes(Seq::empty()) =~= base);
        }
        let (r, a) = self.ser(builder, Ghost(base), Ghost(Seq::empty()));
        proof {
            assert(Seq::<Instr<PublicKey>>::empty() + self.instrs() =~= self.instrs());
        }
        r
    }
}

impl W<PublicKey> {
    /// Appends this fragment's instructions, threading the instructions
    /// emitted so far.
    #[verifier::spinoff_prover]
    #[verifier::rlimit(40)]
    fn ser(
        &self,
        b: Builder,
        Ghost(base): Ghost<Seq<u8>>,
        Ghost(acc): Ghost<Seq<Instr<PublicKey>>>,
    ) -> (r: (Builder, Ghost<Seq<Instr<PublicKey>>>))
        requires
            builder_bytes(b) == base + script_bytes(acc),
            no_min_push(self.instrs()),
        ensures
            r.1@ == acc + self.instrs(),
            builder_bytes(r.0) == base + script_bytes(r.1@),
        decreases self,
    {
        let a = Ghost(acc);
        let (b, a) = match self {
            W::CheckSig(pk) => {
                let (b, a) = emit(b, Instr::Op(OP_SWAP), Ghost(base), a);
                let (b, a) = emit(b, Instr::Key(*pk), Ghost(base), a);
                let (b, a) = emit(b, Instr::Op(OP_CHECKSIG), Ghost(base), a);
                (b, a)
            },
            W::HashEqual(h) => {
                let (b, a) = emit(b, Instr::Op(OP_SWAP), Ghost(base), a);
                let (b, a) = emit(b, Instr::Op(OP_SIZE), Ghost(base), a);
                let (b, a) = emit(b, Instr::Op(OP_0NOTEQUAL), Ghost(base), a);
                let (b, a) = emit(b, Instr::Op(OP_IF), Ghost(base), a);
                let (b, a) = emit(b, Instr::Op(OP_SIZE), Ghost(base), a);
                let (b, a) = emit(b, Instr::Int(32), Ghost(base), a);
                let (b, a) = emit(b, Instr::Op(OP_EQUALVERIFY), Ghost(base), a);
                let (b, a) = emit(b, Instr::Op(OP_SHA256), Ghost(base), a);
                let (b, a) = emit(b, Instr::Hash(*h), Ghost(base), a);
                let (b, a) = emit(b, Instr::Op(OP_EQUALVERIFY), Ghost(base), a);
                let (b, a) = emit(b, Instr::Int(1), Ghost(base), a);
                let (b, a) = emit(b, Instr::Op(OP_ENDIF), Ghost(base), a);
                (b, a)
            },
            W::Time(n) => {
                let (b, a) = emit(b, Instr::Op(OP_SWAP), Ghost(base), a);
                let (b, a) = emit(b, Instr::Op(OP_DUP), Ghost(base), a);
                let (b, a) = emit(b, Instr::Op(OP_IF), Ghost(base), a);
                let (b, a) = emit(b, Instr::Int(*n as i64), Ghost(base), a);
                let (b, a) = emit(b, Instr::Op(OP_CSV), Ghost(base), a);
                let (b, a) = emit(b, Instr::Op(OP_DROP), Ghost(base), a);
                let (b, a) = emit(b, Instr::Op(OP_ENDIF), Ghost(base), a);
                (b, a)
            },
            W::CastE(e) => {
                let (b, a) = emit(b, Instr::Op(OP_TOALTSTACK), Ghost(base), a);
                let (b, a) = e.ser(b, Ghost(base), a);
                let (b, a) = emit(b, Instr::Op(OP_FROMALTSTACK), Ghost(base), a);
                (b, a)
            },
        };
        proof {
            assert(a@ =~= acc + self.instrs());
        }
        (b, a)
    }

    /// Serializes the fragment as a piece of Bitcoin Script, appended to
    /// what the builder holds.
    pub(crate) fn push_script(&self, builder: Builder) -> (r: Builder)
        requires
            no_min_push(self.instrs()),
        ensures
            builder_bytes(r) == builder_bytes(builder) + script_bytes(self.instrs()),
    {
        let ghost base = builder_bytes(builder);
        proof {
            assert(base + script_bytes(Seq::empty()) =~= base);
        }
        let (r, a) = self.ser(builder, Ghost(base), Ghost(Seq::empty()));
        proof {
            assert(Seq::<Instr<PublicKey>>::empty() + self.instrs() =~= self.instrs());
        }
        r
    }
}

impl F<PublicKey> {
    /// Appends this fragment's instructions, threading the instructions
    /// emitted so far.
    #[verifier::spinoff_prover]
    #[verifier::rlimit(40)]
    fn ser(
        &self,
        b: Builder,
        Ghost(base): Ghost<Seq<u8>>,
        Ghost(acc): Ghost<Seq<Instr<PublicKey>>>,
    ) -> (r: (Builder, Ghost<Seq<Instr<PublicKey>>>))
        requires
            builder_bytes(b) == base + script_bytes(acc),
            no_min_push(self.instrs()),
        ensures
            r.1@ == acc + self.instrs(),
            builder_bytes(r.0) == base + script_bytes(r.1@),
        decreases self,
    {
        let a = Ghost(acc);
        let (b, a) = match self {
            F::CheckSig(pk) => {
                let (b, a) = emit(b, Instr::Key(*pk), Ghost(base), a);
                let (b, a) = emit(b, Instr::Op(OP_CHECKSIGVERIFY), Ghost(base), a);
                let (b, a) = emit(b, Instr::Int(1), Ghost(base), a);
                (b, a)
            },
            F::CheckMultiSig(k, pks) => {
                proof {
                    let s = self.instrs();
                    assert(s[0] == Instr::<PublicKey>::Int(*k as i64));
                    assert(s[pks.len() + 1] == Instr::<PublicKey>::Int(pks.len() as i64));
                }
                let (b, a) = emit(b, Instr::Int(*k as i64), Ghost(base), a);
                let (b, a) = push_keys(b, pks, Ghost(base), a);
                let (b, a) = emit(b, Instr::Int(pks.len() as i64), Ghost(base), a);
                let (b, a) = emit(b, Instr::Op(OP_CHECKMULTISIGVERIFY), Ghost(base), a);
                let (b, a) = emit(b, Instr::Int(1), Ghost(base), a);
                (b, a)
            },
            F::Time(n) => {
                let (b, a) = emit(b, Instr::Int(*n as i64), Ghost(base), a);
                let (b, a) = emit(b, Instr::Op(OP_CSV), Ghost(base), a);
                let (b, a) = emit(b, Instr::Op(OP_0NOTEQUAL), Ghost(base), a);
                (b, a)
            },
            F::HashEqual(h) => {
                let (b, a) = emit(b, Instr::Op(OP_SIZE), Ghost(base), a);
                let (b, a) = emit(b, Instr::Int(32), Ghost(base), a);
                let (b, a) = emit(b, Instr::Op(OP_EQUALVERIFY), Ghost(base), a);
                let (b, a) = emit(b, Instr::Op(OP_SHA256), Ghost(base), a);
                let (b, a) = emit(b, Instr::Hash(*h), Ghost(base), a);
                let (b, a) = emit(b, Instr::Op(OP_EQUALVERIFY), Ghost(base), a);
                let (b, a) = emit(b, Instr::Int(1), Ghost(base), a);
                (b, a)
            },
            F::Threshold(k, e, ws) => {
                let (b, a) = e.ser(b, Ghost(base), a);
                let (b, a) = ser_ws(b, ws, Ghost(base), a);
                let (b, a) = emit(b, Instr::Int(*k as i64), Ghost(base), a);
                let (b, a) = emit(b, Instr::Op(OP_EQUALVERIFY), Ghost(base), a);
                let (b, a) = emit(b, Instr::Int(1), Ghost(base), a);
                (b, a)
            },
            F::And(l, r) => {
                let (b, a) = l.ser(b, Ghost(base), a);
                let (b, a) = r.ser(b, Ghost(base), a);
                (b, a)
            },
            F::SwitchOr(l, r) => {
                let (b, a) = emit(b, Instr::Op(OP_IF), Ghost(base), a);
                let (b, a) = l.ser(b, Ghost(base), a);
                let (b, a) = emit(b, Instr::Op(OP_ELSE), Ghost(base), a);
                let (b, a) = r.ser(b, Ghost(base), a);
                let (b, a) = emit(b, Instr::Op(OP_ENDIF), Ghost(base), a);
                (b, a)
            },
            F::SwitchOrV(l, r) => {
                let (b, a) = emit(b, Instr::Op(OP_IF), Ghost(base), a);
                let (b, a) = l.ser(b, Ghost(base), a);
                let (b, a) = emit(b, Instr::Op(OP_ELSE), Ghost(base), a);
                let (b, a) = r.ser(b, Ghost(base), a);
                let (b, a) = emit(b, Instr::Op(OP_ENDIF), Ghost(base), a);
                let (b, a) = emit(b, Instr::Int(1), Ghost(base), a);
                (b, a)
            },
            F::CascadeOr(l, r) => {
                let (b, a) = l.ser(b, Ghost(base), a);
                let (b, a) = emit(b, Instr::Op(OP_NOTIF), Ghost(base), a);
                let (b, a) = r.ser(b, Ghost(base), a);
                let (b, a) = emit(b, Instr::Op(OP_ENDIF), Ghost(base), a);
                let (b, a) = emit(b, Instr::Int(1), Ghost(base), a);
                (b, a)
            },
        };
        proof {
            assert(a@ =~= acc + self.instrs());
        }
        (b, a)
    }

    /// Serializes the fragment as a piece of Bitcoin Script, appended to
    /// what the builder holds.
    pub(crate) fn push_script(&self, builder: Builder) -> (r: Builder)
        requires
            no_min_push(self.instrs()),
        ensures
            builder_bytes(r) == builder_bytes(builder) + script_bytes(self.instrs()),
    {
        let ghost base = builder_bytes(builder);
        proof {
            assert(base + script_bytes(Seq::empty()) =~= base);
        }
        let (r, a) = self.ser(builder, Ghost(base), Ghost(Seq::empty()));
        proof {
            assert(Seq::<Instr<PublicKey>>::empty() + self.instrs() =~= self.instrs());
        }
        r
    }
}

impl V<PublicKey> {
    /// Appends this fragment's instructions, threading the instructions
    /// emitted so far.
    #[verifier::spinoff_prover]
    #[verifier::rlimit(40)]
    fn ser(
        &self,
        b: Builder,
        Ghost(base): Ghost<Seq<u8>>,
        Ghost(acc): Ghost<Seq<Instr<PublicKey>>>,
    ) -> (r: (Builder, Ghost<Seq<Instr<PublicKey>>>))
        requires
            builder_bytes(b) == base + script_bytes(acc),
            no_min_push(self.instrs()),
        ensures
            r.1@ == acc + self.instrs(),
            builder_bytes(r.0) == base + script_bytes(r.1@),
        decreases self,
    {
        let a = Ghost(acc);
        let (b, a) = match self {
            V::CheckSig(pk) => {
                let (b, a) = emit(b, Instr::Key(*pk), Ghost(base), a);
                let (b, a) = emit(b, Instr::Op(OP_CHECKSIGVERIFY), Ghost(base), a);
                (b, a)
            },
            V::CheckMultiSig(k, pks) => {
                proof {
                    let s = self.instrs();
                    assert(s[0] == Instr::<PublicKey>::Int(*k as i64));
                    assert(s[pks.len() + 1] == Instr::<PublicKey>::Int(pks.len() as i64));
                }
                let (b, a) = emit(b, Instr::Int(*k as i64), Ghost(base), a);
                let (b, a) = push_keys(b, pks, Ghost(base), a);
                let (b, a) = emit(b, Instr::Int(pks.len() as i64), Ghost(base), a);
                let (b, a) = emit(b, Instr::Op(OP_CHECKMULTISIGVERIFY), Ghost(base), a);
                (b, a)
            },
            V::Time(n) => {
                let (b, a) = emit(b, Instr::Int(*n as i64), Ghost(base), a);
                let (b, a) = emit(b, Instr::Op(OP_CSV), Ghost(base), a);
                let (b, a) = emit(b, Instr::Op(OP_DROP), Ghost(base), a);
                (b, a)
            },
            V::HashEqual(h) => {
                let (b, a) = emit(b, Instr::Op(OP_SIZE), Ghost(base), a);
                let (b, a) = emit(b, Instr::Int(32), Ghost(base), a);
                let (b, a) = emit(b, Instr::Op(OP_EQUALVERIFY), Ghost(base), a);
                let (b, a) = emit(b, Instr::Op(OP_SHA256), Ghost(base), a);
                let (b, a) = emit(b, Instr::Hash(*h), Ghost(base), a);
                let (b, a) = emit(b, Instr::Op(OP_EQUALVERIFY), Ghost(base), a);
                (b, a)
            },
            V::Threshold(k, e, ws) => {
                let (b, a) = e.ser(b, Ghost(base), a);
                let (b, a) = ser_ws(b, ws, Ghost(base), a);
                let (b, a) = emit(b, Instr::Int(*k as i64), Ghost(base), a);
                let (b, a) = emit(b, Instr::Op(OP_EQUALVERIFY), Ghost(base), a);
                (b, a)
            },
            V::And(l, r) => {
                let (b, a) = l.ser(b, Ghost(base), a);
                let (b, a) = r.ser(b, Ghost(base), a);
                (b, a)
            },
            V::SwitchOr(l, r) => {
                let (b, a) = emit(b, Instr::Op(OP_IF), Ghost(base), a);
                let (b, a) = l.ser(b, Ghost(base), a);
                let (b, a) = emit(b, Instr::Op(OP_ELSE), Ghost(base), a);
                let (b, a) = r.ser(b, Ghost(base), a);
                let (b, a) = emit(b, Instr::Op(OP_ENDIF), Ghost(base), a);
                (b, a)
            },
            V::SwitchOrT(l, r) => {
                let (b, a) = emit(b, Instr::Op(OP_IF), Ghost(base), a);
                let (b, a) = l.ser(b, Ghost(base), a);
                let (b, a) = emit(b, Instr::Op(OP_ELSE), Ghost(base), a);
                let (b, a) = r.ser(b, Ghost(base), a);
                let (b, a) = emit(b, Instr::Op(OP_ENDIF), Ghost(base), a);
                let (b, a) = emit(b, Instr::Op(OP_VERIFY), Ghost(base), a);
                (b, a)
            },
            V::CascadeOr(l, r) => {
                let (b, a) = l.ser(b, Ghost(base), a);
                let (b, a) = emit(b, Instr::Op(OP_NOTIF), Ghost(base), a);
                let (b, a) = r.ser(b, Ghost(base), a);
                let (b, a) = emit(b, Instr::Op(OP_ENDIF), Ghost(base), a);
                (b, a)
            },
        };
        proof {
            assert(a@ =~= acc + self.instrs());
        }
        (b, a)
    }

    /// Serializes the fragment as a piece of Bitcoin Script, appended to
    /// what the builder holds.
    pub(crate) fn push_script(&self, builder: Builder) -> (r: Builder)
        requires
            no_min_push(self.instrs()),
        ensures
            builder_bytes(r) == builder_bytes(builder) + script_bytes(self.instrs()),
    {
        let ghost base = builder_bytes(builder);
        proof {
            assert(base + script_bytes(Seq::empty()) =~= base);
        }
        let (r, a) = self.ser(builder, Ghost(base), Ghost(Seq::empty()));
        proof {
            assert(Seq::<Instr<PublicKey>>::empty() + self.instrs() =~= self.instrs());
        }
        r
    }
}

impl T<PublicKey> {
    /// Appends this fragment's instructions, threading the instructions
    /// emitted so far.
    #[verifier::spinoff_prover]
    #[verifier::rlimit(40)]
    fn ser(
        &self,
        b: Builder,
        Ghost(base): Ghost<Seq<u8>>,
        Ghost(acc): Ghost<Seq<Instr<PublicKey>>>,
    ) -> (r: (Builder, Ghost<Seq<Instr<PublicKey>>>))
        requires
            builder_bytes(b) == base + script_bytes(acc),
            no_min_push(self.instrs()),
        ensures
            r.1@ == acc + self.instrs(),
            builder_bytes(r.0) == base + script_bytes(r.1@),
        decreases self,
    {
        let a = Ghost(acc);
        let (b, a) = match self {
            T::Time(n) => {
                let (b, a) = emit(b, Instr::Int(*n as i64), Ghost(base), a);
                let (b, a) = emit(b, Instr::Op(OP_CSV), Ghost(base), a);
                (b, a)
            },
            T::HashEqual(h) => {
                let (b, a) = emit(b, Instr::Op(OP_SIZE), Ghost(base), a);
                let (b, a) = emit(b, Instr::Int(32), Ghost(base), a);
                let (b, a) = emit(b, Instr::Op(OP_EQUALVERIFY), Ghost(base), a);
                let (b, a) = emit(b, Instr::Op(OP_SHA256), Ghost(base), a);
                let (b, a) = emit(b, Instr::Hash(*h), Ghost(base), a);
                let (b, a) = emit(b, Instr::Op(OP_EQUAL), Ghost(base), a);
                (b, a)
            },
            T::And(l, r) => {
                let (b, a) = l.ser(b, Ghost(base), a);
                let (b, a) = r.ser(b, Ghost(base), a);
                (b, a)
            },
            T::ParallelOr(l, r) => {
                let (b, a) = l.ser(b, Ghost(base), a);
                let (b, a) = r.ser(b, Ghost(base), a);
                let (b, a) = emit(b, Instr::Op(OP_BOOLOR), Ghost(base), a);
                (b, a)
            },
            T::CascadeOr(l, r) => {
                let (b, a) = l.ser(b, Ghost(base), a);
                let (b, a) = emit(b, Instr::Op(OP_IFDUP), Ghost(base), a);
                let (b, a) = emit(b, Instr::Op(OP_NOTIF), Ghost(base), a);
                let (b, a) = r.ser(b, Ghost(base), a);
                let (b, a) = emit(b, Instr::Op(OP_ENDIF), Ghost(base), a);
                (b, a)
            },
            T::CascadeOrV(l, r) => {
                let (b, a) = l.ser(b, Ghost(base), a);
                let (b, a) = emit(b, Instr::Op(OP_NOTIF), Ghost(base), a);
                let (b, a) = r.ser(b, Ghost(base), a);
                let (b, a) = emit(b, Instr::Op(OP_ENDIF), Ghost(base), a);
                let (b, a) = emit(b, Instr::Int(1), Ghost(base), a);
                (b, a)
            },
            T::SwitchOr(l, r) => {
                let (b, a) = emit(b, Instr::Op(OP_IF), Ghost(base), a);
                let (b, a) = l.ser(b, Ghost(base), a);
                let (b, a) = emit(b, Instr::Op(OP_ELSE), Ghost(base), a);
                let (b, a) = r.ser(b, Ghost(base), a);
                let (b, a) = emit(b, Instr::Op(OP_ENDIF), Ghost(base), a);
                (b, a)
            },
            T::SwitchOrV(l, r) => {
                let (b, a) = emit(b, Instr::Op(OP_IF), Ghost(base), a);
                let (b, a) = l.ser(b, Ghost(base), a);
                let (b, a) = emit(b, Instr::Op(OP_ELSE), Ghost(base), a);
                let (b, a) = r.ser(b, Ghost(base), a);
                let (b, a) = emit(b, Instr::Op(OP_ENDIF), Ghost(base), a);
                let (b, a) = emit(b, Instr::Int(1), Ghost(base), a);
                (b, a)
            },
            T::CastE(e) => {
                let (b, a) = e.ser(b, Ghost(base), a);
                (b, a)
            },
        };
        proof {
            assert(a@ =~= acc + self.instrs());
        }
        (b, a)
    }

    /// Serializes the fragment as a piece of Bitcoin Script, appended to
    /// what the builder holds.
    pub(crate) fn push_script(&self, builder: Builder) -> (r: Builder)
        requires
            no_min_push(self.instrs()),
        ensures
            builder_bytes(r) == builder_bytes(builder) + script_bytes(self.instrs()),
    {
        let ghost base = builder_bytes(builder);
        proof {
            assert(base + script_bytes(Seq::empty()) =~= base);
        }
        let (r, a) = self.ser(builder, Ghost(base), Ghost(Seq::empty()));
        proof {
            assert(Seq::<Instr<PublicKey>>::empty() + self.instrs() =~= self.instrs());
        }
        r
    }
}

} // verus!
