//! The five kinds of script fragments and the instructions each one stands for.

use std::rc::Rc;
use vstd::prelude::*;
use crate::keys::Sha256dHash;
use crate::script::{OP_0NOTEQUAL, OP_ADD, OP_BOOLAND, OP_BOOLOR, OP_CHECKMULTISIG, OP_CHECKMULTISIGVERIFY, OP_CHECKSIG, OP_CHECKSIGVERIFY, OP_CSV, OP_DROP, OP_DUP, OP_ELSE, OP_ENDIF, OP_EQUAL, OP_EQUALVERIFY, OP_FROMALTSTACK, OP_SHA256, OP_IF, OP_IFDUP, OP_NOTIF, OP_SIZE, OP_SWAP, OP_TOALTSTACK, OP_VERIFY};

verus! {

/// Expression that may be satisfied or dissatisfied; both cases must
/// be non-malleable.
#[derive(Clone, PartialEq, Eq, PartialOrd, Ord, Debug)]
pub enum E<P> {
    /// `<pk> CHECKSIG`
    CheckSig(P),
    /// `<k> <pk...> <len(pk)> CHECKMULTISIG`
    CheckMultiSig(usize, Vec<P>),
    /// `DUP IF <n> CSV DROP ENDIF`
    Time(u32),
    /// `<E> <W> ADD ... <W> ADD <k> EQUAL`
    Threshold(usize, Rc<E<P>>, Vec<Rc<W<P>>>),
    /// `<E> <W> BOOLAND`
    ParallelAnd(Rc<E<P>>, Rc<W<P>>),
    /// `<E> NOTIF 0 ELSE <F> ENDIF`
    CascadeAnd(Rc<E<P>>, Rc<F<P>>),
    /// `<E> <W> BOOLOR`
    ParallelOr(Rc<E<P>>, Rc<W<P>>),
    /// `<E> IFDUP NOTIF <E> ENDIF`
    CascadeOr(Rc<E<P>>, Rc<E<P>>),
    /// `IF <E> ELSE <F> ENDIF`
    SwitchOrLeft(Rc<E<P>>, Rc<F<P>>),
    /// `NOTIF <E> ELSE <F> ENDIF`
    SwitchOrRight(Rc<E<P>>, Rc<F<P>>),
    /// `NOTIF <F> ELSE 0 ENDIF`
    Likely(Rc<F<P>>),
    /// `IF <F> ELSE 0 ENDIF`
    Unlikely(Rc<F<P>>),
}

/// Wrapped expression, used as helper for the parallel operations above
#[derive(Clone, PartialEq, Eq, PartialOrd, Ord, Debug)]
pub enum W<P> {
    /// `SWAP <pk> CHECKSIG`
    CheckSig(P),
    /// `SWAP SIZE 0NOTEQUAL IF SIZE 32 EQUALVERIFY SHA256 <hash> EQUALVERIFY 1 ENDIF`
    HashEqual(Sha256dHash),
    /// `SWAP DUP IF <n> OP_CSV OP_DROP ENDIF`
    Time(u32),
    /// `TOALTSTACK <E> FROMALTSTACK`
    CastE(Rc<E<P>>),
}

/// Expression that must succeed and will leave a 1 on the stack after consuming its inputs
#[derive(Clone, PartialEq, Eq, PartialOrd, Ord, Debug)]
pub enum F<P> {
    /// `<pk> CHECKSIGVERIFY 1`
    CheckSig(P),
    /// `<k> <pk...> <len(pk)> CHECKMULTISIGVERIFY 1`
    CheckMultiSig(usize, Vec<P>),
    /// `<n> CSV 0NOTEQUAL`
    Time(u32),
    /// `SIZE 32 EQUALVERIFY SHA256 <hash> EQUALVERIFY 1`
    HashEqual(Sha256dHash),
    /// `<E> <W> ADD ... <W> ADD <k> EQUALVERIFY 1`
    Threshold(usize, Rc<E<P>>, Vec<Rc<W<P>>>),
    /// `<V> <F>`
    And(Rc<V<P>>, Rc<F<P>>),
    /// `<E> NOTIF <V> ENDIF 1`
    CascadeOr(Rc<E<P>>, Rc<V<P>>),
    /// `IF <F> ELSE <F> ENDIF`
    SwitchOr(Rc<F<P>>, Rc<F<P>>),
    /// `IF <V> ELSE <V> ENDIF 1`
    SwitchOrV(Rc<V<P>>, Rc<V<P>>),
}

/// Expression that must succeed and will leave nothing on the stack after consuming its inputs
#[derive(Clone, PartialEq, Eq, PartialOrd, Ord, Debug)]
pub enum V<P> {
    /// `<pk> CHECKSIGVERIFY`
    CheckSig(P),
    /// `<k> <pk...> <len(pk)> CHECKMULTISIGVERIFY`
    CheckMultiSig(usize, Vec<P>),
    /// `<n> CSV DROP`
    Time(u32),
    /// `SIZE 32 EQUALVERIFY SHA256 <hash> EQUALVERIFY`
    HashEqual(Sha256dHash),
    /// `<E> <W> ADD ... <W> ADD <k> EQUALVERIFY`
    Threshold(usize, Rc<E<P>>, Vec<Rc<W<P>>>),
    /// `<V> <V>`
    And(Rc<V<P>>, Rc<V<P>>),
    /// `<E> NOTIF <V> ENDIF`
    CascadeOr(Rc<E<P>>, Rc<V<P>>),
    /// `IF <V> ELSE <V> ENDIF`
    SwitchOr(Rc<V<P>>, Rc<V<P>>),
    /// `IF <T> ELSE <T> ENDIF VERIFY`
    SwitchOrT(Rc<T<P>>, Rc<T<P>>),
}

/// "Top" expression, which might succeed or not, or fail or not. Occurs only at the top of a
/// script, such that its failure will fail the entire thing even if it returns a 0.
#[derive(Clone, PartialEq, Eq, PartialOrd, Ord, Debug)]
pub enum T<P> {
    /// `<n> CSV`
    Time(u32),
    /// `SIZE 32 EQUALVERIFY SHA256 <hash> EQUAL`
    HashEqual(Sha256dHash),
    /// `<V> <T>`
    And(Rc<V<P>>, Rc<T<P>>),
    /// `<E> <W> BOOLOR`
    ParallelOr(Rc<E<P>>, Rc<W<P>>),
    /// `<E> IFDUP NOTIF <T> ENDIF`
    CascadeOr(Rc<E<P>>, Rc<T<P>>),
    /// `<E> NOTIF <V> ENDIF 1`
    CascadeOrV(Rc<E<P>>, Rc<V<P>>),
    /// `IF <T> ELSE <T> ENDIF`
    SwitchOr(Rc<T<P>>, Rc<T<P>>),
    /// `IF <V> ELSE <V> ENDIF 1`
    SwitchOrV(Rc<V<P>>, Rc<V<P>>),
    /// `<E>`
    CastE(E<P>),
}

/// One script instruction of a fragment.
#[derive(Clone, Copy, PartialEq, Eq, Debug)]
pub enum Instr<P> {
    /// A bare opcode.
    Op(u8),
    /// A minimal push of an integer.
    Int(i64),
    /// A push of a public key's serialization.
    Key(P),
    /// A push of a hash's bytes.
    Hash(Sha256dHash),
}

pub open spec fn op<P>(o: u8) -> Instr<P> {
    Instr::Op(o)
}

pub open spec fn num<P>(n: int) -> Instr<P> {
    Instr::Int(n as i64)
}

/// No instruction pushes `i64::MIN` (which the script encoder cannot take).
pub open spec fn no_min_push<P>(s: Seq<Instr<P>>) -> bool {
    forall|j: int| 0 <= j < s.len() ==> !(#[trigger] s[j] matches Instr::Int(n) && n == i64::MIN)
}

pub broadcast proof fn lemma_no_min_push_concat<P>(a: Seq<Instr<P>>, b: Seq<Instr<P>>)
    ensures
        #[trigger] no_min_push(a + b) <==> (no_min_push(a) && no_min_push(b)),
{
    if no_min_push(a + b) {
        assert forall|j: int| 0 <= j < a.len() implies !(#[trigger] a[j] matches Instr::Int(n) && n == i64::MIN) by {
            assert((a + b)[j] == a[j]);
        }
        assert forall|j: int| 0 <= j < b.len() implies !(#[trigger] b[j] matches Instr::Int(n) && n == i64::MIN) by {
            assert((a + b)[a.len() + j] == b[j]);
        }
    }
}

/// The instructions of a list of public keys, each pushed in turn.
pub open spec fn key_instrs<P>(pks: Seq<P>) -> Seq<Instr<P>> {
    pks.map_values(|p: P| Instr::Key(p))
}

/// The instructions of the wrapped parts of a threshold: each part, in the
/// list's order, followed by `ADD`.
pub open spec fn ws_instrs<P>(ws: Seq<Rc<W<P>>>) -> Seq<Instr<P>>
    decreases ws,
{
    if ws.len() == 0 {
        Seq::empty()
    } else {
        ws_instrs(ws.subrange(0, ws.len() - 1)) + ws.last().instrs() + seq![op(OP_ADD)]
    }
}

/// One more wrapped part first: its instructions and `ADD` come first.
pub proof fn lemma_ws_instrs_prepend<P>(w: Rc<W<P>>, ws: Seq<Rc<W<P>>>)
    ensures
        ws_instrs(seq![w] + ws) == w.instrs() + seq![op(OP_ADD)] + ws_instrs(ws),
    decreases ws.len(),
{
    let a = seq![w] + ws;
    if ws.len() == 0 {
        assert(a.subrange(0, 0) =~= Seq::<Rc<W<P>>>::empty());
        assert(ws_instrs(ws) =~= Seq::<Instr<P>>::empty());
        assert(ws_instrs(a.subrange(0, 0)) =~= Seq::<Instr<P>>::empty());
        assert(ws_instrs(a) =~= w.instrs() + seq![op(OP_ADD)] + ws_instrs(ws));
    } else {
        let init = ws.subrange(0, ws.len() - 1);
        lemma_ws_instrs_prepend(w, init);
        assert(a.subrange(0, a.len() - 1) =~= seq![w] + init);
        assert(a.last() == ws.last());
        assert(ws_instrs(a) =~= w.instrs() + seq![op(OP_ADD)] + ws_instrs(ws));
    }
}

/// The wrapped parts of a threshold split at any point.
pub proof fn lemma_ws_instrs_split<P>(ws: Seq<Rc<W<P>>>, j: int)
    requires
        0 <= j <= ws.len(),
    ensures
        ws_instrs(ws) == ws_instrs(ws.subrange(0, j)) + ws_instrs(ws.subrange(j, ws.len() as int)),
    decreases ws.len(),
{
    if j == ws.len() {
        assert(ws.subrange(0, j) =~= ws);
        assert(ws.subrange(j, ws.len() as int) =~= Seq::<Rc<W<P>>>::empty());
        assert(ws_instrs(ws.subrange(j, ws.len() as int)) =~= Seq::<Instr<P>>::empty());
        assert(ws_instrs(ws) + Seq::<Instr<P>>::empty() =~= ws_instrs(ws));
    } else {
        let init = ws.subrange(0, ws.len() - 1);
        lemma_ws_instrs_split(init, j);
        assert(init.subrange(0, j) =~= ws.subrange(0, j));
        let tail = ws.subrange(j, ws.len() as int);
        assert(tail.subrange(0, tail.len() - 1) =~= init.subrange(j, init.len() as int));
        assert(tail.last() == ws.last());
        assert(ws_instrs(ws) =~= ws_instrs(ws.subrange(0, j)) + ws_instrs(tail));
    }
}

impl<P> E<P> {
    /// The instructions that this fragment stands for: the script that it
    /// serializes to.
    pub open spec fn instrs(self) -> Seq<Instr<P>>
        decreases self,
    {
        match self {
            E::CheckSig(pk) => seq![Instr::Key(pk), op(OP_CHECKSIG)],
            E::CheckMultiSig(k, pks) => seq![num(k as int)] + key_instrs(pks@) + seq![
                num(pks.len() as int),
                op(OP_CHECKMULTISIG),
            ],
            E::Time(n) => seq![op(OP_DUP), op(OP_IF), num(n as int), op(OP_CSV), op(OP_DROP), op(OP_ENDIF)],
            E::Threshold(k, e, ws) => e.instrs() + ws_instrs(ws@) + seq![num(k as int), op(OP_EQUAL)],
            E::ParallelAnd(l, r) => l.instrs() + r.instrs() + seq![op(OP_BOOLAND)],
            E::CascadeAnd(l, r) => l.instrs() + seq![op(OP_NOTIF), num(0), op(OP_ELSE)] + r.instrs()
                + seq![op(OP_ENDIF)],
            E::ParallelOr(l, r) => l.instrs() + r.instrs() + seq![op(OP_BOOLOR)],
            E::CascadeOr(l, r) => l.instrs() + seq![op(OP_IFDUP), op(OP_NOTIF)] + r.instrs() + seq![op(OP_ENDIF)],
            E::SwitchOrLeft(l, r) => seq![op(OP_IF)] + l.instrs() + seq![op(OP_ELSE)] + r.instrs() + seq![op(OP_ENDIF)],
            E::SwitchOrRight(l, r) => seq![op(OP_NOTIF)] + l.instrs() + seq![op(OP_ELSE)] + r.instrs() + seq![op(OP_ENDIF)],
            E::Likely(f) => seq![op(OP_NOTIF)] + f.instrs() + seq![op(OP_ELSE), num(0), op(OP_ENDIF)],
            E::Unlikely(f) => seq![op(OP_IF)] + f.instrs() + seq![op(OP_ELSE), num(0), op(OP_ENDIF)],
        }
    }
}

impl<P> W<P> {
    /// The instructions that this fragment stands for: the script that it
    /// serializes to.
    pub open spec fn instrs(self) -> Seq<Instr<P>>
        decreases self,
    {
        match self {
            W::CheckSig(pk) => seq![op(OP_SWAP), Instr::Key(pk), op(OP_CHECKSIG)],
            W::HashEqual(h) => seq![
                op(OP_SWAP), op(OP_SIZE), op(OP_0NOTEQUAL), op(OP_IF), op(OP_SIZE), num(32),
                op(OP_EQUALVERIFY), op(OP_SHA256), Instr::Hash(h), op(OP_EQUALVERIFY), num(1), op(OP_ENDIF)
            ],
            W::Time(n) => seq![op(OP_SWAP), op(OP_DUP), op(OP_IF), num(n as int), op(OP_CSV), op(OP_DROP), op(OP_ENDIF)],
            W::CastE(e) => seq![op(OP_TOALTSTACK)] + e.instrs() + seq![op(OP_FROMALTSTACK)],
        }
    }
}

impl<P> F<P> {
    /// The instructions that this fragment stands for: the script that it
    /// serializes to.
    pub open spec fn instrs(self) -> Seq<Instr<P>>
        decreases self,
    {
        match self {
            F::CheckSig(pk) => seq![Instr::Key(pk), op(OP_CHECKSIGVERIFY), num(1)],
            F::CheckMultiSig(k, pks) => seq![num(k as int)] + key_instrs(pks@) + seq![
                num(pks.len() as int),
                op(OP_CHECKMULTISIGVERIFY),
                num(1),
            ],
            F::Time(n) => seq![num(n as int), op(OP_CSV), op(OP_0NOTEQUAL)],
            F::HashEqual(h) => seq![
                op(OP_SIZE), num(32), op(OP_EQUALVERIFY), op(OP_SHA256), Instr::Hash(h), op(OP_EQUALVERIFY), num(1)
            ],
            F::Threshold(k, e, ws) => e.instrs() + ws_instrs(ws@) + seq![num(k as int), op(OP_EQUALVERIFY), num(1)],
            F::And(l, r) => l.instrs() + r.instrs(),
            F::SwitchOr(l, r) => seq![op(OP_IF)] + l.instrs() + seq![op(OP_ELSE)] + r.instrs() + seq![op(OP_ENDIF)],
            F::SwitchOrV(l, r) => seq![op(OP_IF)] + l.instrs() + seq![op(OP_ELSE)] + r.instrs() + seq![op(OP_ENDIF), num(1)],
            F::CascadeOr(l, r) => l.instrs() + seq![op(OP_NOTIF)] + r.instrs() + seq![op(OP_ENDIF), num(1)],
        }
    }
}

impl<P> V<P> {
    /// The instructions that this fragment stands for: the script that it
    /// serializes to.
    pub open spec fn instrs(self) -> Seq<Instr<P>>
        decreases self,
    {
        match self {
            V::CheckSig(pk) => seq![Instr::Key(pk), op(OP_CHECKSIGVERIFY)],
            V::CheckMultiSig(k, pks) => seq![num(k as int)] + key_instrs(pks@) + seq![
                num(pks.len() as int),
                op(OP_CHECKMULTISIGVERIFY),
            ],
            V::Time(n) => seq![num(n as int), op(OP_CSV), op(OP_DROP)],
            V::HashEqual(h) => seq![
                op(OP_SIZE), num(32), op(OP_EQUALVERIFY), op(OP_SHA256), Instr::Hash(h), op(OP_EQUALVERIFY)
            ],
            V::Threshold(k, e, ws) => e.instrs() + ws_instrs(ws@) + seq![num(k as int), op(OP_EQUALVERIFY)],
            V::And(l, r) => l.instrs() + r.instrs(),
            V::SwitchOr(l, r) => seq![op(OP_IF)] + l.instrs() + seq![op(OP_ELSE)] + r.instrs() + seq![op(OP_ENDIF)],
            V::SwitchOrT(l, r) => seq![op(OP_IF)] + l.instrs() + seq![op(OP_ELSE)] + r.instrs() + seq![op(OP_ENDIF), op(OP_VERIFY)],
            V::CascadeOr(l, r) => l.instrs() + seq![op(OP_NOTIF)] + r.instrs() + seq![op(OP_ENDIF)],
        }
    }
}

impl<P> T<P> {
    /// The instructions that this fragment stands for: the script that it
    /// serializes to.
    pub open spec fn instrs(self) -> Seq<Instr<P>>
        decreases self,
    {
        match self {
            T::Time(n) => seq![num(n as int), op(OP_CSV)],
            T::HashEqual(h) => seq![
                op(OP_SIZE), num(32), op(OP_EQUALVERIFY), op(OP_SHA256), Instr::Hash(h), op(OP_EQUAL)
            ],
            T::And(l, r) => l.instrs() + r.instrs(),
            T::ParallelOr(l, r) => l.instrs() + r.instrs() + seq![op(OP_BOOLOR)],
            T::CascadeOr(l, r) => l.instrs() + seq![op(OP_IFDUP), op(OP_NOTIF)] + r.instrs() + seq![op(OP_ENDIF)],
            T::CascadeOrV(l, r) => l.instrs() + seq![op(OP_NOTIF)] + r.instrs() + seq![op(OP_ENDIF), num(1)],
            T::SwitchOr(l, r) => seq![op(OP_IF)] + l.instrs() + seq![op(OP_ELSE)] + r.instrs() + seq![op(OP_ENDIF)],
            T::SwitchOrV(l, r) => seq![op(OP_IF)] + l.instrs() + seq![op(OP_ELSE)] + r.instrs() + seq![op(OP_ENDIF), num(1)],
            T::CastE(e) => e.instrs(),
        }
    }
}


/// Whether `k`, pushed as a script number, fits the encoder.
fn count_fits(k: usize) -> (r: bool)
    ensures
        r == no_min_push(seq![num::<()>(k as int)]),
        r == ((k as int) as i64 != i64::MIN),
{
    proof {
        assert(seq![num::<()>(k as int)][0] == num::<()>(k as int));
    }
    (k as i64) != i64::MIN
}

/// Opcodes, small numbers and keys always fit the encoder.
proof fn lemma_no_min_push_small<P>()
    ensures
        forall|o: u8| #[trigger] no_min_push(seq![op::<P>(o)]),
        forall|n: int| 0 <= n <= u32::MAX ==> #[trigger] no_min_push(seq![num::<P>(n)]),
        forall|k: usize| #[trigger] no_min_push(seq![num::<P>(k as int)]) == ((k as int) as i64 != i64::MIN),
{
    assert forall|o: u8| #[trigger] no_min_push(seq![op::<P>(o)]) by {
        assert(seq![op::<P>(o)][0] == op::<P>(o));
    }
    assert forall|n: int| 0 <= n <= u32::MAX implies #[trigger] no_min_push(seq![num::<P>(n)]) by {
        assert(seq![num::<P>(n)][0] == num::<P>(n));
    }
    assert forall|k: usize| #[trigger] no_min_push(seq![num::<P>(k as int)]) == ((k as int) as i64 != i64::MIN) by {
        assert(seq![num::<P>(k as int)][0] == num::<P>(k as int));
    }
}

/// Key pushes always fit the encoder.
proof fn lemma_no_min_push_keys<P>(pks: Seq<P>)
    ensures
        no_min_push(key_instrs(pks)),
{
    assert forall|j: int| 0 <= j < key_instrs(pks).len() implies !(#[trigger] key_instrs(pks)[j] matches Instr::Int(n)
        && n == i64::MIN) by {
        assert(key_instrs(pks)[j] == Instr::<P>::Key(pks[j]));
    }
}

/// The instructions of a wrapped part.
spec fn part_instrs<P>(w: Rc<W<P>>) -> Seq<Instr<P>> {
    w.instrs()
}

/// Whether every number that the wrapped parts push fits the encoder.
fn ws_pushes_fit<P>(ws: &Vec<Rc<W<P>>>) -> (r: bool)
    ensures
        r == no_min_push(ws_instrs(ws@)),
    decreases ws@, 0nat,
{
    proof {
        broadcast use lemma_no_min_push_concat;
        lemma_no_min_push_small::<P>();
    }
    let mut i: usize = 0;
    while i < ws.len()
        invariant
            i <= ws@.len(),
            no_min_push(ws_instrs(ws@.subrange(0, i as int))),
        decreases ws.len() - i,
    {
        let ok = ws[i].pushes_fit();
        proof {
            let p = ws@.subrange(0, i + 1);
            assert(p.subrange(0, p.len() - 1) =~= ws@.subrange(0, i as int));
            assert(p.last() == ws@[i as int]);
            lemma_ws_instrs_split(ws@, i + 1);
            lemma_ws_instrs_split(ws@, i as int);
            lemma_ws_instrs_split(ws@.subrange(0, i + 1), i as int);
            assert(ws@.subrange(0, i + 1).subrange(0, i as int) =~= ws@.subrange(0, i as int));
        }
        if !ok {
            proof {
                let p = ws@.subrange(0, i + 1);
                let a = ws_instrs(p.subrange(0, p.len() - 1));
                let b = part_instrs(p.last());
                assert(ws_instrs(p) == a + b + seq![op::<P>(OP_ADD)]);
                assert(b == (*ws@[i as int]).instrs());
                lemma_no_min_push_concat(a + b, seq![op::<P>(OP_ADD)]);
                lemma_no_min_push_concat(a, b);
                assert(!no_min_push(ws_instrs(p)));
                lemma_no_min_push_concat(ws_instrs(p), ws_instrs(ws@.subrange(i + 1, ws@.len() as int)));
            }
            return false;
        }
        i = i + 1;
    }
    proof {
        assert(ws@.subrange(0, ws@.len() as int) =~= ws@);
    }
    true
}

impl<P> E<P> {
    /// Whether every number that the script pushes fits the encoder (none
    /// is `i64::MIN`): what serializing the fragment needs.
    pub fn pushes_fit(&self) -> (r: bool)
        ensures
            r == no_min_push(self.instrs()),
        decreases *self,
    {
        proof {
            broadcast use lemma_no_min_push_concat;
            lemma_no_min_push_small::<P>();
        }
        match self {
            E::CheckSig(_) => true,
            E::CheckMultiSig(k, pks) => {
                proof {
                    lemma_no_min_push_keys(pks@);
                }
                count_fits(*k) && count_fits(pks.len())
            },
            E::Time(_) => true,
            E::Threshold(k, e, ws) => e.pushes_fit() && ws_pushes_fit(ws) && count_fits(*k),
            E::ParallelAnd(l, r) => l.pushes_fit() && r.pushes_fit(),
            E::CascadeAnd(l, r) => l.pushes_fit() && r.pushes_fit(),
            E::ParallelOr(l, r) => l.pushes_fit() && r.pushes_fit(),
            E::CascadeOr(l, r) => l.pushes_fit() && r.pushes_fit(),
            E::SwitchOrLeft(l, r) => l.pushes_fit() && r.pushes_fit(),
            E::SwitchOrRight(l, r) => l.pushes_fit() && r.pushes_fit(),
            E::Likely(f) => f.pushes_fit(),
            E::Unlikely(f) => f.pushes_fit(),
        }
    }
}

impl<P> W<P> {
    /// Whether every number that the script pushes fits the encoder (none
    /// is `i64::MIN`): what serializing the fragment needs.
    pub fn pushes_fit(&self) -> (r: bool)
        ensures
            r == no_min_push(self.instrs()),
        decreases *self,
    {
        proof {
            broadcast use lemma_no_min_push_concat;
            lemma_no_min_push_small::<P>();
        }
        match self {
            W::CastE(e) => e.pushes_fit(),
            _ => true,
        }
    }
}

impl<P> F<P> {
    /// Whether every number that the script pushes fits the encoder (none
    /// is `i64::MIN`): what serializing the fragment needs.
    pub fn pushes_fit(&self) -> (r: bool)
        ensures
            r == no_min_push(self.instrs()),
        decreases *self,
    {
        proof {
            broadcast use lemma_no_min_push_concat;
            lemma_no_min_push_small::<P>();
        }
        match self {
            F::CheckMultiSig(k, pks) => {
                proof {
                    lemma_no_min_push_keys(pks@);
                }
                count_fits(*k) && count_fits(pks.len())
            },
            F::Threshold(k, e, ws) => e.pushes_fit() && ws_pushes_fit(ws) && count_fits(*k),
            F::And(l, r) => l.pushes_fit() && r.pushes_fit(),
            F::CascadeOr(l, r) => l.pushes_fit() && r.pushes_fit(),
            F::SwitchOr(l, r) => l.pushes_fit() && r.pushes_fit(),
            F::SwitchOrV(l, r) => l.pushes_fit() && r.pushes_fit(),
            _ => true,
        }
    }
}

impl<P> V<P> {
    /// Whether every number that the script pushes fits the encoder (none
    /// is `i64::MIN`): what serializing the fragment needs.
    pub fn pushes_fit(&self) -> (r: bool)
        ensures
            r == no_min_push(self.instrs()),
        decreases *self,
    {
        proof {
            broadcast use lemma_no_min_push_concat;
            lemma_no_min_push_small::<P>();
        }
        match self {
            V::CheckMultiSig(k, pks) => {
                proof {
                    lemma_no_min_push_keys(pks@);
                }
                count_fits(*k) && count_fits(pks.len())
            },
            V::Threshold(k, e, ws) => e.pushes_fit() && ws_pushes_fit(ws) && count_fits(*k),
            V::And(l, r) => l.pushes_fit() && r.pushes_fit(),
            V::CascadeOr(l, r) => l.pushes_fit() && r.pushes_fit(),
            V::SwitchOr(l, r) => l.pushes_fit() && r.pushes_fit(),
            V::SwitchOrT(l, r) => l.pushes_fit() && r.pushes_fit(),
            _ => true,
        }
    }
}

impl<P> T<P> {
    /// Whether every number that the script pushes fits the encoder (none
    /// is `i64::MIN`): what serializing the fragment needs.
    pub fn pushes_fit(&self) -> (r: bool)
        ensures
            r == no_min_push(self.instrs()),
        decreases *self,
    {
        proof {
            broadcast use lemma_no_min_push_concat;
            lemma_no_min_push_small::<P>();
        }
        match self {
            T::And(l, r) => l.pushes_fit() && r.pushes_fit(),
            T::ParallelOr(l, r) => l.pushes_fit() && r.pushes_fit(),
            T::CascadeOr(l, r) => l.pushes_fit() && r.pushes_fit(),
            T::CascadeOrV(l, r) => l.pushes_fit() && r.pushes_fit(),
            T::SwitchOr(l, r) => l.pushes_fit() && r.pushes_fit(),
            T::SwitchOrV(l, r) => l.pushes_fit() && r.pushes_fit(),
            T::CastE(e) => e.pushes_fit(),
            _ => true,
        }
    }
}

/// Wrapped parts that are the same, one for one.
pub open spec fn ws_same<P>(a: Seq<Rc<W<P>>>, b: Seq<Rc<W<P>>>) -> bool
    decreases a,
{
    if a.len() == 0 {
        b.len() == 0
    } else {
        &&& b.len() == a.len()
        &&& ws_same(a.subrange(0, a.len() - 1), b.subrange(0, b.len() - 1))
        &&& a.last().same(*b.last())
    }
}

impl<P> E<P> {
    /// The same fragment, lists compared by their contents.
    pub open spec fn same(self, o: Self) -> bool
        decreases self,
    {
        match (self, o) {
            (E::CheckMultiSig(k, p), E::CheckMultiSig(k2, p2)) => k == k2 && p@ == p2@,
            (E::Threshold(k, e, ws), E::Threshold(k2, e2, ws2)) => k == k2 && e.same(*e2) && ws_same(ws@, ws2@),
            (E::ParallelAnd(l, r), E::ParallelAnd(l2, r2)) => l.same(*l2) && r.same(*r2),
            (E::CascadeAnd(l, r), E::CascadeAnd(l2, r2)) => l.same(*l2) && r.same(*r2),
            (E::ParallelOr(l, r), E::ParallelOr(l2, r2)) => l.same(*l2) && r.same(*r2),
            (E::CascadeOr(l, r), E::CascadeOr(l2, r2)) => l.same(*l2) && r.same(*r2),
            (E::SwitchOrLeft(l, r), E::SwitchOrLeft(l2, r2)) => l.same(*l2) && r.same(*r2),
            (E::SwitchOrRight(l, r), E::SwitchOrRight(l2, r2)) => l.same(*l2) && r.same(*r2),
            (E::Likely(f), E::Likely(f2)) => f.same(*f2),
            (E::Unlikely(f), E::Unlikely(f2)) => f.same(*f2),
            _ => self == o,
        }
    }
}

impl<P> W<P> {
    /// The same fragment, lists compared by their contents.
    pub open spec fn same(self, o: Self) -> bool
        decreases self,
    {
        match (self, o) {
            (W::CastE(e), W::CastE(e2)) => e.same(*e2),
            _ => self == o,
        }
    }
}

impl<P> F<P> {
    /// The same fragment, lists compared by their contents.
    pub open spec fn same(self, o: Self) -> bool
        decreases self,
    {
        match (self, o) {
            (F::CheckMultiSig(k, p), F::CheckMultiSig(k2, p2)) => k == k2 && p@ == p2@,
            (F::Threshold(k, e, ws), F::Threshold(k2, e2, ws2)) => k == k2 && e.same(*e2) && ws_same(ws@, ws2@),
            (F::And(l, r), F::And(l2, r2)) => l.same(*l2) && r.same(*r2),
            (F::CascadeOr(l, r), F::CascadeOr(l2, r2)) => l.same(*l2) && r.same(*r2),
            (F::SwitchOr(l, r), F::SwitchOr(l2, r2)) => l.same(*l2) && r.same(*r2),
            (F::SwitchOrV(l, r), F::SwitchOrV(l2, r2)) => l.same(*l2) && r.same(*r2),
            _ => self == o,
        }
    }
}

impl<P> V<P> {
    /// The same fragment, lists compared by their contents.
    pub open spec fn same(self, o: Self) -> bool
        decreases self,
    {
        match (self, o) {
            (V::CheckMultiSig(k, p), V::CheckMultiSig(k2, p2)) => k == k2 && p@ == p2@,
            (V::Threshold(k, e, ws), V::Threshold(k2, e2, ws2)) => k == k2 && e.same(*e2) && ws_same(ws@, ws2@),
            (V::And(l, r), V::And(l2, r2)) => l.same(*l2) && r.same(*r2),
            (V::CascadeOr(l, r), V::CascadeOr(l2, r2)) => l.same(*l2) && r.same(*r2),
            (V::SwitchOr(l, r), V::SwitchOr(l2, r2)) => l.same(*l2) && r.same(*r2),
            (V::SwitchOrT(l, r), V::SwitchOrT(l2, r2)) => l.same(*l2) && r.same(*r2),
            _ => self == o,
        }
    }
}

impl<P> T<P> {
    /// The same fragment, lists compared by their contents.
    pub open spec fn same(self, o: Self) -> bool
        decreases self,
    {
        match (self, o) {
            (T::And(l, r), T::And(l2, r2)) => l.same(*l2) && r.same(*r2),
            (T::ParallelOr(l, r), T::ParallelOr(l2, r2)) => l.same(*l2) && r.same(*r2),
            (T::CascadeOr(l, r), T::CascadeOr(l2, r2)) => l.same(*l2) && r.same(*r2),
            (T::CascadeOrV(l, r), T::CascadeOrV(l2, r2)) => l.same(*l2) && r.same(*r2),
            (T::SwitchOr(l, r), T::SwitchOr(l2, r2)) => l.same(*l2) && r.same(*r2),
            (T::SwitchOrV(l, r), T::SwitchOrV(l2, r2)) => l.same(*l2) && r.same(*r2),
            (T::CastE(e), T::CastE(e2)) => e.same(e2),
            _ => self == o,
        }
    }
}

/// Wrapped parts are the same as themselves.
pub proof fn lemma_ws_same_refl<P>(ws: Seq<Rc<W<P>>>)
    ensures
        ws_same(ws, ws),
    decreases ws,
{
    if ws.len() > 0 {
        lemma_ws_same_refl(ws.subrange(0, ws.len() - 1));
        ws.last().lemma_same_refl();
    }
}

impl<P> E<P> {
    /// A fragment is the same as itself.
    pub proof fn lemma_same_refl(&self)
        ensures
            self.same(*self),
        decreases *self,
    {
        match self {
            E::Threshold(_, e, ws) => {
                e.lemma_same_refl();
                lemma_ws_same_refl(ws@);
            },
            E::ParallelAnd(l, r) => {
                l.lemma_same_refl();
                r.lemma_same_refl();
            },
            E::CascadeAnd(l, r) => {
                l.lemma_same_refl();
                r.lemma_same_refl();
            },
            E::ParallelOr(l, r) => {
                l.lemma_same_refl();
                r.lemma_same_refl();
            },
            E::CascadeOr(l, r) => {
                l.lemma_same_refl();
                r.lemma_same_refl();
            },
            E::SwitchOrLeft(l, r) => {
                l.lemma_same_refl();
                r.lemma_same_refl();
            },
            E::SwitchOrRight(l, r) => {
                l.lemma_same_refl();
                r.lemma_same_refl();
            },
            E::Likely(x) => {
                x.lemma_same_refl();
            },
            E::Unlikely(x) => {
                x.lemma_same_refl();
            },
            _ => {},
        }
    }
}

impl<P> W<P> {
    /// A fragment is the same as itself.
    pub proof fn lemma_same_refl(&self)
        ensures
            self.same(*self),
        decreases *self,
    {
        match self {
            W::CastE(x) => {
                x.lemma_same_refl();
            },
            _ => {},
        }
    }
}

impl<P> F<P> {
    /// A fragment is the same as itself.
    pub proof fn lemma_same_refl(&self)
        ensures
            self.same(*self),
        decreases *self,
    {
        match self {
            F::Threshold(_, e, ws) => {
                e.lemma_same_refl();
                lemma_ws_same_refl(ws@);
            },
            F::And(l, r) => {
                l.lemma_same_refl();
                r.lemma_same_refl();
            },
            F::CascadeOr(l, r) => {
                l.lemma_same_refl();
                r.lemma_same_refl();
            },
            F::SwitchOr(l, r) => {
                l.lemma_same_refl();
                r.lemma_same_refl();
            },
            F::SwitchOrV(l, r) => {
                l.lemma_same_refl();
                r.lemma_same_refl();
            },
            _ => {},
        }
    }
}

impl<P> V<P> {
    /// A fragment is the same as itself.
    pub proof fn lemma_same_refl(&self)
        ensures
            self.same(*self),
        decreases *self,
    {
        match self {
            V::Threshold(_, e, ws) => {
                e.lemma_same_refl();
                lemma_ws_same_refl(ws@);
            },
            V::And(l, r) => {
                l.lemma_same_refl();
                r.lemma_same_refl();
            },
            V::CascadeOr(l, r) => {
                l.lemma_same_refl();
                r.lemma_same_refl();
            },
            V::SwitchOr(l, r) => {
                l.lemma_same_refl();
                r.lemma_same_refl();
            },
            V::SwitchOrT(l, r) => {
                l.lemma_same_refl();
                r.lemma_same_refl();
            },
            _ => {},
        }
    }
}

impl<P> T<P> {
    /// A fragment is the same as itself.
    pub proof fn lemma_same_refl(&self)
        ensures
            self.same(*self),
        decreases *self,
    {
        match self {
            T::And(l, r) => {
                l.lemma_same_refl();
                r.lemma_same_refl();
            },
            T::ParallelOr(l, r) => {
                l.lemma_same_refl();
                r.lemma_same_refl();
            },
            T::CascadeOr(l, r) => {
                l.lemma_same_refl();
                r.lemma_same_refl();
            },
            T::CascadeOrV(l, r) => {
                l.lemma_same_refl();
                r.lemma_same_refl();
            },
            T::SwitchOr(l, r) => {
                l.lemma_same_refl();
                r.lemma_same_refl();
            },
            T::SwitchOrV(l, r) => {
                l.lemma_same_refl();
                r.lemma_same_refl();
            },
            T::CastE(x) => {
                x.lemma_same_refl();
            },
            _ => {},
        }
    }
}

} // verus!
