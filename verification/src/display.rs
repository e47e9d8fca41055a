//! The text form of script fragments (the descriptor language).

use std::rc::Rc;
use vstd::prelude::*;
use vstd::string::StringExecFns;
use crate::ast::{E, W, F, V, T};
use crate::keys::{PublicKey, Sha256dHash, key_from_str, raw_key_debug, secp_key_debug};
use crate::text::{dec, hex, push_dec, push_hex};

verus! {

/// Appends two lowercase hex digits for each byte, last byte first.
pub fn push_hex_rev(s: &mut String, bytes: &[u8])
    ensures
        final(s)@ == old(s)@ + hex(bytes@.reverse()),
{
    let mut rev: Vec<u8> = Vec::new();
    let mut i: usize = bytes.len();
    while i > 0
        invariant
            i <= bytes@.len(),
            rev@ == bytes@.subrange(i as int, bytes@.len() as int).reverse(),
        decreases i,
    {
        i = i - 1;
        rev.push(bytes[i]);
        proof {
            assert(rev@ =~= bytes@.subrange(i as int, bytes@.len() as int).reverse());
        }
    }
    proof {
        assert(bytes@.subrange(0, bytes@.len() as int) =~= bytes@);
    }
    push_hex(s, rev.as_slice());
}

/// The text of a public key: its serialization in lowercase hex.
pub open spec fn key_text(k: PublicKey) -> Seq<char> {
    hex(k.bytes@)
}

/// A key with a text form: what the text of a fragment over such keys
/// prints for each key.
pub trait KeyText: Sized {
    /// The text of the key.
    spec fn key_str(&self) -> Seq<char>;

    /// Appends the text of the key.
    fn write_key(&self, s: &mut String)
        ensures
            final(s)@ == old(s)@ + self.key_str(),
    ;

    /// Whether `t` is a text that the debug form of the key can be.
    spec fn key_debug_form(&self, t: Seq<char>) -> bool;

    /// Appends the debug form of the key, and gives it.
    fn write_key_debug(&self, s: &mut String) -> (t: Ghost<Seq<char>>)
        ensures
            self.key_debug_form(t@),
            final(s)@ == old(s)@ + t@,
    ;
}

impl KeyText for PublicKey {
    open spec fn key_str(&self) -> Seq<char> {
        key_text(*self)
    }

    fn write_key(&self, s: &mut String) {
        push_hex(s, self.bytes.as_slice());
    }

    /// The debug form of the `secp256k1` key; bytes that serialize no key
    /// print as their text.
    open spec fn key_debug_form(&self, t: Seq<char>) -> bool {
        raw_key_debug(t) || (key_from_str(hex(self.bytes@)) != Some(self.bytes@) && t == key_text(*self))
    }

    fn write_key_debug(&self, s: &mut String) -> (t: Ghost<Seq<char>>) {
        match secp_key_debug(&self.bytes) {
            Some(d) => {
                s.append(d.as_str());
                Ghost(d@)
            },
            None => {
                push_hex(s, self.bytes.as_slice());
                Ghost(key_text(*self))
            },
        }
    }
}

/// A number standing for a key: its decimal text.
impl KeyText for u32 {
    open spec fn key_str(&self) -> Seq<char> {
        dec(*self as nat)
    }

    fn write_key(&self, s: &mut String) {
        push_dec(s, *self as u64);
    }

    /// Its decimal text, as for the text form.
    open spec fn key_debug_form(&self, t: Seq<char>) -> bool {
        t == dec(*self as nat)
    }

    fn write_key_debug(&self, s: &mut String) -> (t: Ghost<Seq<char>>) {
        push_dec(s, *self as u64);
        Ghost(dec(*self as nat))
    }
}

/// The text of a hash: its bytes in lowercase hex, last byte first.
pub open spec fn hash_text(h: Sha256dHash) -> Seq<char> {
    hex(h.bytes@.reverse())
}

/// Each key, preceded by a comma.
pub open spec fn keys_text<P: KeyText>(ps: Seq<P>) -> Seq<char>
    decreases ps.len(),
{
    if ps.len() == 0 {
        Seq::empty()
    } else {
        keys_text(ps.drop_last()) + ","@ + ps.last().key_str()
    }
}

/// Each wrapped part, preceded by a comma.
pub open spec fn ws_text<P: KeyText>(ws: Seq<Rc<W<P>>>) -> Seq<char>
    decreases ws,
{
    if ws.len() == 0 {
        Seq::empty()
    } else {
        ws_text(ws.subrange(0, ws.len() - 1)) + ","@ + ws.last().display()
    }
}

/// Appends each key, preceded by a comma.
pub fn write_keys<P: KeyText>(s: &mut String, ps: &Vec<P>)
    ensures
        final(s)@ == old(s)@ + keys_text(ps@),
{
    let ghost s0 = s@;
    let mut i: usize = 0;
    while i < ps.len()
        invariant
            i <= ps@.len(),
            s@ == s0 + keys_text(ps@.subrange(0, i as int)),
        decreases ps.len() - i,
    {
        s.append(",");
        ps[i].write_key(s);
        proof {
            let t = ps@.subrange(0, i + 1);
            assert(t.drop_last() =~= ps@.subrange(0, i as int));
            assert(s@ =~= s0 + keys_text(t));
        }
        i = i + 1;
    }
    proof {
        assert(ps@.subrange(0, ps@.len() as int) =~= ps@);
    }
}

/// Appends each wrapped part, preceded by a comma.
fn write_ws<P: KeyText>(s: &mut String, ws: &Vec<Rc<W<P>>>)
    ensures
        final(s)@ == old(s)@ + ws_text(ws@),
    decreases ws@, 0nat,
{
    let ghost s0 = s@;
    let mut i: usize = 0;
    while i < ws.len()
        invariant
            i <= ws@.len(),
            s@ == s0 + ws_text(ws@.subrange(0, i as int)),
        decreases ws.len() - i,
    {
        s.append(",");
        ws[i].write_to(s);
        proof {
            let t = ws@.subrange(0, i + 1);
            assert(t.subrange(0, t.len() - 1) =~= ws@.subrange(0, i as int));
            assert(s@ =~= s0 + ws_text(t));
        }
        i = i + 1;
    }
    proof {
        assert(ws@.subrange(0, ws@.len() as int) =~= ws@);
    }
}

impl<P: KeyText> E<P> {
    /// The text form of this fragment.
    pub open spec fn display(self) -> Seq<char>
        decreases self,
    {
        match self {
            E::CheckSig(p) => "pk("@ + p.key_str() + ")"@,
            E::CheckMultiSig(k, ps) => "multi("@ + dec(k as nat) + keys_text(ps@) + ")"@,
            E::Time(n) => "time("@ + dec(n as nat) + ")"@,
            E::Threshold(k, e, subs) => "thres("@ + dec(k as nat) + ","@ + e.display() + ws_text(subs@) + ")"@,
            E::ParallelAnd(l, r) => "and_p("@ + l.display() + ","@ + r.display() + ")"@,
            E::CascadeAnd(l, r) => "and_c("@ + l.display() + ","@ + r.display() + ")"@,
            E::ParallelOr(l, r) => "or_p("@ + l.display() + ","@ + r.display() + ")"@,
            E::CascadeOr(l, r) => "or_c("@ + l.display() + ","@ + r.display() + ")"@,
            E::SwitchOrLeft(l, r) => "or_s("@ + l.display() + ","@ + r.display() + ")"@,
            E::SwitchOrRight(l, r) => "or_a("@ + l.display() + ","@ + r.display() + ")"@,
            E::Likely(f) => "lift_l("@ + f.display() + ")"@,
            E::Unlikely(f) => "lift_u("@ + f.display() + ")"@,
        }
    }

    /// Appends the text form of this fragment.
    pub fn write_to(&self, s: &mut String)
        ensures
            final(s)@ == old(s)@ + self.display(),
        decreases self,
    {
        let ghost s0 = s@;
        match self {
            E::CheckSig(p) => {
                s.append("pk(");
                p.write_key(s);
                s.append(")");
            },
            E::CheckMultiSig(k, ps) => {
                s.append("multi(");
                push_dec(s, *k as u64);
                write_keys(s, ps);
                s.append(")");
            },
            E::Time(n) => {
                s.append("time(");
                push_dec(s, *n as u64);
                s.append(")");
            },
            E::Threshold(k, e, subs) => {
                s.append("thres(");
                push_dec(s, *k as u64);
                s.append(",");
                e.write_to(s);
                write_ws(s, subs);
                s.append(")");
            },
            E::ParallelAnd(l, r) => {
                s.append("and_p(");
                l.write_to(s);
                s.append(",");
                r.write_to(s);
                s.append(")");
            },
            E::CascadeAnd(l, r) => {
                s.append("and_c(");
                l.write_to(s);
                s.append(",");
                r.write_to(s);
                s.append(")");
            },
            E::ParallelOr(l, r) => {
                s.append("or_p(");
                l.write_to(s);
                s.append(",");
                r.write_to(s);
                s.append(")");
            },
            E::CascadeOr(l, r) => {
                s.append("or_c(");
                l.write_to(s);
                s.append(",");
                r.write_to(s);
                s.append(")");
            },
            E::SwitchOrLeft(l, r) => {
                s.append("or_s(");
                l.write_to(s);
                s.append(",");
                r.write_to(s);
                s.append(")");
            },
            E::SwitchOrRight(l, r) => {
                s.append("or_a(");
                l.write_to(s);
                s.append(",");
                r.write_to(s);
                s.append(")");
            },
            E::Likely(f) => {
                s.append("lift_l(");
                f.write_to(s);
                s.append(")");
            },
            E::Unlikely(f) => {
                s.append("lift_u(");
                f.write_to(s);
                s.append(")");
            },
        }
        proof {
            assert(s@ =~= s0 + self.display());
        }
    }

    /// The text form of this fragment.
    pub fn to_string(&self) -> (r: String)
        ensures
            r@ == self.display(),
    {
        let mut s = String::new();
        self.write_to(&mut s);
        proof {
            assert(s@ =~= self.display());
        }
        s
    }
}

impl<P: KeyText> W<P> {
    /// The text form of this fragment.
    pub open spec fn display(self) -> Seq<char>
        decreases self,
    {
        match self {
            W::CheckSig(p) => "pk("@ + p.key_str() + ")"@,
            W::HashEqual(h) => "hash("@ + hash_text(h) + ")"@,
            W::Time(n) => "time("@ + dec(n as nat) + ")"@,
            W::CastE(e) => e.display(),
        }
    }

    /// Appends the text form of this fragment.
    pub fn write_to(&self, s: &mut String)
        ensures
            final(s)@ == old(s)@ + self.display(),
        decreases self,
    {
        let ghost s0 = s@;
        match self {
            W::CheckSig(p) => {
                s.append("pk(");
                p.write_key(s);
                s.append(")");
            },
            W::HashEqual(h) => {
                s.append("hash(");
                push_hex_rev(s, h.bytes.as_slice());
                s.append(")");
            },
            W::Time(n) => {
                s.append("time(");
                push_dec(s, *n as u64);
                s.append(")");
            },
            W::CastE(e) => {
                e.write_to(s);
            },
        }
        proof {
            assert(s@ =~= s0 + self.display());
        }
    }

    /// The text form of this fragment.
    pub fn to_string(&self) -> (r: String)
        ensures
            r@ == self.display(),
    {
        let mut s = String::new();
        self.write_to(&mut s);
        proof {
            assert(s@ =~= self.display());
        }
        s
    }
}

impl<P: KeyText> F<P> {
    /// The text form of this fragment.
    pub open spec fn display(self) -> Seq<char>
        decreases self,
    {
        match self {
            F::CheckSig(p) => "pk("@ + p.key_str() + ")"@,
            F::CheckMultiSig(k, ps) => "multi("@ + dec(k as nat) + keys_text(ps@) + ")"@,
            F::Time(n) => "time("@ + dec(n as nat) + ")"@,
            F::HashEqual(h) => "hash("@ + hash_text(h) + ")"@,
            F::Threshold(k, e, subs) => "thres("@ + dec(k as nat) + ","@ + e.display() + ws_text(subs@) + ")"@,
            F::And(l, r) => "and_p("@ + l.display() + ","@ + r.display() + ")"@,
            F::CascadeOr(l, r) => "or_v("@ + l.display() + ","@ + r.display() + ")"@,
            F::SwitchOr(l, r) => "or_s("@ + l.display() + ","@ + r.display() + ")"@,
            F::SwitchOrV(l, r) => "or_a("@ + l.display() + ","@ + r.display() + ")"@,
        }
    }

    /// Appends the text form of this fragment.
    pub fn write_to(&self, s: &mut String)
        ensures
            final(s)@ == old(s)@ + self.display(),
        decreases self,
    {
        let ghost s0 = s@;
        match self {
            F::CheckSig(p) => {
                s.append("pk(");
                p.write_key(s);
                s.append(")");
            },
            F::CheckMultiSig(k, ps) => {
                s.append("multi(");
                push_dec(s, *k as u64);
                write_keys(s, ps);
                s.append(")");
            },
            F::Time(n) => {
                s.append("time(");
                push_dec(s, *n as u64);
                s.append(")");
            },
            F::HashEqual(h) => {
                s.append("hash(");
                push_hex_rev(s, h.bytes.as_slice());
                s.append(")");
            },
            F::Threshold(k, e, subs) => {
                s.append("thres(");
                push_dec(s, *k as u64);
                s.append(",");
                e.write_to(s);
                write_ws(s, subs);
                s.append(")");
            },
            F::And(l, r) => {
                s.append("and_p(");
                l.write_to(s);
                s.append(",");
                r.write_to(s);
                s.append(")");
            },
            F::CascadeOr(l, r) => {
                s.append("or_v(");
                l.write_to(s);
                s.append(",");
                r.write_to(s);
                s.append(")");
            },
            F::SwitchOr(l, r) => {
                s.append("or_s(");
                l.write_to(s);
                s.append(",");
                r.write_to(s);
                s.append(")");
            },
            F::SwitchOrV(l, r) => {
                s.append("or_a(");
                l.write_to(s);
                s.append(",");
                r.write_to(s);
                s.append(")");
            },
        }
        proof {
            assert(s@ =~= s0 + self.display());
        }
    }

    /// The text form of this fragment.
    pub fn to_string(&self) -> (r: String)
        ensures
            r@ == self.display(),
    {
        let mut s = String::new();
        self.write_to(&mut s);
        proof {
            assert(s@ =~= self.display());
        }
        s
    }
}

impl<P: KeyText> V<P> {
    /// The text form of this fragment.
    pub open spec fn display(self) -> Seq<char>
        decreases self,
    {
        match self {
            V::CheckSig(p) => "pk("@ + p.key_str() + ")"@,
            V::CheckMultiSig(k, ps) => "multi("@ + dec(k as nat) + keys_text(ps@) + ")"@,
            V::Time(n) => "time("@ + dec(n as nat) + ")"@,
            V::HashEqual(h) => "hash("@ + hash_text(h) + ")"@,
            V::Threshold(k, e, subs) => "thres("@ + dec(k as nat) + ","@ + e.display() + ws_text(subs@) + ")"@,
            V::And(l, r) => "and_p("@ + l.display() + ","@ + r.display() + ")"@,
            V::CascadeOr(l, r) => "or_v("@ + l.display() + ","@ + r.display() + ")"@,
            V::SwitchOr(l, r) => "or_s("@ + l.display() + ","@ + r.display() + ")"@,
            V::SwitchOrT(l, r) => "or_a("@ + l.display() + ","@ + r.display() + ")"@,
        }
    }

    /// Appends the text form of this fragment.
    pub fn write_to(&self, s: &mut String)
        ensures
            final(s)@ == old(s)@ + self.display(),
        decreases self,
    {
        let ghost s0 = s@;
        match self {
            V::CheckSig(p) => {
                s.append("pk(");
                p.write_key(s);
                s.append(")");
            },
            V::CheckMultiSig(k, ps) => {
                s.append("multi(");
                push_dec(s, *k as u64);
                write_keys(s, ps);
                s.append(")");
            },
            V::Time(n) => {
                s.append("time(");
                push_dec(s, *n as u64);
                s.append(")");
            },
            V::HashEqual(h) => {
                s.append("hash(");
                push_hex_rev(s, h.bytes.as_slice());
                s.append(")");
            },
            V::Threshold(k, e, subs) => {
                s.append("thres(");
                push_dec(s, *k as u64);
                s.append(",");
                e.write_to(s);
                write_ws(s, subs);
                s.append(")");
            },
            V::And(l, r) => {
                s.append("and_p(");
                l.write_to(s);
                s.append(",");
                r.write_to(s);
                s.append(")");
            },
            V::CascadeOr(l, r) => {
                s.append("or_v(");
                l.write_to(s);
                s.append(",");
                r.write_to(s);
                s.append(")");
            },
            V::SwitchOr(l, r) => {
                s.append("or_s(");
                l.write_to(s);
                s.append(",");
                r.write_to(s);
                s.append(")");
            },
            V::SwitchOrT(l, r) => {
                s.append("or_a(");
                l.write_to(s);
                s.append(",");
                r.write_to(s);
                s.append(")");
            },
        }
        proof {
            assert(s@ =~= s0 + self.display());
        }
    }

    /// The text form of this fragment.
    pub fn to_string(&self) -> (r: String)
        ensures
            r@ == self.display(),
    {
        let mut s = String::new();
        self.write_to(&mut s);
        proof {
            assert(s@ =~= self.display());
        }
        s
    }
}

impl<P: KeyText> T<P> {
    /// The text form of this fragment.
    pub open spec fn display(self) -> Seq<char>
        decreases self,
    {
        match self {
            T::CastE(e) => e.display(),
            T::Time(n) => "time("@ + dec(n as nat) + ")"@,
            T::HashEqual(h) => "hash("@ + hash_text(h) + ")"@,
            T::And(l, r) => "and_p("@ + l.display() + ","@ + r.display() + ")"@,
            T::ParallelOr(l, r) => "or_p("@ + l.display() + ","@ + r.display() + ")"@,
            T::CascadeOr(l, r) => "or_c("@ + l.display() + ","@ + r.display() + ")"@,
            T::CascadeOrV(l, r) => "or_v("@ + l.display() + ","@ + r.display() + ")"@,
            T::SwitchOr(l, r) => "or_s("@ + l.display() + ","@ + r.display() + ")"@,
            T::SwitchOrV(l, r) => "or_a("@ + l.display() + ","@ + r.display() + ")"@,
        }
    }

    /// Appends the text form of this fragment.
    pub fn write_to(&self, s: &mut String)
        ensures
            final(s)@ == old(s)@ + self.display(),
        decreases self,
    {
        let ghost s0 = s@;
        match self {
            T::CastE(e) => {
                e.write_to(s);
            },
            T::Time(n) => {
                s.append("time(");
                push_dec(s, *n as u64);
                s.append(")");
            },
            T::HashEqual(h) => {
                s.append("hash(");
                push_hex_rev(s, h.bytes.as_slice());
                s.append(")");
            },
            T::And(l, r) => {
                s.append("and_p(");
                l.write_to(s);
                s.append(",");
                r.write_to(s);
                s.append(")");
            },
            T::ParallelOr(l, r) => {
                s.append("or_p(");
                l.write_to(s);
                s.append(",");
                r.write_to(s);
                s.append(")");
            },
            T::CascadeOr(l, r) => {
                s.append("or_c(");
                l.write_to(s);
                s.append(",");
                r.write_to(s);
                s.append(")");
            },
            T::CascadeOrV(l, r) => {
                s.append("or_v(");
                l.write_to(s);
                s.append(",");
                r.write_to(s);
                s.append(")");
            },
            T::SwitchOr(l, r) => {
                s.append("or_s(");
                l.write_to(s);
                s.append(",");
                r.write_to(s);
                s.append(")");
            },
            T::SwitchOrV(l, r) => {
                s.append("or_a(");
                l.write_to(s);
                s.append(",");
                r.write_to(s);
                s.append(")");
            },
        }
        proof {
            assert(s@ =~= s0 + self.display());
        }
    }

    /// The text form of this fragment.
    pub fn to_string(&self) -> (r: String)
        ensures
            r@ == self.display(),
    {
        let mut s = String::new();
        self.write_to(&mut s);
        proof {
            assert(s@ =~= self.display());
        }
        s
    }
}

} // verus!
