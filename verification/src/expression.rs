//! The descriptor language: fragments from their expression trees.

use std::rc::Rc;
use std::str::FromStr;
use vstd::prelude::*;
use vstd::string::{StrSliceExecFns, StringExecFns};
use crate::ast::{E, W, F, V, T, ws_same};
use crate::error::{Error, errstr};
use crate::keys::{PublicKey, Sha256dHash, key_from_str, hash_from_hex, hash_hex_error};
use crate::text::{dec, push_dec};

verus! {

/// An expression of the descriptor language: a name with arguments.
pub struct Tree {
    pub name: String,
    pub args: Vec<Tree>,
}

/// Every `multi` and `thres` in the tree has an argument (the threshold,
/// which is read before the arguments are counted).
pub open spec fn tree_ok(t: Tree) -> bool
    decreases t,
{
    &&& (t.name@ == "multi"@ || t.name@ == "thres"@) ==> t.args@.len() >= 1
    &&& trees_ok(t.args@)
}

/// Every tree in the list is `tree_ok`.
pub open spec fn trees_ok(ts: Seq<Tree>) -> bool
    decreases ts,
{
    if ts.len() == 0 {
        true
    } else {
        trees_ok(ts.subrange(0, ts.len() - 1)) && tree_ok(ts.last())
    }
}

/// Each tree of a list of `tree_ok` trees is `tree_ok`.
pub proof fn lemma_trees_ok_index(ts: Seq<Tree>, i: int)
    requires
        trees_ok(ts),
        0 <= i < ts.len(),
    ensures
        tree_ok(ts[i]),
    decreases ts.len(),
{
    if i < ts.len() - 1 {
        lemma_trees_ok_index(ts.subrange(0, ts.len() - 1), i);
    }
}

/// Whether every `multi` and `thres` in the tree has an argument: where it
/// does, `from_tree` can read the tree as any kind (see `e_ready`).
pub fn is_tree_ok(t: &Tree) -> (r: bool)
    ensures
        r == tree_ok(*t),
        r ==> e_ready(*t) && w_ready(*t) && f_ready(*t) && v_ready(*t) && t_ready(*t),
    decreases *t,
{
    proof {
        if tree_ok(*t) {
            lemma_tree_ok_ready(*t);
        }
    }
    if (name_is(t, "multi") || name_is(t, "thres")) && t.args.len() == 0 {
        return false;
    }
    let mut i: usize = 0;
    while i < t.args.len()
        invariant
            i <= t.args@.len(),
            trees_ok(t.args@.subrange(0, i as int)),
        decreases t.args.len() - i,
    {
        if !is_tree_ok(&t.args[i]) {
            proof {
                if trees_ok(t.args@) {
                    lemma_trees_ok_index(t.args@, i as int);
                }
            }
            return false;
        }
        proof {
            let p = t.args@.subrange(0, i + 1);
            assert(p.subrange(0, p.len() - 1) =~= t.args@.subrange(0, i as int));
            assert(p.last() == t.args@[i as int]);
        }
        i = i + 1;
    }
    proof {
        assert(t.args@.subrange(0, t.args@.len() as int) =~= t.args@);
    }
    true
}

/// The names of the descriptor language, character by character.
pub proof fn lemma_names()
    ensures
        "pk"@ == seq!['p', 'k'],
        "multi"@ == seq!['m', 'u', 'l', 't', 'i'],
        "time"@ == seq!['t', 'i', 'm', 'e'],
        "thres"@ == seq!['t', 'h', 'r', 'e', 's'],
        "hash"@ == seq!['h', 'a', 's', 'h'],
        "and_p"@ == seq!['a', 'n', 'd', '_', 'p'],
        "and_c"@ == seq!['a', 'n', 'd', '_', 'c'],
        "or_p"@ == seq!['o', 'r', '_', 'p'],
        "or_c"@ == seq!['o', 'r', '_', 'c'],
        "or_s"@ == seq!['o', 'r', '_', 's'],
        "or_a"@ == seq!['o', 'r', '_', 'a'],
        "or_v"@ == seq!['o', 'r', '_', 'v'],
        "lift_l"@ == seq!['l', 'i', 'f', 't', '_', 'l'],
        "lift_u"@ == seq!['l', 'i', 'f', 't', '_', 'u'],
{
    reveal_strlit("pk");
    reveal_strlit("multi");
    reveal_strlit("time");
    reveal_strlit("thres");
    reveal_strlit("hash");
    reveal_strlit("and_p");
    reveal_strlit("and_c");
    reveal_strlit("or_p");
    reveal_strlit("or_c");
    reveal_strlit("or_s");
    reveal_strlit("or_a");
    reveal_strlit("or_v");
    reveal_strlit("lift_l");
    reveal_strlit("lift_u");
}

/// A decimal digit.
pub open spec fn is_digit(c: char) -> bool {
    '0' <= c && c <= '9'
}

/// The value of a string of decimal digits.
pub open spec fn dec_value(s: Seq<char>) -> nat
    decreases s.len(),
{
    if s.len() == 0 {
        0
    } else {
        dec_value(s.drop_last()) * 10 + (s.last() as nat - '0' as nat) as nat
    }
}

/// The number that a text names: an optional `+`, then decimal digits, of
/// at most `u32::MAX`.
pub open spec fn parse_u32(s: Seq<char>) -> Option<u32> {
    let d = if s.len() > 0 && s[0] == '+' { s.subrange(1, s.len() as int) } else { s };
    if d.len() > 0 && (forall|i: int| 0 <= i < d.len() ==> #[trigger] is_digit(d[i])) && dec_value(d) <= u32::MAX {
        Some(dec_value(d) as u32)
    } else {
        None
    }
}

/// `<u32 as FromStr>::from_str`: an optional `+` then decimal digits, as its
/// documentation says; the error is dropped.
#[verifier::external_body]
fn u32_from_str(s: &str) -> (r: Option<u32>)
    ensures
        r == parse_u32(s@),
{
    u32::from_str(s).ok()
}

/// The number that a text names, or an error that quotes it.
pub fn parse_num(s: &str) -> (r: Result<u32, Error>)
    ensures
        match r {
            Ok(n) => parse_u32(s@) == Some(n),
            Err(e) => parse_u32(s@) is None && (e matches Error::Unexpected(m) && m@ == s@),
        },
{
    match u32_from_str(s) {
        Some(n) => Ok(n),
        None => Err(errstr(s)),
    }
}

/// Whether the tree's name is `lit`.
fn name_is(t: &Tree, lit: &str) -> (r: bool)
    ensures
        r == (t.name@ == lit@),
{
    let a = t.name.as_str();
    let n = a.unicode_len();
    let m = lit.unicode_len();
    if n != m {
        return false;
    }
    let mut i: usize = 0;
    while i < n
        invariant
            i <= n,
            n == a@.len(),
            m == lit@.len(),
            n == m,
            a@ == t.name@,
            forall|j: int| 0 <= j < i ==> a@[j] == lit@[j],
        decreases n - i,
    {
        if a.get_char(i) != lit.get_char(i) {
            return false;
        }
        i = i + 1;
    }
    proof {
        assert(a@ =~= lit@);
    }
    true
}

/// The tree is `name` with `n` arguments.
pub open spec fn named(t: Tree, name: Seq<char>, n: nat) -> bool {
    t.name@ == name && t.args@.len() == n
}

/// The tree is a bare number `n`.
pub open spec fn num_leaf(t: Tree, n: int) -> bool {
    t.args@.len() == 0 && 0 <= n <= u32::MAX && parse_u32(t.name@) == Some(n as u32)
}

/// The tree is a bare key `p`.
pub open spec fn key_leaf(t: Tree, p: PublicKey) -> bool {
    t.args@.len() == 0 && key_from_str(t.name@) == Some(p.bytes@)
}

/// The tree is a bare hash `h`.
pub open spec fn hash_leaf(t: Tree, h: Sha256dHash) -> bool {
    t.args@.len() == 0 && hash_from_hex(t.name@) == Some(h.bytes@)
}

/// The trees are bare keys, the keys `pks` in order.
pub open spec fn keys_denoted(ts: Seq<Tree>, pks: Seq<PublicKey>) -> bool {
    ts.len() == pks.len() && forall|i: int| 0 <= i < ts.len() ==> #[trigger] key_leaf(ts[i], pks[i])
}

/// The trees name the wrapped parts `ws` in order.
pub open spec fn ws_denoted(ws: Seq<Rc<W<PublicKey>>>, ts: Seq<Tree>) -> bool
    decreases ws,
{
    if ws.len() == 0 {
        ts.len() == 0
    } else {
        &&& ts.len() == ws.len()
        &&& ws_denoted(ws.subrange(0, ws.len() - 1), ts.subrange(0, ts.len() - 1))
        &&& ws.last().denoted_by(ts.last())
    }
}

/// Each wrapped part is named by the tree at its place.
pub proof fn lemma_ws_denoted_index(ws: Seq<Rc<W<PublicKey>>>, ts: Seq<Tree>, i: int)
    requires
        ws_denoted(ws, ts),
        0 <= i < ws.len(),
    ensures
        ts.len() == ws.len(),
        ws[i].denoted_by(ts[i]),
    decreases ws.len(),
{
    if i < ws.len() - 1 {
        lemma_ws_denoted_index(ws.subrange(0, ws.len() - 1), ts.subrange(0, ts.len() - 1), i);
    }
}

/// No wrapped part is named by the tree.
pub open spec fn names_no_w(t: Tree) -> bool {
    forall|w: W<PublicKey>| !#[trigger] w.denoted_by(t)
}

/// The forms that name a `W` of its own (any other names an `E`).
pub open spec fn w_named(t: Tree) -> bool {
    named(t, "pk"@, 1) || named(t, "time"@, 1) || named(t, "hash"@, 1)
}

/// The forms that name a `T` of its own (any other names an `E`).
pub open spec fn t_named(t: Tree) -> bool {
    ||| named(t, "time"@, 1)
    ||| named(t, "hash"@, 1)
    ||| named(t, "and_p"@, 2)
    ||| named(t, "or_p"@, 2)
    ||| named(t, "or_c"@, 2)
    ||| named(t, "or_v"@, 2)
    ||| named(t, "or_s"@, 2)
    ||| named(t, "or_a"@, 2)
}

/// The forms that name an `E`.
pub open spec fn e_form(t: Tree) -> bool {
    ||| named(t, "pk"@, 1)
    ||| t.name@ == "multi"@
    ||| named(t, "time"@, 1)
    ||| t.name@ == "thres"@
    ||| named(t, "and_p"@, 2)
    ||| named(t, "and_c"@, 2)
    ||| named(t, "or_p"@, 2)
    ||| named(t, "or_c"@, 2)
    ||| named(t, "or_s"@, 2)
    ||| named(t, "or_a"@, 2)
    ||| named(t, "lift_l"@, 1)
    ||| named(t, "lift_u"@, 1)
}

/// The forms that name an `F` or a `V`.
pub open spec fn fv_form(t: Tree) -> bool {
    ||| named(t, "pk"@, 1)
    ||| t.name@ == "multi"@
    ||| named(t, "time"@, 1)
    ||| named(t, "hash"@, 1)
    ||| t.name@ == "thres"@
    ||| named(t, "and_p"@, 2)
    ||| named(t, "or_v"@, 2)
    ||| named(t, "or_s"@, 2)
    ||| named(t, "or_a"@, 2)
}

/// The number that a bare tree names, if it is one.
pub open spec fn num_arg(t: Tree) -> Option<u32> {
    if t.args@.len() == 0 {
        parse_u32(t.name@)
    } else {
        None
    }
}

/// The text of the error for which a `multi` or a `thres` is refused on its
/// threshold, if it is: the first argument, where it names no number; the
/// threshold, where it is higher than the number of arguments after it; a
/// `thres` with no argument after the threshold.
pub open spec fn threshold_error(t: Tree) -> Option<Seq<char>> {
    match num_arg(t.args@[0]) {
        None => Some(t.args@[0].name@),
        Some(k) => if k > t.args@.len() - 1 {
            Some("higher threshold than there were keys in multi"@)
        } else if t.name@ == "thres"@ && t.args@.len() == 1 {
            Some("empty multisigs not allowed in descriptors"@)
        } else {
            None
        },
    }
}

/// An `Unexpected` error whose text is `m`.
pub open spec fn refused_with<X>(r: Result<X, Error>, m: Seq<char>) -> bool {
    r matches Err(Error::Unexpected(s)) && s@ == m
}

/// A bare key.
fn key_terminal(t: &Tree) -> (r: Result<PublicKey, Error>)
    ensures
        r matches Ok(p) ==> key_leaf(*t, p),
        r is Err ==> !(t.args@.len() == 0 && key_from_str(t.name@) is Some) && refused_with(r, key_refusal(*t)),
{
    if t.args.len() == 0 {
        match PublicKey::from_str(t.name.as_str()) {
            Ok(p) => Ok(p),
            Err(e) => Err(Error::Unexpected(e)),
        }
    } else {
        Err(errstr(t.name.as_str()))
    }
}

/// The text of the error for a tree that names no key: the key parser's
/// where the tree is bare, else the tree's name.
pub open spec fn key_refusal(t: Tree) -> Seq<char> {
    if t.args@.len() == 0 {
        "malformed public key"@
    } else {
        t.name@
    }
}

/// A tree `pk(..)` whose argument names no key.
pub open spec fn bad_pk(t: Tree) -> bool {
    named(t, "pk"@, 1) && !(t.args@[0].args@.len() == 0 && key_from_str(t.args@[0].name@) is Some)
}

/// A bare number.
fn num_terminal(t: &Tree) -> (r: Result<u32, Error>)
    ensures
        r matches Ok(n) ==> num_leaf(*t, n as int),
        r is Err ==> !(t.args@.len() == 0 && parse_u32(t.name@) is Some) && refused_with(r, t.name@),
{
    if t.args.len() == 0 {
        parse_num(t.name.as_str())
    } else {
        Err(errstr(t.name.as_str()))
    }
}

/// A bare hash.
fn hash_terminal(t: &Tree) -> (r: Result<Sha256dHash, Error>)
    ensures
        r matches Ok(h) ==> hash_leaf(*t, h),
        r is Err ==> !(t.args@.len() == 0 && hash_from_hex(t.name@) is Some) && refused_with(r, hash_refusal(*t)),
{
    if t.args.len() == 0 {
        match Sha256dHash::from_hex(t.name.as_str()) {
            Ok(h) => Ok(h),
            Err(e) => Err(Error::Unexpected(e)),
        }
    } else {
        Err(errstr(t.name.as_str()))
    }
}

/// Each argument after the first of a tree whose keys are denoted is a
/// bare key.
proof fn lemma_keys_denoted_all(args: Seq<Tree>, pks: Seq<PublicKey>)
    requires
        args.len() >= 1,
        keys_denoted(args.subrange(1, args.len() as int), pks),
    ensures
        forall|j: int| #![trigger args[j]] 1 <= j < args.len() ==> args[j].args@.len() == 0 && key_from_str(args[j].name@) is Some,
{
    let ts = args.subrange(1, args.len() as int);
    assert forall|j: int| #![trigger args[j]] 1 <= j < args.len() implies args[j].args@.len() == 0 && key_from_str(args[j].name@) is Some by {
        assert(ts[j - 1] == args[j]);
        assert(key_leaf(ts[j - 1], pks[j - 1]));
    }
}

/// The keys that the arguments after the first name, in order.
fn keys_from_trees(args: &Vec<Tree>) -> (r: Result<Vec<PublicKey>, Error>)
    requires
        args@.len() >= 1,
    ensures
        r matches Ok(pks) ==> keys_denoted(args@.subrange(1, args@.len() as int), pks@),
        r is Err ==> exists|j: int| 1 <= j < args@.len() && !(#[trigger] args@[j].args@.len() == 0 && key_from_str(
            args@[j].name@,
        ) is Some),
        r is Err ==> refused_with(r, keys_refusal(args@, 1)),
{
    let mut pks: Vec<PublicKey> = Vec::new();
    let mut i: usize = 1;
    while i < args.len()
        invariant
            1 <= i <= args@.len(),
            pks@.len() == i - 1,
            forall|j: int| 0 <= j < i - 1 ==> #[trigger] key_leaf(args@[j + 1], pks@[j]),
            keys_refusal(args@, 1) == keys_refusal(args@, i as int),
        decreases args.len() - i,
    {
        let p = match key_terminal(&args[i]) {
            Ok(p) => p,
            Err(e) => {
                assert(!(args@[i as int].args@.len() == 0 && key_from_str(args@[i as int].name@) is Some));
                return Err(e);
            },
        };
        pks.push(p);
        i = i + 1;
    }
    proof {
        let ts = args@.subrange(1, args@.len() as int);
        assert forall|j: int| 0 <= j < ts.len() implies #[trigger] key_leaf(ts[j], pks@[j]) by {
            assert(ts[j] == args@[j + 1]);
        }
    }
    Ok(pks)
}

/// The wrapped parts that the arguments after the first two name, in order.
fn ws_from_trees(args: &Vec<Tree>) -> (r: Result<Vec<Rc<W<PublicKey>>>, Error>)
    requires
        args@.len() >= 2,
        ws_ready(args@, 2),
    ensures
        r matches Ok(ws) ==> ws_denoted(ws@, args@.subrange(2, args@.len() as int)),
        r is Err ==> exists|j: int| 2 <= j < args@.len() && #[trigger] names_no_w(args@[j]),
        r is Err ==> refused_with(r, ws_refusal(args@, 2)),
    decreases args@, 0nat,
{
    let mut ws: Vec<Rc<W<PublicKey>>> = Vec::new();
    let mut i: usize = 2;
    while i < args.len()
        invariant
            2 <= i <= args@.len(),
            ws_ready(args@, i as int),
            ws_denoted(ws@, args@.subrange(2, i as int)),
            ws_refusal(args@, 2) == ws_refusal(args@, i as int),
        decreases args.len() - i,
    {
        let w = match w_from_tree(&args[i]) {
            Ok(w) => w,
            Err(e) => {
                assert(names_no_w(args@[i as int]));
                return Err(e);
            },
        };
        let ghost prev = ws@;
        ws.push(Rc::new(w));
        proof {
            let ts = args@.subrange(2, i + 1);
            assert(ts.subrange(0, ts.len() - 1) =~= args@.subrange(2, i as int));
            assert(ws@.subrange(0, ws@.len() - 1) =~= prev);
        }
        i = i + 1;
    }
    Ok(ws)
}

/// The text of an expression that names no fragment of the kind sought.
pub open spec fn unknown_text(t: Tree, kind: Seq<char>) -> Seq<char> {
    t.name@ + "("@ + dec(t.args@.len()) + " args) while parsing "@ + kind
}

/// The error for a form unknown as `kind`.
fn unknown(top: &Tree, kind: &str) -> (r: Error)
    ensures
        r matches Error::Unexpected(s) && s@ == unknown_text(*top, kind@),
{
    let mut s = String::new();
    s.append(top.name.as_str());
    s.append("(");
    push_dec(&mut s, top.args.len() as u64);
    s.append(" args) while parsing ");
    s.append(kind);
    Error::Unexpected(s)
}

/// Some fragment of kind `E` is named by the tree.
pub open spec fn reads_e(t: Tree) -> bool {
    exists|y: E<PublicKey>| #[trigger] y.denoted_by(t)
}

/// Some fragment of kind `W` is named by the tree.
pub open spec fn reads_w(t: Tree) -> bool {
    exists|y: W<PublicKey>| #[trigger] y.denoted_by(t)
}

/// Some fragment of kind `F` is named by the tree.
pub open spec fn reads_f(t: Tree) -> bool {
    exists|y: F<PublicKey>| #[trigger] y.denoted_by(t)
}

/// Some fragment of kind `V` is named by the tree.
pub open spec fn reads_v(t: Tree) -> bool {
    exists|y: V<PublicKey>| #[trigger] y.denoted_by(t)
}

/// Some fragment of kind `T` is named by the tree.
pub open spec fn reads_t(t: Tree) -> bool {
    exists|y: T<PublicKey>| #[trigger] y.denoted_by(t)
}

/// The text of the error for a tree that names no hash: the hash parser's
/// where the tree is bare, else the tree's name.
pub open spec fn hash_refusal(t: Tree) -> Seq<char> {
    if t.args@.len() == 0 {
        hash_hex_error(t.name@)
    } else {
        t.name@
    }
}

/// The refusal of the first tree, from the `i`-th on, that names no key.
pub open spec fn keys_refusal(ts: Seq<Tree>, i: int) -> Seq<char>
    decreases ts.len() - i,
{
    if 0 <= i < ts.len() {
        if ts[i].args@.len() == 0 && key_from_str(ts[i].name@) is Some {
            keys_refusal(ts, i + 1)
        } else {
            key_refusal(ts[i])
        }
    } else {
        Seq::empty()
    }
}

/// The refusal of a `multi`: its threshold's, else its first bad key's.
pub open spec fn multi_refusal(t: Tree) -> Seq<char> {
    match num_arg(t.args@[0]) {
        None => t.args@[0].name@,
        Some(k) => if k > t.args@.len() - 1 {
            "higher threshold than there were keys in multi"@
        } else {
            keys_refusal(t.args@, 1)
        },
    }
}

/// The refusal of a `thres`: its threshold's, else `parts`, the refusal of
/// its first part that names no fragment of its kind.
pub open spec fn thres_refusal(t: Tree, parts: Seq<char>) -> Seq<char> {
    match num_arg(t.args@[0]) {
        None => t.args@[0].name@,
        Some(k) => if k > t.args@.len() - 1 {
            "higher threshold than there were keys in multi"@
        } else if t.args@.len() == 1 {
            "empty multisigs not allowed in descriptors"@
        } else {
            parts
        },
    }
}

/// The refusal of the first part of a threshold, from the `i`-th on, that
/// names no wrapped fragment.
pub open spec fn ws_refusal(ts: Seq<Tree>, i: int) -> Seq<char>
    decreases ts, ts.len() - i,
{
    if 0 <= i < ts.len() {
        if reads_w(ts[i]) {
            ws_refusal(ts, i + 1)
        } else {
            w_refusal(ts[i])
        }
    } else {
        Seq::empty()
    }
}

/// The refusal of the parts of a threshold: its first part as an `E`,
/// then the others as `W`s.
pub open spec fn parts_refusal(t: Tree) -> Seq<char>
    decreases t, 0int,
{
    if t.args@.len() >= 2 {
        if reads_e(t.args@[1]) {
            ws_refusal(t.args@, 2)
        } else {
            e_refusal(t.args@[1])
        }
    } else {
        Seq::empty()
    }
}

/// The refusal of a tree read as a pair: the first part's, where it names
/// none of its kind, else the second part's.
pub open spec fn pair_refusal(first_reads: bool, first: Seq<char>, second: Seq<char>) -> Seq<char> {
    if first_reads {
        second
    } else {
        first
    }
}

/// The text of the error for which reading the tree as an `E` fails.
pub open spec fn e_refusal(t: Tree) -> Seq<char>
    decreases t, 1int,
{
    let a = t.args@;
    if named(t, "pk"@, 1) {
        key_refusal(a[0])
    } else if t.name@ == "multi"@ {
        multi_refusal(t)
    } else if named(t, "time"@, 1) {
        a[0].name@
    } else if t.name@ == "thres"@ {
        thres_refusal(t, parts_refusal(t))
    } else if named(t, "and_p"@, 2) {
        pair_refusal(reads_e(a[0]), e_refusal(a[0]), w_refusal(a[1]))
    } else if named(t, "and_c"@, 2) {
        pair_refusal(reads_e(a[0]), e_refusal(a[0]), f_refusal(a[1]))
    } else if named(t, "or_p"@, 2) {
        pair_refusal(reads_e(a[0]), e_refusal(a[0]), w_refusal(a[1]))
    } else if named(t, "or_c"@, 2) {
        pair_refusal(reads_e(a[0]), e_refusal(a[0]), e_refusal(a[1]))
    } else if named(t, "or_s"@, 2) {
        pair_refusal(reads_e(a[0]), e_refusal(a[0]), f_refusal(a[1]))
    } else if named(t, "or_a"@, 2) {
        pair_refusal(reads_e(a[0]), e_refusal(a[0]), f_refusal(a[1]))
    } else if named(t, "lift_l"@, 1) {
        f_refusal(a[0])
    } else if named(t, "lift_u"@, 1) {
        f_refusal(a[0])
    } else {
        unknown_text(t, "E"@)
    }
}

/// The text of the error for which reading the tree as a `W` fails.
pub open spec fn w_refusal(t: Tree) -> Seq<char>
    decreases t, 2int,
{
    let a = t.args@;
    if named(t, "pk"@, 1) {
        key_refusal(a[0])
    } else if named(t, "time"@, 1) {
        a[0].name@
    } else if named(t, "hash"@, 1) {
        hash_refusal(a[0])
    } else {
        e_refusal(t)
    }
}

/// The text of the error for which reading the tree as an `F` fails.
pub open spec fn f_refusal(t: Tree) -> Seq<char>
    decreases t, 1int,
{
    let a = t.args@;
    if named(t, "pk"@, 1) {
        key_refusal(a[0])
    } else if t.name@ == "multi"@ {
        multi_refusal(t)
    } else if named(t, "time"@, 1) {
        a[0].name@
    } else if named(t, "hash"@, 1) {
        hash_refusal(a[0])
    } else if t.name@ == "thres"@ {
        thres_refusal(t, parts_refusal(t))
    } else if named(t, "and_p"@, 2) {
        pair_refusal(reads_v(a[0]), v_refusal(a[0]), f_refusal(a[1]))
    } else if named(t, "or_v"@, 2) {
        pair_refusal(reads_e(a[0]), e_refusal(a[0]), v_refusal(a[1]))
    } else if named(t, "or_s"@, 2) {
        pair_refusal(reads_f(a[0]), f_refusal(a[0]), f_refusal(a[1]))
    } else if named(t, "or_a"@, 2) {
        pair_refusal(reads_v(a[0]), v_refusal(a[0]), v_refusal(a[1]))
    } else {
        unknown_text(t, "F"@)
    }
}

/// The text of the error for which reading the tree as a `V` fails.
pub open spec fn v_refusal(t: Tree) -> Seq<char>
    decreases t, 1int,
{
    let a = t.args@;
    if named(t, "pk"@, 1) {
        key_refusal(a[0])
    } else if t.name@ == "multi"@ {
        multi_refusal(t)
    } else if named(t, "time"@, 1) {
        a[0].name@
    } else if named(t, "hash"@, 1) {
        hash_refusal(a[0])
    } else if t.name@ == "thres"@ {
        thres_refusal(t, parts_refusal(t))
    } else if named(t, "and_p"@, 2) {
        pair_refusal(reads_v(a[0]), v_refusal(a[0]), v_refusal(a[1]))
    } else if named(t, "or_v"@, 2) {
        pair_refusal(reads_e(a[0]), e_refusal(a[0]), v_refusal(a[1]))
    } else if named(t, "or_s"@, 2) {
        pair_refusal(reads_v(a[0]), v_refusal(a[0]), v_refusal(a[1]))
    } else if named(t, "or_a"@, 2) {
        pair_refusal(reads_t(a[0]), t_refusal(a[0]), t_refusal(a[1]))
    } else {
        unknown_text(t, "V"@)
    }
}

/// The text of the error for which reading the tree as a `T` fails: a form
/// that names no `T` of its own is read as an `E`, and refused as one.
pub open spec fn t_refusal(t: Tree) -> Seq<char>
    decreases t, 2int,
{
    let a = t.args@;
    if named(t, "time"@, 1) {
        a[0].name@
    } else if named(t, "hash"@, 1) {
        hash_refusal(a[0])
    } else if named(t, "and_p"@, 2) {
        pair_refusal(reads_v(a[0]), v_refusal(a[0]), t_refusal(a[1]))
    } else if named(t, "or_p"@, 2) {
        pair_refusal(reads_e(a[0]), e_refusal(a[0]), w_refusal(a[1]))
    } else if named(t, "or_c"@, 2) {
        pair_refusal(reads_e(a[0]), e_refusal(a[0]), t_refusal(a[1]))
    } else if named(t, "or_v"@, 2) {
        pair_refusal(reads_e(a[0]), e_refusal(a[0]), v_refusal(a[1]))
    } else if named(t, "or_s"@, 2) {
        pair_refusal(reads_t(a[0]), t_refusal(a[0]), t_refusal(a[1]))
    } else if named(t, "or_a"@, 2) {
        pair_refusal(reads_v(a[0]), v_refusal(a[0]), v_refusal(a[1]))
    } else {
        e_refusal(t)
    }
}

/// Reading a `thres` reaches its parts once its threshold is taken: its
/// first part as an `E`, then, while each part before names a fragment, the
/// others as `W`s.
pub open spec fn parts_ready(t: Tree) -> bool
    decreases t, 0int,
{
    threshold_error(t) is None && t.args@.len() >= 2 ==> e_ready(t.args@[1]) && (reads_e(t.args@[1]) ==> ws_ready(
        t.args@,
        2,
    ))
}

/// Reading the parts of a threshold as `W`s, from the `i`-th on, reaches
/// only trees that can be read: each is, up to the first that names no `W`.
pub open spec fn ws_ready(ts: Seq<Tree>, i: int) -> bool
    decreases ts, ts.len() - i,
{
    if 0 <= i < ts.len() {
        w_ready(ts[i]) && (reads_w(ts[i]) ==> ws_ready(ts, i + 1))
    } else {
        true
    }
}

/// Reading a tree as a pair reaches the second part only where the first
/// names a fragment of its kind.
pub open spec fn pair_ready(first: bool, first_reads: bool, second: bool) -> bool {
    first && (first_reads ==> second)
}

/// Reading the tree as an `E` reaches no `multi` or `thres` without an
/// argument, whose threshold it would take: the reader stops at the first
/// part that names nothing of its kind.
pub open spec fn e_ready(t: Tree) -> bool
    decreases t, 1int,
{
    let a = t.args@;
    if named(t, "pk"@, 1) {
        true
    } else if t.name@ == "multi"@ {
        a.len() >= 1
    } else if named(t, "time"@, 1) {
        true
    } else if t.name@ == "thres"@ {
        a.len() >= 1 && parts_ready(t)
    } else if named(t, "and_p"@, 2) || named(t, "or_p"@, 2) {
        pair_ready(e_ready(a[0]), reads_e(a[0]), w_ready(a[1]))
    } else if named(t, "and_c"@, 2) || named(t, "or_s"@, 2) || named(t, "or_a"@, 2) {
        pair_ready(e_ready(a[0]), reads_e(a[0]), f_ready(a[1]))
    } else if named(t, "or_c"@, 2) {
        pair_ready(e_ready(a[0]), reads_e(a[0]), e_ready(a[1]))
    } else if named(t, "lift_l"@, 1) || named(t, "lift_u"@, 1) {
        f_ready(a[0])
    } else {
        true
    }
}

/// Reading the tree as a `W` reaches no `multi` or `thres` without an
/// argument.
pub open spec fn w_ready(t: Tree) -> bool
    decreases t, 2int,
{
    if named(t, "pk"@, 1) || named(t, "time"@, 1) || named(t, "hash"@, 1) {
        true
    } else {
        e_ready(t)
    }
}

/// Reading the tree as an `F` reaches no `multi` or `thres` without an
/// argument.
pub open spec fn f_ready(t: Tree) -> bool
    decreases t, 1int,
{
    let a = t.args@;
    if named(t, "pk"@, 1) {
        true
    } else if t.name@ == "multi"@ {
        a.len() >= 1
    } else if named(t, "time"@, 1) || named(t, "hash"@, 1) {
        true
    } else if t.name@ == "thres"@ {
        a.len() >= 1 && parts_ready(t)
    } else if named(t, "and_p"@, 2) {
        pair_ready(v_ready(a[0]), reads_v(a[0]), f_ready(a[1]))
    } else if named(t, "or_v"@, 2) {
        pair_ready(e_ready(a[0]), reads_e(a[0]), v_ready(a[1]))
    } else if named(t, "or_s"@, 2) {
        pair_ready(f_ready(a[0]), reads_f(a[0]), f_ready(a[1]))
    } else if named(t, "or_a"@, 2) {
        pair_ready(v_ready(a[0]), reads_v(a[0]), v_ready(a[1]))
    } else {
        true
    }
}

/// Reading the tree as a `V` reaches no `multi` or `thres` without an
/// argument.
pub open spec fn v_ready(t: Tree) -> bool
    decreases t, 1int,
{
    let a = t.args@;
    if named(t, "pk"@, 1) {
        true
    } else if t.name@ == "multi"@ {
        a.len() >= 1
    } else if named(t, "time"@, 1) || named(t, "hash"@, 1) {
        true
    } else if t.name@ == "thres"@ {
        a.len() >= 1 && parts_ready(t)
    } else if named(t, "and_p"@, 2) || named(t, "or_s"@, 2) {
        pair_ready(v_ready(a[0]), reads_v(a[0]), v_ready(a[1]))
    } else if named(t, "or_v"@, 2) {
        pair_ready(e_ready(a[0]), reads_e(a[0]), v_ready(a[1]))
    } else if named(t, "or_a"@, 2) {
        pair_ready(t_ready(a[0]), reads_t(a[0]), t_ready(a[1]))
    } else {
        true
    }
}

/// Reading the tree as a `T` reaches no `multi` or `thres` without an
/// argument.
pub open spec fn t_ready(t: Tree) -> bool
    decreases t, 2int,
{
    let a = t.args@;
    if named(t, "time"@, 1) || named(t, "hash"@, 1) {
        true
    } else if named(t, "and_p"@, 2) {
        pair_ready(v_ready(a[0]), reads_v(a[0]), t_ready(a[1]))
    } else if named(t, "or_p"@, 2) {
        pair_ready(e_ready(a[0]), reads_e(a[0]), w_ready(a[1]))
    } else if named(t, "or_c"@, 2) {
        pair_ready(e_ready(a[0]), reads_e(a[0]), t_ready(a[1]))
    } else if named(t, "or_v"@, 2) {
        pair_ready(e_ready(a[0]), reads_e(a[0]), v_ready(a[1]))
    } else if named(t, "or_s"@, 2) {
        pair_ready(t_ready(a[0]), reads_t(a[0]), t_ready(a[1]))
    } else if named(t, "or_a"@, 2) {
        pair_ready(v_ready(a[0]), reads_v(a[0]), v_ready(a[1]))
    } else {
        e_ready(t)
    }
}

/// A tree in which every `multi` and `thres` has an argument can be read as
/// any kind.
pub proof fn lemma_tree_ok_ready(t: Tree)
    requires
        tree_ok(t),
    ensures
        e_ready(t),
        w_ready(t),
        f_ready(t),
        v_ready(t),
        t_ready(t),
    decreases t, 0int,
{
    lemma_names();
    let a = t.args@;
    if a.len() > 0 {
        lemma_trees_ok_index(a, 0);
        lemma_tree_ok_ready(a[0]);
    }
    if a.len() > 1 {
        lemma_trees_ok_index(a, 1);
        lemma_tree_ok_ready(a[1]);
        lemma_trees_ok_ready(a, 2);
    }
    assert(parts_ready(t));
    assert(e_ready(t));
}

/// The parts of a threshold, each with an argument for every `multi` and
/// `thres` in it, can be read from the `i`-th on.
proof fn lemma_trees_ok_ready(ts: Seq<Tree>, i: int)
    requires
        trees_ok(ts),
        0 <= i,
    ensures
        ws_ready(ts, i),
    decreases ts, ts.len() - i,
{
    if i < ts.len() {
        lemma_trees_ok_index(ts, i);
        lemma_tree_ok_ready(ts[i]);
        lemma_trees_ok_ready(ts, i + 1);
    }
}

impl E<PublicKey> {
    /// The tree names this fragment.
    pub open spec fn denoted_by(self, t: Tree) -> bool
        decreases self,
    {
        match self {
            E::CheckSig(p) => named(t, "pk"@, 1) && key_leaf(t.args@[0], p),
            E::CheckMultiSig(k, pks) => {
                &&& t.name@ == "multi"@
                &&& t.args@.len() == pks@.len() + 1
                &&& num_leaf(t.args@[0], k as int)
                &&& k <= pks@.len()
                &&& keys_denoted(t.args@.subrange(1, t.args@.len() as int), pks@)
            },
            E::Time(n) => named(t, "time"@, 1) && num_leaf(t.args@[0], n as int),
            E::Threshold(k, e, ws) => {
                &&& t.name@ == "thres"@
                &&& t.args@.len() == ws@.len() + 2
                &&& num_leaf(t.args@[0], k as int)
                &&& k <= ws@.len() + 1
                &&& e.denoted_by(t.args@[1])
                &&& ws_denoted(ws@, t.args@.subrange(2, t.args@.len() as int))
            },
            E::ParallelAnd(l, r) => named(t, "and_p"@, 2) && l.denoted_by(t.args@[0]) && r.denoted_by(t.args@[1]),
            E::CascadeAnd(l, r) => named(t, "and_c"@, 2) && l.denoted_by(t.args@[0]) && r.denoted_by(t.args@[1]),
            E::ParallelOr(l, r) => named(t, "or_p"@, 2) && l.denoted_by(t.args@[0]) && r.denoted_by(t.args@[1]),
            E::CascadeOr(l, r) => named(t, "or_c"@, 2) && l.denoted_by(t.args@[0]) && r.denoted_by(t.args@[1]),
            E::SwitchOrLeft(l, r) => named(t, "or_s"@, 2) && l.denoted_by(t.args@[0]) && r.denoted_by(t.args@[1]),
            E::SwitchOrRight(l, r) => named(t, "or_a"@, 2) && l.denoted_by(t.args@[0]) && r.denoted_by(t.args@[1]),
            E::Likely(x) => named(t, "lift_l"@, 1) && x.denoted_by(t.args@[0]),
            E::Unlikely(x) => named(t, "lift_u"@, 1) && x.denoted_by(t.args@[0]),
        }
    }

    /// The fragment that an expression tree names, where it names one; else
    /// the error of the first part, read left to right, that names nothing
    /// of the kind sought there.
    pub fn from_tree(top: &Tree) -> (r: Result<Rc<E<PublicKey>>, Error>)
        requires
            e_ready(*top),
        ensures
            r matches Ok(x) ==> (*x).denoted_by(*top),
            forall|y: Self| #[trigger] y.denoted_by(*top) ==> (r matches Ok(x) && (*x).same(y)),
            r is Err ==> refused_with(r, e_refusal(*top)),
            (top.name@ == "multi"@ || top.name@ == "thres"@) && threshold_error(*top) is Some ==> refused_with(
                r,
                threshold_error(*top).unwrap(),
            ),
            !e_form(*top) ==> refused_with(r, unknown_text(*top, "E"@)),
            bad_pk(*top) ==> refused_with(r, key_refusal(top.args@[0])),
    {
        match e_from_tree(top) {
            Ok(x) => {
                proof {
                    assert forall|y: Self| #[trigger] y.denoted_by(*top) implies x.same(y) by {
                        x.lemma_denoted_once(&y, *top);
                    }
                }
                Ok(Rc::new(x))
            },
            Err(e) => Err(e),
        }
    }
}

impl W<PublicKey> {
    /// The tree names this fragment.
    pub open spec fn denoted_by(self, t: Tree) -> bool
        decreases self,
    {
        match self {
            W::CheckSig(p) => named(t, "pk"@, 1) && key_leaf(t.args@[0], p),
            W::Time(n) => named(t, "time"@, 1) && num_leaf(t.args@[0], n as int),
            W::HashEqual(h) => named(t, "hash"@, 1) && hash_leaf(t.args@[0], h),
            W::CastE(e) => !w_named(t) && e.denoted_by(t),
        }
    }

    /// The fragment that an expression tree names, where it names one; else
    /// the error of the first part, read left to right, that names nothing
    /// of the kind sought there.
    pub fn from_tree(top: &Tree) -> (r: Result<Rc<W<PublicKey>>, Error>)
        requires
            w_ready(*top),
        ensures
            r matches Ok(x) ==> (*x).denoted_by(*top),
            forall|y: Self| #[trigger] y.denoted_by(*top) ==> (r matches Ok(x) && (*x).same(y)),
            r is Err ==> refused_with(r, w_refusal(*top)),
            !w_named(*top) && r is Err ==> refused_with(r, e_refusal(*top)),
            (top.name@ == "multi"@ || top.name@ == "thres"@) && threshold_error(*top) is Some ==> refused_with(
                r,
                threshold_error(*top).unwrap(),
            ),
            !w_named(*top) && !e_form(*top) ==> refused_with(r, unknown_text(*top, "E"@)),
            bad_pk(*top) ==> refused_with(r, key_refusal(top.args@[0])),
    {
        match w_from_tree(top) {
            Ok(x) => {
                proof {
                    assert forall|y: Self| #[trigger] y.denoted_by(*top) implies x.same(y) by {
                        x.lemma_denoted_once(&y, *top);
                    }
                }
                Ok(Rc::new(x))
            },
            Err(e) => Err(e),
        }
    }
}

impl F<PublicKey> {
    /// The tree names this fragment.
    pub open spec fn denoted_by(self, t: Tree) -> bool
        decreases self,
    {
        match self {
            F::CheckSig(p) => named(t, "pk"@, 1) && key_leaf(t.args@[0], p),
            F::CheckMultiSig(k, pks) => {
                &&& t.name@ == "multi"@
                &&& t.args@.len() == pks@.len() + 1
                &&& num_leaf(t.args@[0], k as int)
                &&& k <= pks@.len()
                &&& keys_denoted(t.args@.subrange(1, t.args@.len() as int), pks@)
            },
            F::Time(n) => named(t, "time"@, 1) && num_leaf(t.args@[0], n as int),
            F::HashEqual(h) => named(t, "hash"@, 1) && hash_leaf(t.args@[0], h),
            F::Threshold(k, e, ws) => {
                &&& t.name@ == "thres"@
                &&& t.args@.len() == ws@.len() + 2
                &&& num_leaf(t.args@[0], k as int)
                &&& k <= ws@.len() + 1
                &&& e.denoted_by(t.args@[1])
                &&& ws_denoted(ws@, t.args@.subrange(2, t.args@.len() as int))
            },
            F::And(l, r) => named(t, "and_p"@, 2) && l.denoted_by(t.args@[0]) && r.denoted_by(t.args@[1]),
            F::CascadeOr(l, r) => named(t, "or_v"@, 2) && l.denoted_by(t.args@[0]) && r.denoted_by(t.args@[1]),
            F::SwitchOr(l, r) => named(t, "or_s"@, 2) && l.denoted_by(t.args@[0]) && r.denoted_by(t.args@[1]),
            F::SwitchOrV(l, r) => named(t, "or_a"@, 2) && l.denoted_by(t.args@[0]) && r.denoted_by(t.args@[1]),
        }
    }

    /// The fragment that an expression tree names, where it names one; else
    /// the error of the first part, read left to right, that names nothing
    /// of the kind sought there.
    pub fn from_tree(top: &Tree) -> (r: Result<Rc<F<PublicKey>>, Error>)
        requires
            f_ready(*top),
        ensures
            r matches Ok(x) ==> (*x).denoted_by(*top),
            forall|y: Self| #[trigger] y.denoted_by(*top) ==> (r matches Ok(x) && (*x).same(y)),
            r is Err ==> refused_with(r, f_refusal(*top)),
            (top.name@ == "multi"@ || top.name@ == "thres"@) && threshold_error(*top) is Some ==> refused_with(
                r,
                threshold_error(*top).unwrap(),
            ),
            !fv_form(*top) ==> refused_with(r, unknown_text(*top, "F"@)),
            bad_pk(*top) ==> refused_with(r, key_refusal(top.args@[0])),
    {
        match f_from_tree(top) {
            Ok(x) => {
                proof {
                    assert forall|y: Self| #[trigger] y.denoted_by(*top) implies x.same(y) by {
                        x.lemma_denoted_once(&y, *top);
                    }
                }
                Ok(Rc::new(x))
            },
            Err(e) => Err(e),
        }
    }
}

impl V<PublicKey> {
    /// The tree names this fragment.
    pub open spec fn denoted_by(self, t: Tree) -> bool
        decreases self,
    {
        match self {
            V::CheckSig(p) => named(t, "pk"@, 1) && key_leaf(t.args@[0], p),
            V::CheckMultiSig(k, pks) => {
                &&& t.name@ == "multi"@
                &&& t.args@.len() == pks@.len() + 1
                &&& num_leaf(t.args@[0], k as int)
                &&& k <= pks@.len()
                &&& keys_denoted(t.args@.subrange(1, t.args@.len() as int), pks@)
            },
            V::Time(n) => named(t, "time"@, 1) && num_leaf(t.args@[0], n as int),
            V::HashEqual(h) => named(t, "hash"@, 1) && hash_leaf(t.args@[0], h),
            V::Threshold(k, e, ws) => {
                &&& t.name@ == "thres"@
                &&& t.args@.len() == ws@.len() + 2
                &&& num_leaf(t.args@[0], k as int)
                &&& k <= ws@.len() + 1
                &&& e.denoted_by(t.args@[1])
                &&& ws_denoted(ws@, t.args@.subrange(2, t.args@.len() as int))
            },
            V::And(l, r) => named(t, "and_p"@, 2) && l.denoted_by(t.args@[0]) && r.denoted_by(t.args@[1]),
            V::CascadeOr(l, r) => named(t, "or_v"@, 2) && l.denoted_by(t.args@[0]) && r.denoted_by(t.args@[1]),
            V::SwitchOr(l, r) => named(t, "or_s"@, 2) && l.denoted_by(t.args@[0]) && r.denoted_by(t.args@[1]),
            V::SwitchOrT(l, r) => named(t, "or_a"@, 2) && l.denoted_by(t.args@[0]) && r.denoted_by(t.args@[1]),
        }
    }

    /// The fragment that an expression tree names, where it names one; else
    /// the error of the first part, read left to right, that names nothing
    /// of the kind sought there.
    pub fn from_tree(top: &Tree) -> (r: Result<Rc<V<PublicKey>>, Error>)
        requires
            v_ready(*top),
        ensures
            r matches Ok(x) ==> (*x).denoted_by(*top),
            forall|y: Self| #[trigger] y.denoted_by(*top) ==> (r matches Ok(x) && (*x).same(y)),
            r is Err ==> refused_with(r, v_refusal(*top)),
            (top.name@ == "multi"@ || top.name@ == "thres"@) && threshold_error(*top) is Some ==> refused_with(
                r,
                threshold_error(*top).unwrap(),
            ),
            !fv_form(*top) ==> refused_with(r, unknown_text(*top, "V"@)),
            bad_pk(*top) ==> refused_with(r, key_refusal(top.args@[0])),
    {
        match v_from_tree(top) {
            Ok(x) => {
                proof {
                    assert forall|y: Self| #[trigger] y.denoted_by(*top) implies x.same(y) by {
                        x.lemma_denoted_once(&y, *top);
                    }
                }
                Ok(Rc::new(x))
            },
            Err(e) => Err(e),
        }
    }
}

impl T<PublicKey> {
    /// The tree names this fragment.
    pub open spec fn denoted_by(self, t: Tree) -> bool
        decreases self,
    {
        match self {
            T::Time(n) => named(t, "time"@, 1) && num_leaf(t.args@[0], n as int),
            T::HashEqual(h) => named(t, "hash"@, 1) && hash_leaf(t.args@[0], h),
            T::And(l, r) => named(t, "and_p"@, 2) && l.denoted_by(t.args@[0]) && r.denoted_by(t.args@[1]),
            T::ParallelOr(l, r) => named(t, "or_p"@, 2) && l.denoted_by(t.args@[0]) && r.denoted_by(t.args@[1]),
            T::CascadeOr(l, r) => named(t, "or_c"@, 2) && l.denoted_by(t.args@[0]) && r.denoted_by(t.args@[1]),
            T::CascadeOrV(l, r) => named(t, "or_v"@, 2) && l.denoted_by(t.args@[0]) && r.denoted_by(t.args@[1]),
            T::SwitchOr(l, r) => named(t, "or_s"@, 2) && l.denoted_by(t.args@[0]) && r.denoted_by(t.args@[1]),
            T::SwitchOrV(l, r) => named(t, "or_a"@, 2) && l.denoted_by(t.args@[0]) && r.denoted_by(t.args@[1]),
            T::CastE(e) => !t_named(t) && e.denoted_by(t),
        }
    }

    /// The fragment that an expression tree names, where it names one; else
    /// the error of the first part, read left to right, that names nothing
    /// of the kind sought there.
    pub fn from_tree(top: &Tree) -> (r: Result<Rc<T<PublicKey>>, Error>)
        requires
            t_ready(*top),
        ensures
            r matches Ok(x) ==> (*x).denoted_by(*top),
            forall|y: Self| #[trigger] y.denoted_by(*top) ==> (r matches Ok(x) && (*x).same(y)),
            r is Err ==> refused_with(r, t_refusal(*top)),
            !t_named(*top) && r is Err ==> refused_with(r, e_refusal(*top)),
            (top.name@ == "multi"@ || top.name@ == "thres"@) && threshold_error(*top) is Some ==> refused_with(
                r,
                threshold_error(*top).unwrap(),
            ),
            !t_named(*top) && !e_form(*top) ==> refused_with(r, unknown_text(*top, "E"@)),
            bad_pk(*top) ==> refused_with(r, key_refusal(top.args@[0])),
    {
        match t_from_tree(top) {
            Ok(x) => {
                proof {
                    assert forall|y: Self| #[trigger] y.denoted_by(*top) implies x.same(y) by {
                        x.lemma_denoted_once(&y, *top);
                    }
                }
                Ok(Rc::new(x))
            },
            Err(e) => Err(e),
        }
    }
}

#[verifier::spinoff_prover]
#[verifier::rlimit(50)]
fn e_from_tree(top: &Tree) -> (r: Result<E<PublicKey>, Error>)
    requires
        e_ready(*top),
    ensures
        r matches Ok(x) ==> x.denoted_by(*top),
        r is Err ==> refused_with(r, e_refusal(*top)),
        r is Err ==> forall|y: E<PublicKey>| !#[trigger] y.denoted_by(*top),
        (top.name@ == "multi"@ || top.name@ == "thres"@) && threshold_error(*top) is Some ==> refused_with(
            r,
            threshold_error(*top).unwrap(),
        ),
        !e_form(*top) ==> refused_with(r, unknown_text(*top, "E"@)),
        bad_pk(*top) ==> refused_with(r, key_refusal(top.args@[0])),
    decreases *top, 0nat,
{
    let n = top.args.len();
    proof {
        lemma_names();
    }
    if name_is(top, "pk") && n == 1 {
        match key_terminal(&top.args[0]) {
            Ok(x) => Ok(E::CheckSig(x)),
            Err(e) => {
                proof {
                    assert forall|y: E<PublicKey>| !#[trigger] y.denoted_by(*top) by {}
                }
                Err(e)
            },
        }
    } else if name_is(top, "multi") {
        match num_terminal(&top.args[0]) {
            Ok(k0) => {
                proof {
                    assert(num_arg(top.args@[0]) == Some(k0));
                }
                let k = k0 as usize;
                if n == 0 || k > n - 1 {
                    proof {
                        assert forall|y: E<PublicKey>| !#[trigger] y.denoted_by(*top) by {}
                    }
                    return Err(errstr("higher threshold than there were keys in multi"));
                }
                match keys_from_trees(&top.args) {
                    Ok(pks) => Ok(E::CheckMultiSig(k, pks)),
                    Err(e) => {
                        proof {
                            assert(multi_refusal(*top) == keys_refusal(top.args@, 1)) by {
                                assert(num_arg(top.args@[0]) == Some(k0));
                            }
                            assert(e_refusal(*top) == multi_refusal(*top));
                            assert forall|y: E<PublicKey>| !#[trigger] y.denoted_by(*top) by {
                                if let E::CheckMultiSig(k2, pks2) = y {
                                    if y.denoted_by(*top) {
                                        lemma_keys_denoted_all(top.args@, pks2@);
                                    }
                                }
                            }
                        }
                        Err(e)
                    },
                }
            },
            Err(e) => {
                proof {
                    assert forall|y: E<PublicKey>| !#[trigger] y.denoted_by(*top) by {}
                }
                Err(e)
            },
        }
    } else if name_is(top, "time") && n == 1 {
        match num_terminal(&top.args[0]) {
            Ok(x) => Ok(E::Time(x)),
            Err(e) => {
                proof {
                    assert forall|y: E<PublicKey>| !#[trigger] y.denoted_by(*top) by {}
                }
                Err(e)
            },
        }
    } else if name_is(top, "thres") {
        match num_terminal(&top.args[0]) {
            Ok(k0) => {
                proof {
                    assert(num_arg(top.args@[0]) == Some(k0));
                }
                let k = k0 as usize;
                if n == 0 || k > n - 1 {
                    proof {
                        assert forall|y: E<PublicKey>| !#[trigger] y.denoted_by(*top) by {}
                    }
                    return Err(errstr("higher threshold than there were keys in multi"));
                }
                if n == 1 {
                    proof {
                        assert forall|y: E<PublicKey>| !#[trigger] y.denoted_by(*top) by {}
                    }
                    return Err(errstr("empty multisigs not allowed in descriptors"));
                }
                proof {
                    assert(thres_refusal(*top, parts_refusal(*top)) == parts_refusal(*top));
                    assert(e_refusal(*top) == parts_refusal(*top));
                    assert(threshold_error(*top) is None);
                    assert(parts_ready(*top));
                    assert(e_ready(top.args@[1]));
                    assert(reads_e(top.args@[1]) ==> ws_ready(top.args@, 2));
                }
                match e_from_tree(&top.args[1]) {
                    Ok(e) => match ws_from_trees(&top.args) {
                        Ok(ws) => Ok(E::Threshold(k, Rc::new(e), ws)),
                        Err(er) => {
                            proof {
                                assert(reads_e(top.args@[1]));
                                assert(parts_refusal(*top) == ws_refusal(top.args@, 2));
                                let j = choose|j: int| 2 <= j < top.args@.len() && #[trigger] names_no_w(top.args@[j]);
                                assert forall|y: E<PublicKey>| !#[trigger] y.denoted_by(*top) by {
                                    if let E::Threshold(k2, e2, ws2) = y {
                                        if y.denoted_by(*top) {
                                            lemma_ws_denoted_index(ws2@, top.args@.subrange(2, top.args@.len() as int), j - 2);
                                            assert(top.args@.subrange(2, top.args@.len() as int)[j - 2] == top.args@[j]);
                                        }
                                    }
                                }
                            }
                            Err(er)
                        },
                    },
                    Err(er) => {
                        proof {
                            assert(parts_refusal(*top) == e_refusal(top.args@[1]));
                            assert forall|y: E<PublicKey>| !#[trigger] y.denoted_by(*top) by {
                                if let E::Threshold(k2, e2, ws2) = y {
                                    if y.denoted_by(*top) {
                                        assert((*e2).denoted_by(top.args@[1]));
                                    }
                                }
                            }
                        }
                        Err(er)
                    },
                }
            },
            Err(e) => {
                proof {
                    assert forall|y: E<PublicKey>| !#[trigger] y.denoted_by(*top) by {}
                }
                Err(e)
            },
        }
    } else if name_is(top, "and_p") && n == 2 {
        match e_from_tree(&top.args[0]) {
            Ok(l) => match w_from_tree(&top.args[1]) {
                Ok(r) => Ok(E::ParallelAnd(Rc::new(l), Rc::new(r))),
                Err(e) => {
                    proof {
                        assert forall|y: E<PublicKey>| !#[trigger] y.denoted_by(*top) by {
                            if let E::ParallelAnd(l2, r2) = y {
                                if y.denoted_by(*top) {
                                    assert((*l2).denoted_by(top.args@[0]));
                                    assert((*r2).denoted_by(top.args@[1]));
                                }
                            }
                        }
                    }
                    Err(e)
                },
            },
            Err(e) => {
                proof {
                    assert forall|y: E<PublicKey>| !#[trigger] y.denoted_by(*top) by {
                        if let E::ParallelAnd(l2, r2) = y {
                            if y.denoted_by(*top) {
                                assert((*l2).denoted_by(top.args@[0]));
                                assert((*r2).denoted_by(top.args@[1]));
                            }
                        }
                    }
                }
                Err(e)
            },
        }
    } else if name_is(top, "and_c") && n == 2 {
        match e_from_tree(&top.args[0]) {
            Ok(l) => match f_from_tree(&top.args[1]) {
                Ok(r) => Ok(E::CascadeAnd(Rc::new(l), Rc::new(r))),
                Err(e) => {
                    proof {
                        assert forall|y: E<PublicKey>| !#[trigger] y.denoted_by(*top) by {
                            if let E::CascadeAnd(l2, r2) = y {
                                if y.denoted_by(*top) {
                                    assert((*l2).denoted_by(top.args@[0]));
                                    assert((*r2).denoted_by(top.args@[1]));
                                }
                            }
                        }
                    }
                    Err(e)
                },
            },
            Err(e) => {
                proof {
                    assert forall|y: E<PublicKey>| !#[trigger] y.denoted_by(*top) by {
                        if let E::CascadeAnd(l2, r2) = y {
                            if y.denoted_by(*top) {
                                assert((*l2).denoted_by(top.args@[0]));
                                assert((*r2).denoted_by(top.args@[1]));
                            }
                        }
                    }
                }
                Err(e)
            },
        }
    } else if name_is(top, "or_p") && n == 2 {
        match e_from_tree(&top.args[0]) {
            Ok(l) => match w_from_tree(&top.args[1]) {
                Ok(r) => Ok(E::ParallelOr(Rc::new(l), Rc::new(r))),
                Err(e) => {
                    proof {
                        assert forall|y: E<PublicKey>| !#[trigger] y.denoted_by(*top) by {
                            if let E::ParallelOr(l2, r2) = y {
                                if y.denoted_by(*top) {
                                    assert((*l2).denoted_by(top.args@[0]));
                                    assert((*r2).denoted_by(top.args@[1]));
                                }
                            }
                        }
                    }
                    Err(e)
                },
            },
            Err(e) => {
                proof {
                    assert forall|y: E<PublicKey>| !#[trigger] y.denoted_by(*top) by {
                        if let E::ParallelOr(l2, r2) = y {
                            if y.denoted_by(*top) {
                                assert((*l2).denoted_by(top.args@[0]));
                                assert((*r2).denoted_by(top.args@[1]));
                            }
                        }
                    }
                }
                Err(e)
            },
        }
    } else if name_is(top, "or_c") && n == 2 {
        match e_from_tree(&top.args[0]) {
            Ok(l) => match e_from_tree(&top.args[1]) {
                Ok(r) => Ok(E::CascadeOr(Rc::new(l), Rc::new(r))),
                Err(e) => {
                    proof {
                        assert forall|y: E<PublicKey>| !#[trigger] y.denoted_by(*top) by {
                            if let E::CascadeOr(l2, r2) = y {
                                if y.denoted_by(*top) {
                                    assert((*l2).denoted_by(top.args@[0]));
                                    assert((*r2).denoted_by(top.args@[1]));
                                }
                            }
                        }
                    }
                    Err(e)
                },
            },
            Err(e) => {
                proof {
                    assert forall|y: E<PublicKey>| !#[trigger] y.denoted_by(*top) by {
                        if let E::CascadeOr(l2, r2) = y {
                            if y.denoted_by(*top) {
                                assert((*l2).denoted_by(top.args@[0]));
                                assert((*r2).denoted_by(top.args@[1]));
                            }
                        }
                    }
                }
                Err(e)
            },
        }
    } else if name_is(top, "or_s") && n == 2 {
        match e_from_tree(&top.args[0]) {
            Ok(l) => match f_from_tree(&top.args[1]) {
                Ok(r) => Ok(E::SwitchOrLeft(Rc::new(l), Rc::new(r))),
                Err(e) => {
                    proof {
                        assert forall|y: E<PublicKey>| !#[trigger] y.denoted_by(*top) by {
                            if let E::SwitchOrLeft(l2, r2) = y {
                                if y.denoted_by(*top) {
                                    assert((*l2).denoted_by(top.args@[0]));
                                    assert((*r2).denoted_by(top.args@[1]));
                                }
                            }
                        }
                    }
                    Err(e)
                },
            },
            Err(e) => {
                proof {
                    assert forall|y: E<PublicKey>| !#[trigger] y.denoted_by(*top) by {
                        if let E::SwitchOrLeft(l2, r2) = y {
                            if y.denoted_by(*top) {
                                assert((*l2).denoted_by(top.args@[0]));
                                assert((*r2).denoted_by(top.args@[1]));
                            }
                        }
                    }
                }
                Err(e)
            },
        }
    } else if name_is(top, "or_a") && n == 2 {
        match e_from_tree(&top.args[0]) {
            Ok(l) => match f_from_tree(&top.args[1]) {
                Ok(r) => Ok(E::SwitchOrRight(Rc::new(l), Rc::new(r))),
                Err(e) => {
                    proof {
                        assert forall|y: E<PublicKey>| !#[trigger] y.denoted_by(*top) by {
                            if let E::SwitchOrRight(l2, r2) = y {
                                if y.denoted_by(*top) {
                                    assert((*l2).denoted_by(top.args@[0]));
                                    assert((*r2).denoted_by(top.args@[1]));
                                }
                            }
                        }
                    }
                    Err(e)
                },
            },
            Err(e) => {
                proof {
                    assert forall|y: E<PublicKey>| !#[trigger] y.denoted_by(*top) by {
                        if let E::SwitchOrRight(l2, r2) = y {
                            if y.denoted_by(*top) {
                                assert((*l2).denoted_by(top.args@[0]));
                                assert((*r2).denoted_by(top.args@[1]));
                            }
                        }
                    }
                }
                Err(e)
            },
        }
    } else if name_is(top, "lift_l") && n == 1 {
        match f_from_tree(&top.args[0]) {
            Ok(x) => Ok(E::Likely(Rc::new(x))),
            Err(e) => {
                proof {
                        assert forall|y: E<PublicKey>| !#[trigger] y.denoted_by(*top) by {
                        if let E::Likely(x2) = y {
                            if y.denoted_by(*top) {
                                assert((*x2).denoted_by(top.args@[0]));
                            }
                        }
                    }
                }
                Err(e)
            },
        }
    } else if name_is(top, "lift_u") && n == 1 {
        match f_from_tree(&top.args[0]) {
            Ok(x) => Ok(E::Unlikely(Rc::new(x))),
            Err(e) => {
                proof {
                        assert forall|y: E<PublicKey>| !#[trigger] y.denoted_by(*top) by {
                        if let E::Unlikely(x2) = y {
                            if y.denoted_by(*top) {
                                assert((*x2).denoted_by(top.args@[0]));
                            }
                        }
                    }
                }
                Err(e)
            },
        }
    } else {
        proof {
            assert forall|y: E<PublicKey>| !#[trigger] y.denoted_by(*top) by {}
        }
        Err(unknown(top, "E"))
    }
}

#[verifier::spinoff_prover]
#[verifier::rlimit(50)]
fn w_from_tree(top: &Tree) -> (r: Result<W<PublicKey>, Error>)
    requires
        w_ready(*top),
    ensures
        r matches Ok(x) ==> x.denoted_by(*top),
        r is Err ==> refused_with(r, w_refusal(*top)),
        r is Err ==> forall|y: W<PublicKey>| !#[trigger] y.denoted_by(*top),
        (top.name@ == "multi"@ || top.name@ == "thres"@) && threshold_error(*top) is Some ==> refused_with(
            r,
            threshold_error(*top).unwrap(),
        ),
        !w_named(*top) && !e_form(*top) ==> refused_with(r, unknown_text(*top, "E"@)),
        bad_pk(*top) ==> refused_with(r, key_refusal(top.args@[0])),
    decreases *top, 1nat,
{
    let n = top.args.len();
    proof {
        lemma_names();
    }
    if name_is(top, "pk") && n == 1 {
        match key_terminal(&top.args[0]) {
            Ok(x) => Ok(W::CheckSig(x)),
            Err(e) => {
                proof {
                    assert forall|y: W<PublicKey>| !#[trigger] y.denoted_by(*top) by {}
                }
                Err(e)
            },
        }
    } else if name_is(top, "time") && n == 1 {
        match num_terminal(&top.args[0]) {
            Ok(x) => Ok(W::Time(x)),
            Err(e) => {
                proof {
                    assert forall|y: W<PublicKey>| !#[trigger] y.denoted_by(*top) by {}
                }
                Err(e)
            },
        }
    } else if name_is(top, "hash") && n == 1 {
        match hash_terminal(&top.args[0]) {
            Ok(x) => Ok(W::HashEqual(x)),
            Err(e) => {
                proof {
                    assert forall|y: W<PublicKey>| !#[trigger] y.denoted_by(*top) by {}
                }
                Err(e)
            },
        }
    } else {
        match e_from_tree(top) {
            Ok(e) => Ok(W::CastE(Rc::new(e))),
            Err(e) => {
                proof {
                    assert forall|y: W<PublicKey>| !#[trigger] y.denoted_by(*top) by {
                        if let W::CastE(e2) = y {
                            if y.denoted_by(*top) {
                                assert((*e2).denoted_by(*top));
                            }
                        }
                    }
                }
                Err(e)
            },
        }
    }
}

#[verifier::spinoff_prover]
#[verifier::rlimit(50)]
fn f_from_tree(top: &Tree) -> (r: Result<F<PublicKey>, Error>)
    requires
        f_ready(*top),
    ensures
        r matches Ok(x) ==> x.denoted_by(*top),
        r is Err ==> refused_with(r, f_refusal(*top)),
        r is Err ==> forall|y: F<PublicKey>| !#[trigger] y.denoted_by(*top),
        (top.name@ == "multi"@ || top.name@ == "thres"@) && threshold_error(*top) is Some ==> refused_with(
            r,
            threshold_error(*top).unwrap(),
        ),
        !fv_form(*top) ==> refused_with(r, unknown_text(*top, "F"@)),
        bad_pk(*top) ==> refused_with(r, key_refusal(top.args@[0])),
    decreases *top, 0nat,
{
    let n = top.args.len();
    proof {
        lemma_names();
    }
    if name_is(top, "pk") && n == 1 {
        match key_terminal(&top.args[0]) {
            Ok(x) => Ok(F::CheckSig(x)),
            Err(e) => {
                proof {
                    assert forall|y: F<PublicKey>| !#[trigger] y.denoted_by(*top) by {}
                }
                Err(e)
            },
        }
    } else if name_is(top, "multi") {
        match num_terminal(&top.args[0]) {
            Ok(k0) => {
                proof {
                    assert(num_arg(top.args@[0]) == Some(k0));
                }
                let k = k0 as usize;
                if n == 0 || k > n - 1 {
                    proof {
                        assert forall|y: F<PublicKey>| !#[trigger] y.denoted_by(*top) by {}
                    }
                    return Err(errstr("higher threshold than there were keys in multi"));
                }
                match keys_from_trees(&top.args) {
                    Ok(pks) => Ok(F::CheckMultiSig(k, pks)),
                    Err(e) => {
                        proof {
                            assert(multi_refusal(*top) == keys_refusal(top.args@, 1)) by {
                                assert(num_arg(top.args@[0]) == Some(k0));
                            }
                            assert(f_refusal(*top) == multi_refusal(*top));
                            assert forall|y: F<PublicKey>| !#[trigger] y.denoted_by(*top) by {
                                if let F::CheckMultiSig(k2, pks2) = y {
                                    if y.denoted_by(*top) {
                                        lemma_keys_denoted_all(top.args@, pks2@);
                                    }
                                }
                            }
                        }
                        Err(e)
                    },
                }
            },
            Err(e) => {
                proof {
                    assert forall|y: F<PublicKey>| !#[trigger] y.denoted_by(*top) by {}
                }
                Err(e)
            },
        }
    } else if name_is(top, "time") && n == 1 {
        match num_terminal(&top.args[0]) {
            Ok(x) => Ok(F::Time(x)),
            Err(e) => {
                proof {
                    assert forall|y: F<PublicKey>| !#[trigger] y.denoted_by(*top) by {}
                }
                Err(e)
            },
        }
    } else if name_is(top, "hash") && n == 1 {
        match hash_terminal(&top.args[0]) {
            Ok(x) => Ok(F::HashEqual(x)),
            Err(e) => {
                proof {
                    assert forall|y: F<PublicKey>| !#[trigger] y.denoted_by(*top) by {}
                }
                Err(e)
            },
        }
    } else if name_is(top, "thres") {
        match num_terminal(&top.args[0]) {
            Ok(k0) => {
                proof {
                    assert(num_arg(top.args@[0]) == Some(k0));
                }
                let k = k0 as usize;
                if n == 0 || k > n - 1 {
                    proof {
                        assert forall|y: F<PublicKey>| !#[trigger] y.denoted_by(*top) by {}
                    }
                    return Err(errstr("higher threshold than there were keys in multi"));
                }
                if n == 1 {
                    proof {
                        assert forall|y: F<PublicKey>| !#[trigger] y.denoted_by(*top) by {}
                    }
                    return Err(errstr("empty multisigs not allowed in descriptors"));
                }
                proof {
                    assert(thres_refusal(*top, parts_refusal(*top)) == parts_refusal(*top));
                    assert(f_refusal(*top) == parts_refusal(*top));
                    assert(threshold_error(*top) is None);
                    assert(parts_ready(*top));
                    assert(e_ready(top.args@[1]));
                    assert(reads_e(top.args@[1]) ==> ws_ready(top.args@, 2));
                }
                match e_from_tree(&top.args[1]) {
                    Ok(e) => match ws_from_trees(&top.args) {
                        Ok(ws) => Ok(F::Threshold(k, Rc::new(e), ws)),
                        Err(er) => {
                            proof {
                                assert(reads_e(top.args@[1]));
                                assert(parts_refusal(*top) == ws_refusal(top.args@, 2));
                                let j = choose|j: int| 2 <= j < top.args@.len() && #[trigger] names_no_w(top.args@[j]);
                                assert forall|y: F<PublicKey>| !#[trigger] y.denoted_by(*top) by {
                                    if let F::Threshold(k2, e2, ws2) = y {
                                        if y.denoted_by(*top) {
                                            lemma_ws_denoted_index(ws2@, top.args@.subrange(2, top.args@.len() as int), j - 2);
                                            assert(top.args@.subrange(2, top.args@.len() as int)[j - 2] == top.args@[j]);
                                        }
                                    }
                                }
                            }
                            Err(er)
                        },
                    },
                    Err(er) => {
                        proof {
                            assert(parts_refusal(*top) == e_refusal(top.args@[1]));
                            assert forall|y: F<PublicKey>| !#[trigger] y.denoted_by(*top) by {
                                if let F::Threshold(k2, e2, ws2) = y {
                                    if y.denoted_by(*top) {
                                        assert((*e2).denoted_by(top.args@[1]));
                                    }
                                }
                            }
                        }
                        Err(er)
                    },
                }
            },
            Err(e) => {
                proof {
                    assert forall|y: F<PublicKey>| !#[trigger] y.denoted_by(*top) by {}
                }
                Err(e)
            },
        }
    } else if name_is(top, "and_p") && n == 2 {
        match v_from_tree(&top.args[0]) {
            Ok(l) => match f_from_tree(&top.args[1]) {
                Ok(r) => Ok(F::And(Rc::new(l), Rc::new(r))),
                Err(e) => {
                    proof {
                        assert forall|y: F<PublicKey>| !#[trigger] y.denoted_by(*top) by {
                            if let F::And(l2, r2) = y {
                                if y.denoted_by(*top) {
                                    assert((*l2).denoted_by(top.args@[0]));
                                    assert((*r2).denoted_by(top.args@[1]));
                                }
                            }
                        }
                    }
                    Err(e)
                },
            },
            Err(e) => {
                proof {
                    assert forall|y: F<PublicKey>| !#[trigger] y.denoted_by(*top) by {
                        if let F::And(l2, r2) = y {
                            if y.denoted_by(*top) {
                                assert((*l2).denoted_by(top.args@[0]));
                                assert((*r2).denoted_by(top.args@[1]));
                            }
                        }
                    }
                }
                Err(e)
            },
        }
    } else if name_is(top, "or_v") && n == 2 {
        match e_from_tree(&top.args[0]) {
            Ok(l) => match v_from_tree(&top.args[1]) {
                Ok(r) => Ok(F::CascadeOr(Rc::new(l), Rc::new(r))),
                Err(e) => {
                    proof {
                        assert forall|y: F<PublicKey>| !#[trigger] y.denoted_by(*top) by {
                            if let F::CascadeOr(l2, r2) = y {
                                if y.denoted_by(*top) {
                                    assert((*l2).denoted_by(top.args@[0]));
                                    assert((*r2).denoted_by(top.args@[1]));
                                }
                            }
                        }
                    }
                    Err(e)
                },
            },
            Err(e) => {
                proof {
                    assert forall|y: F<PublicKey>| !#[trigger] y.denoted_by(*top) by {
                        if let F::CascadeOr(l2, r2) = y {
                            if y.denoted_by(*top) {
                                assert((*l2).denoted_by(top.args@[0]));
                                assert((*r2).denoted_by(top.args@[1]));
                            }
                        }
                    }
                }
                Err(e)
            },
        }
    } else if name_is(top, "or_s") && n == 2 {
        match f_from_tree(&top.args[0]) {
            Ok(l) => match f_from_tree(&top.args[1]) {
                Ok(r) => Ok(F::SwitchOr(Rc::new(l), Rc::new(r))),
                Err(e) => {
                    proof {
                        assert forall|y: F<PublicKey>| !#[trigger] y.denoted_by(*top) by {
                            if let F::SwitchOr(l2, r2) = y {
                                if y.denoted_by(*top) {
                                    assert((*l2).denoted_by(top.args@[0]));
                                    assert((*r2).denoted_by(top.args@[1]));
                                }
                            }
                        }
                    }
                    Err(e)
                },
            },
            Err(e) => {
                proof {
                    assert forall|y: F<PublicKey>| !#[trigger] y.denoted_by(*top) by {
                        if let F::SwitchOr(l2, r2) = y {
                            if y.denoted_by(*top) {
                                assert((*l2).denoted_by(top.args@[0]));
                                assert((*r2).denoted_by(top.args@[1]));
                            }
                        }
                    }
                }
                Err(e)
            },
        }
    } else if name_is(top, "or_a") && n == 2 {
        match v_from_tree(&top.args[0]) {
            Ok(l) => match v_from_tree(&top.args[1]) {
                Ok(r) => Ok(F::SwitchOrV(Rc::new(l), Rc::new(r))),
                Err(e) => {
                    proof {
                        assert forall|y: F<PublicKey>| !#[trigger] y.denoted_by(*top) by {
                            if let F::SwitchOrV(l2, r2) = y {
                                if y.denoted_by(*top) {
                                    assert((*l2).denoted_by(top.args@[0]));
                                    assert((*r2).denoted_by(top.args@[1]));
                                }
                            }
                        }
                    }
                    Err(e)
                },
            },
            Err(e) => {
                proof {
                    assert forall|y: F<PublicKey>| !#[trigger] y.denoted_by(*top) by {
                        if let F::SwitchOrV(l2, r2) = y {
                            if y.denoted_by(*top) {
                                assert((*l2).denoted_by(top.args@[0]));
                                assert((*r2).denoted_by(top.args@[1]));
                            }
                        }
                    }
                }
                Err(e)
            },
        }
    } else {
        proof {
            assert forall|y: F<PublicKey>| !#[trigger] y.denoted_by(*top) by {}
        }
        Err(unknown(top, "F"))
    }
}

#[verifier::spinoff_prover]
#[verifier::rlimit(50)]
fn v_from_tree(top: &Tree) -> (r: Result<V<PublicKey>, Error>)
    requires
        v_ready(*top),
    ensures
        r matches Ok(x) ==> x.denoted_by(*top),
        r is Err ==> refused_with(r, v_refusal(*top)),
        r is Err ==> forall|y: V<PublicKey>| !#[trigger] y.denoted_by(*top),
        (top.name@ == "multi"@ || top.name@ == "thres"@) && threshold_error(*top) is Some ==> refused_with(
            r,
            threshold_error(*top).unwrap(),
        ),
        !fv_form(*top) ==> refused_with(r, unknown_text(*top, "V"@)),
        bad_pk(*top) ==> refused_with(r, key_refusal(top.args@[0])),
    decreases *top, 0nat,
{
    let n = top.args.len();
    proof {
        lemma_names();
    }
    if name_is(top, "pk") && n == 1 {
        match key_terminal(&top.args[0]) {
            Ok(x) => Ok(V::CheckSig(x)),
            Err(e) => {
                proof {
                    assert forall|y: V<PublicKey>| !#[trigger] y.denoted_by(*top) by {}
                }
                Err(e)
            },
        }
    } else if name_is(top, "multi") {
        match num_terminal(&top.args[0]) {
            Ok(k0) => {
                proof {
                    assert(num_arg(top.args@[0]) == Some(k0));
                }
                let k = k0 as usize;
                if n == 0 || k > n - 1 {
                    proof {
                        assert forall|y: V<PublicKey>| !#[trigger] y.denoted_by(*top) by {}
                    }
                    return Err(errstr("higher threshold than there were keys in multi"));
                }
                match keys_from_trees(&top.args) {
                    Ok(pks) => Ok(V::CheckMultiSig(k, pks)),
                    Err(e) => {
                        proof {
                            assert(multi_refusal(*top) == keys_refusal(top.args@, 1)) by {
                                assert(num_arg(top.args@[0]) == Some(k0));
                            }
                            assert(v_refusal(*top) == multi_refusal(*top));
                            assert forall|y: V<PublicKey>| !#[trigger] y.denoted_by(*top) by {
                                if let V::CheckMultiSig(k2, pks2) = y {
                                    if y.denoted_by(*top) {
                                        lemma_keys_denoted_all(top.args@, pks2@);
                                    }
                                }
                            }
                        }
                        Err(e)
                    },
                }
            },
            Err(e) => {
                proof {
                    assert forall|y: V<PublicKey>| !#[trigger] y.denoted_by(*top) by {}
                }
                Err(e)
            },
        }
    } else if name_is(top, "time") && n == 1 {
        match num_terminal(&top.args[0]) {
            Ok(x) => Ok(V::Time(x)),
            Err(e) => {
                proof {
                    assert forall|y: V<PublicKey>| !#[trigger] y.denoted_by(*top) by {}
                }
                Err(e)
            },
        }
    } else if name_is(top, "hash") && n == 1 {
        match hash_terminal(&top.args[0]) {
            Ok(x) => Ok(V::HashEqual(x)),
            Err(e) => {
                proof {
                    assert forall|y: V<PublicKey>| !#[trigger] y.denoted_by(*top) by {}
                }
                Err(e)
            },
        }
    } else if name_is(top, "thres") {
        match num_terminal(&top.args[0]) {
            Ok(k0) => {
                proof {
                    assert(num_arg(top.args@[0]) == Some(k0));
                }
                let k = k0 as usize;
                if n == 0 || k > n - 1 {
                    proof {
                        assert forall|y: V<PublicKey>| !#[trigger] y.denoted_by(*top) by {}
                    }
                    return Err(errstr("higher threshold than there were keys in multi"));
                }
                if n == 1 {
                    proof {
                        assert forall|y: V<PublicKey>| !#[trigger] y.denoted_by(*top) by {}
                    }
                    return Err(errstr("empty multisigs not allowed in descriptors"));
                }
                proof {
                    assert(thres_refusal(*top, parts_refusal(*top)) == parts_refusal(*top));
                    assert(v_refusal(*top) == parts_refusal(*top));
                    assert(threshold_error(*top) is None);
                    assert(parts_ready(*top));
                    assert(e_ready(top.args@[1]));
                    assert(reads_e(top.args@[1]) ==> ws_ready(top.args@, 2));
                }
                match e_from_tree(&top.args[1]) {
                    Ok(e) => match ws_from_trees(&top.args) {
                        Ok(ws) => Ok(V::Threshold(k, Rc::new(e), ws)),
                        Err(er) => {
                            proof {
                                assert(reads_e(top.args@[1]));
                                assert(parts_refusal(*top) == ws_refusal(top.args@, 2));
                                let j = choose|j: int| 2 <= j < top.args@.len() && #[trigger] names_no_w(top.args@[j]);
                                assert forall|y: V<PublicKey>| !#[trigger] y.denoted_by(*top) by {
                                    if let V::Threshold(k2, e2, ws2) = y {
                                        if y.denoted_by(*top) {
                                            lemma_ws_denoted_index(ws2@, top.args@.subrange(2, top.args@.len() as int), j - 2);
                                            assert(top.args@.subrange(2, top.args@.len() as int)[j - 2] == top.args@[j]);
                                        }
                                    }
                                }
                            }
                            Err(er)
                        },
                    },
                    Err(er) => {
                        proof {
                            assert(parts_refusal(*top) == e_refusal(top.args@[1]));
                            assert forall|y: V<PublicKey>| !#[trigger] y.denoted_by(*top) by {
                                if let V::Threshold(k2, e2, ws2) = y {
                                    if y.denoted_by(*top) {
                                        assert((*e2).denoted_by(top.args@[1]));
                                    }
                                }
                            }
                        }
                        Err(er)
                    },
                }
            },
            Err(e) => {
                proof {
                    assert forall|y: V<PublicKey>| !#[trigger] y.denoted_by(*top) by {}
                }
                Err(e)
            },
        }
    } else if name_is(top, "and_p") && n == 2 {
        match v_from_tree(&top.args[0]) {
            Ok(l) => match v_from_tree(&top.args[1]) {
                Ok(r) => Ok(V::And(Rc::new(l), Rc::new(r))),
                Err(e) => {
                    proof {
                        assert forall|y: V<PublicKey>| !#[trigger] y.denoted_by(*top) by {
                            if let V::And(l2, r2) = y {
                                if y.denoted_by(*top) {
                                    assert((*l2).denoted_by(top.args@[0]));
                                    assert((*r2).denoted_by(top.args@[1]));
                                }
                            }
                        }
                    }
                    Err(e)
                },
            },
            Err(e) => {
                proof {
                    assert forall|y: V<PublicKey>| !#[trigger] y.denoted_by(*top) by {
                        if let V::And(l2, r2) = y {
                            if y.denoted_by(*top) {
                                assert((*l2).denoted_by(top.args@[0]));
                                assert((*r2).denoted_by(top.args@[1]));
                            }
                        }
                    }
                }
                Err(e)
            },
        }
    } else if name_is(top, "or_v") && n == 2 {
        match e_from_tree(&top.args[0]) {
            Ok(l) => match v_from_tree(&top.args[1]) {
                Ok(r) => Ok(V::CascadeOr(Rc::new(l), Rc::new(r))),
                Err(e) => {
                    proof {
                        assert forall|y: V<PublicKey>| !#[trigger] y.denoted_by(*top) by {
                            if let V::CascadeOr(l2, r2) = y {
                                if y.denoted_by(*top) {
                                    assert((*l2).denoted_by(top.args@[0]));
                                    assert((*r2).denoted_by(top.args@[1]));
                                }
                            }
                        }
                    }
                    Err(e)
                },
            },
            Err(e) => {
                proof {
                    assert forall|y: V<PublicKey>| !#[trigger] y.denoted_by(*top) by {
                        if let V::CascadeOr(l2, r2) = y {
                            if y.denoted_by(*top) {
                                assert((*l2).denoted_by(top.args@[0]));
                                assert((*r2).denoted_by(top.args@[1]));
                            }
                        }
                    }
                }
                Err(e)
            },
        }
    } else if name_is(top, "or_s") && n == 2 {
        match v_from_tree(&top.args[0]) {
            Ok(l) => match v_from_tree(&top.args[1]) {
                Ok(r) => Ok(V::SwitchOr(Rc::new(l), Rc::new(r))),
                Err(e) => {
                    proof {
                        assert forall|y: V<PublicKey>| !#[trigger] y.denoted_by(*top) by {
                            if let V::SwitchOr(l2, r2) = y {
                                if y.denoted_by(*top) {
                                    assert((*l2).denoted_by(top.args@[0]));
                                    assert((*r2).denoted_by(top.args@[1]));
                                }
                            }
                        }
                    }
                    Err(e)
                },
            },
            Err(e) => {
                proof {
                    assert forall|y: V<PublicKey>| !#[trigger] y.denoted_by(*top) by {
                        if let V::SwitchOr(l2, r2) = y {
                            if y.denoted_by(*top) {
                                assert((*l2).denoted_by(top.args@[0]));
                                assert((*r2).denoted_by(top.args@[1]));
                            }
                        }
                    }
                }
                Err(e)
            },
        }
    } else if name_is(top, "or_a") && n == 2 {
        match t_from_tree(&top.args[0]) {
            Ok(l) => match t_from_tree(&top.args[1]) {
                Ok(r) => Ok(V::SwitchOrT(Rc::new(l), Rc::new(r))),
                Err(e) => {
                    proof {
                        assert forall|y: V<PublicKey>| !#[trigger] y.denoted_by(*top) by {
                            if let V::SwitchOrT(l2, r2) = y {
                                if y.denoted_by(*top) {
                                    assert((*l2).denoted_by(top.args@[0]));
                                    assert((*r2).denoted_by(top.args@[1]));
                                }
                            }
                        }
                    }
                    Err(e)
                },
            },
            Err(e) => {
                proof {
                    assert forall|y: V<PublicKey>| !#[trigger] y.denoted_by(*top) by {
                        if let V::SwitchOrT(l2, r2) = y {
                            if y.denoted_by(*top) {
                                assert((*l2).denoted_by(top.args@[0]));
                                assert((*r2).denoted_by(top.args@[1]));
                            }
                        }
                    }
                }
                Err(e)
            },
        }
    } else {
        proof {
            assert forall|y: V<PublicKey>| !#[trigger] y.denoted_by(*top) by {}
        }
        Err(unknown(top, "V"))
    }
}

#[verifier::spinoff_prover]
#[verifier::rlimit(50)]
fn t_from_tree(top: &Tree) -> (r: Result<T<PublicKey>, Error>)
    requires
        t_ready(*top),
    ensures
        r matches Ok(x) ==> x.denoted_by(*top),
        r is Err ==> refused_with(r, t_refusal(*top)),
        r is Err ==> forall|y: T<PublicKey>| !#[trigger] y.denoted_by(*top),
        (top.name@ == "multi"@ || top.name@ == "thres"@) && threshold_error(*top) is Some ==> refused_with(
            r,
            threshold_error(*top).unwrap(),
        ),
        !t_named(*top) && !e_form(*top) ==> refused_with(r, unknown_text(*top, "E"@)),
        bad_pk(*top) ==> refused_with(r, key_refusal(top.args@[0])),
    decreases *top, 1nat,
{
    let n = top.args.len();
    proof {
        lemma_names();
    }
    if name_is(top, "time") && n == 1 {
        match num_terminal(&top.args[0]) {
            Ok(x) => Ok(T::Time(x)),
            Err(e) => {
                proof {
                    assert forall|y: T<PublicKey>| !#[trigger] y.denoted_by(*top) by {}
                }
                Err(e)
            },
        }
    } else if name_is(top, "hash") && n == 1 {
        match hash_terminal(&top.args[0]) {
            Ok(x) => Ok(T::HashEqual(x)),
            Err(e) => {
                proof {
                    assert forall|y: T<PublicKey>| !#[trigger] y.denoted_by(*top) by {}
                }
                Err(e)
            },
        }
    } else if name_is(top, "and_p") && n == 2 {
        match v_from_tree(&top.args[0]) {
            Ok(l) => match t_from_tree(&top.args[1]) {
                Ok(r) => Ok(T::And(Rc::new(l), Rc::new(r))),
                Err(e) => {
                    proof {
                        assert forall|y: T<PublicKey>| !#[trigger] y.denoted_by(*top) by {
                            if let T::And(l2, r2) = y {
                                if y.denoted_by(*top) {
                                    assert((*l2).denoted_by(top.args@[0]));
                                    assert((*r2).denoted_by(top.args@[1]));
                                }
                            }
                        }
                    }
                    Err(e)
                },
            },
            Err(e) => {
                proof {
                    assert forall|y: T<PublicKey>| !#[trigger] y.denoted_by(*top) by {
                        if let T::And(l2, r2) = y {
                            if y.denoted_by(*top) {
                                assert((*l2).denoted_by(top.args@[0]));
                                assert((*r2).denoted_by(top.args@[1]));
                            }
                        }
                    }
                }
                Err(e)
            },
        }
    } else if name_is(top, "or_p") && n == 2 {
        match e_from_tree(&top.args[0]) {
            Ok(l) => match w_from_tree(&top.args[1]) {
                Ok(r) => Ok(T::ParallelOr(Rc::new(l), Rc::new(r))),
                Err(e) => {
                    proof {
                        assert forall|y: T<PublicKey>| !#[trigger] y.denoted_by(*top) by {
                            if let T::ParallelOr(l2, r2) = y {
                                if y.denoted_by(*top) {
                                    assert((*l2).denoted_by(top.args@[0]));
                                    assert((*r2).denoted_by(top.args@[1]));
                                }
                            }
                        }
                    }
                    Err(e)
                },
            },
            Err(e) => {
                proof {
                    assert forall|y: T<PublicKey>| !#[trigger] y.denoted_by(*top) by {
                        if let T::ParallelOr(l2, r2) = y {
                            if y.denoted_by(*top) {
                                assert((*l2).denoted_by(top.args@[0]));
                                assert((*r2).denoted_by(top.args@[1]));
                            }
                        }
                    }
                }
                Err(e)
            },
        }
    } else if name_is(top, "or_c") && n == 2 {
        match e_from_tree(&top.args[0]) {
            Ok(l) => match t_from_tree(&top.args[1]) {
                Ok(r) => Ok(T::CascadeOr(Rc::new(l), Rc::new(r))),
                Err(e) => {
                    proof {
                        assert forall|y: T<PublicKey>| !#[trigger] y.denoted_by(*top) by {
                            if let T::CascadeOr(l2, r2) = y {
                                if y.denoted_by(*top) {
                                    assert((*l2).denoted_by(top.args@[0]));
                                    assert((*r2).denoted_by(top.args@[1]));
                                }
                            }
                        }
                    }
                    Err(e)
                },
            },
            Err(e) => {
                proof {
                    assert forall|y: T<PublicKey>| !#[trigger] y.denoted_by(*top) by {
                        if let T::CascadeOr(l2, r2) = y {
                            if y.denoted_by(*top) {
                                assert((*l2).denoted_by(top.args@[0]));
                                assert((*r2).denoted_by(top.args@[1]));
                            }
                        }
                    }
                }
                Err(e)
            },
        }
    } else if name_is(top, "or_v") && n == 2 {
        match e_from_tree(&top.args[0]) {
            Ok(l) => match v_from_tree(&top.args[1]) {
                Ok(r) => Ok(T::CascadeOrV(Rc::new(l), Rc::new(r))),
                Err(e) => {
                    proof {
                        assert forall|y: T<PublicKey>| !#[trigger] y.denoted_by(*top) by {
                            if let T::CascadeOrV(l2, r2) = y {
                                if y.denoted_by(*top) {
                                    assert((*l2).denoted_by(top.args@[0]));
                                    assert((*r2).denoted_by(top.args@[1]));
                                }
                            }
                        }
                    }
                    Err(e)
                },
            },
            Err(e) => {
                proof {
                    assert forall|y: T<PublicKey>| !#[trigger] y.denoted_by(*top) by {
                        if let T::CascadeOrV(l2, r2) = y {
                            if y.denoted_by(*top) {
                                assert((*l2).denoted_by(top.args@[0]));
                                assert((*r2).denoted_by(top.args@[1]));
                            }
                        }
                    }
                }
                Err(e)
            },
        }
    } else if name_is(top, "or_s") && n == 2 {
        match t_from_tree(&top.args[0]) {
            Ok(l) => match t_from_tree(&top.args[1]) {
                Ok(r) => Ok(T::SwitchOr(Rc::new(l), Rc::new(r))),
                Err(e) => {
                    proof {
                        assert forall|y: T<PublicKey>| !#[trigger] y.denoted_by(*top) by {
                            if let T::SwitchOr(l2, r2) = y {
                                if y.denoted_by(*top) {
                                    assert((*l2).denoted_by(top.args@[0]));
                                    assert((*r2).denoted_by(top.args@[1]));
                                }
                            }
                        }
                    }
                    Err(e)
                },
            },
            Err(e) => {
                proof {
                    assert forall|y: T<PublicKey>| !#[trigger] y.denoted_by(*top) by {
                        if let T::SwitchOr(l2, r2) = y {
                            if y.denoted_by(*top) {
                                assert((*l2).denoted_by(top.args@[0]));
                                assert((*r2).denoted_by(top.args@[1]));
                            }
                        }
                    }
                }
                Err(e)
            },
        }
    } else if name_is(top, "or_a") && n == 2 {
        match v_from_tree(&top.args[0]) {
            Ok(l) => match v_from_tree(&top.args[1]) {
                Ok(r) => Ok(T::SwitchOrV(Rc::new(l), Rc::new(r))),
                Err(e) => {
                    proof {
                        assert forall|y: T<PublicKey>| !#[trigger] y.denoted_by(*top) by {
                            if let T::SwitchOrV(l2, r2) = y {
                                if y.denoted_by(*top) {
                                    assert((*l2).denoted_by(top.args@[0]));
                                    assert((*r2).denoted_by(top.args@[1]));
                                }
                            }
                        }
                    }
                    Err(e)
                },
            },
            Err(e) => {
                proof {
                    assert forall|y: T<PublicKey>| !#[trigger] y.denoted_by(*top) by {
                        if let T::SwitchOrV(l2, r2) = y {
                            if y.denoted_by(*top) {
                                assert((*l2).denoted_by(top.args@[0]));
                                assert((*r2).denoted_by(top.args@[1]));
                            }
                        }
                    }
                }
                Err(e)
            },
        }
    } else {
        match e_from_tree(top) {
            Ok(e) => Ok(T::CastE(e)),
            Err(e) => {
                proof {
                    assert forall|y: T<PublicKey>| !#[trigger] y.denoted_by(*top) by {
                        if let T::CastE(e2) = y {
                            if y.denoted_by(*top) {
                                assert(e2.denoted_by(*top));
                            }
                        }
                    }
                }
                Err(e)
            },
        }
    }
}

/// Keys that the same leaves name are the same keys.
proof fn lemma_keys_denoted_once(a: Seq<PublicKey>, b: Seq<PublicKey>, ts: Seq<Tree>)
    requires
        keys_denoted(ts, a),
        keys_denoted(ts, b),
    ensures
        a == b,
{
    assert forall|i: int| 0 <= i < a.len() implies a[i] == b[i] by {
        assert(key_leaf(ts[i], a[i]) && key_leaf(ts[i], b[i]));
        assert(a[i].bytes =~= b[i].bytes);
    }
    assert(a =~= b);
}

/// Wrapped parts that the same trees name are the same parts.
proof fn lemma_ws_denoted_once(a: Seq<Rc<W<PublicKey>>>, b: Seq<Rc<W<PublicKey>>>, ts: Seq<Tree>)
    requires
        ws_denoted(a, ts),
        ws_denoted(b, ts),
    ensures
        ws_same(a, b),
    decreases a,
{
    if a.len() > 0 {
        lemma_ws_denoted_once(a.subrange(0, a.len() - 1), b.subrange(0, b.len() - 1), ts.subrange(0, ts.len() - 1));
        let w = a.last();
        let w2 = b.last();
        w.lemma_denoted_once(&w2, ts.last());
    }
}

impl E<PublicKey> {
    /// A tree names at most one fragment of this kind.
    pub proof fn lemma_denoted_once(&self, o: &Self, t: Tree)
        requires
            self.denoted_by(t),
            o.denoted_by(t),
        ensures
            self.same(*o),
        decreases *self,
    {
        lemma_names();
        match (self, o) {
            (E::CheckSig(p), E::CheckSig(p2)) => {
                assert(p.bytes =~= p2.bytes);
            },
            (E::Threshold(_, e, ws), E::Threshold(_, e2, ws2)) => {
                e.lemma_denoted_once(e2, t.args@[1]);
                lemma_ws_denoted_once(ws@, ws2@, t.args@.subrange(2, t.args@.len() as int));
            },
            (E::CheckMultiSig(_, p), E::CheckMultiSig(_, p2)) => {
                lemma_keys_denoted_once(p@, p2@, t.args@.subrange(1, t.args@.len() as int));
            },
            (E::ParallelAnd(l, r), E::ParallelAnd(l2, r2)) => {
                l.lemma_denoted_once(l2, t.args@[0]);
                r.lemma_denoted_once(r2, t.args@[1]);
            },
            (E::CascadeAnd(l, r), E::CascadeAnd(l2, r2)) => {
                l.lemma_denoted_once(l2, t.args@[0]);
                r.lemma_denoted_once(r2, t.args@[1]);
            },
            (E::ParallelOr(l, r), E::ParallelOr(l2, r2)) => {
                l.lemma_denoted_once(l2, t.args@[0]);
                r.lemma_denoted_once(r2, t.args@[1]);
            },
            (E::CascadeOr(l, r), E::CascadeOr(l2, r2)) => {
                l.lemma_denoted_once(l2, t.args@[0]);
                r.lemma_denoted_once(r2, t.args@[1]);
            },
            (E::SwitchOrLeft(l, r), E::SwitchOrLeft(l2, r2)) => {
                l.lemma_denoted_once(l2, t.args@[0]);
                r.lemma_denoted_once(r2, t.args@[1]);
            },
            (E::SwitchOrRight(l, r), E::SwitchOrRight(l2, r2)) => {
                l.lemma_denoted_once(l2, t.args@[0]);
                r.lemma_denoted_once(r2, t.args@[1]);
            },
            (E::Likely(f), E::Likely(f2)) => {
                f.lemma_denoted_once(f2, t.args@[0]);
            },
            (E::Unlikely(f), E::Unlikely(f2)) => {
                f.lemma_denoted_once(f2, t.args@[0]);
            },
            _ => {},
        }
    }
}

impl W<PublicKey> {
    /// A tree names at most one fragment of this kind.
    pub proof fn lemma_denoted_once(&self, o: &Self, t: Tree)
        requires
            self.denoted_by(t),
            o.denoted_by(t),
        ensures
            self.same(*o),
        decreases *self,
    {
        lemma_names();
        match (self, o) {
            (W::CheckSig(p), W::CheckSig(p2)) => {
                assert(p.bytes =~= p2.bytes);
            },
            (W::HashEqual(h), W::HashEqual(h2)) => {
                assert(h.bytes =~= h2.bytes);
            },
            (W::CastE(e), W::CastE(e2)) => {
                e.lemma_denoted_once(e2, t);
            },
            _ => {},
        }
    }
}

impl F<PublicKey> {
    /// A tree names at most one fragment of this kind.
    pub proof fn lemma_denoted_once(&self, o: &Self, t: Tree)
        requires
            self.denoted_by(t),
            o.denoted_by(t),
        ensures
            self.same(*o),
        decreases *self,
    {
        lemma_names();
        match (self, o) {
            (F::CheckSig(p), F::CheckSig(p2)) => {
                assert(p.bytes =~= p2.bytes);
            },
            (F::HashEqual(h), F::HashEqual(h2)) => {
                assert(h.bytes =~= h2.bytes);
            },
            (F::Threshold(_, e, ws), F::Threshold(_, e2, ws2)) => {
                e.lemma_denoted_once(e2, t.args@[1]);
                lemma_ws_denoted_once(ws@, ws2@, t.args@.subrange(2, t.args@.len() as int));
            },
            (F::CheckMultiSig(_, p), F::CheckMultiSig(_, p2)) => {
                lemma_keys_denoted_once(p@, p2@, t.args@.subrange(1, t.args@.len() as int));
            },
            (F::And(l, r), F::And(l2, r2)) => {
                l.lemma_denoted_once(l2, t.args@[0]);
                r.lemma_denoted_once(r2, t.args@[1]);
            },
            (F::CascadeOr(l, r), F::CascadeOr(l2, r2)) => {
                l.lemma_denoted_once(l2, t.args@[0]);
                r.lemma_denoted_once(r2, t.args@[1]);
            },
            (F::SwitchOr(l, r), F::SwitchOr(l2, r2)) => {
                l.lemma_denoted_once(l2, t.args@[0]);
                r.lemma_denoted_once(r2, t.args@[1]);
            },
            (F::SwitchOrV(l, r), F::SwitchOrV(l2, r2)) => {
                l.lemma_denoted_once(l2, t.args@[0]);
                r.lemma_denoted_once(r2, t.args@[1]);
            },
            _ => {},
        }
    }
}

impl V<PublicKey> {
    /// A tree names at most one fragment of this kind.
    pub proof fn lemma_denoted_once(&self, o: &Self, t: Tree)
        requires
            self.denoted_by(t),
            o.denoted_by(t),
        ensures
            self.same(*o),
        decreases *self,
    {
        lemma_names();
        match (self, o) {
            (V::CheckSig(p), V::CheckSig(p2)) => {
                assert(p.bytes =~= p2.bytes);
            },
            (V::HashEqual(h), V::HashEqual(h2)) => {
                assert(h.bytes =~= h2.bytes);
            },
            (V::Threshold(_, e, ws), V::Threshold(_, e2, ws2)) => {
                e.lemma_denoted_once(e2, t.args@[1]);
                lemma_ws_denoted_once(ws@, ws2@, t.args@.subrange(2, t.args@.len() as int));
            },
            (V::CheckMultiSig(_, p), V::CheckMultiSig(_, p2)) => {
                lemma_keys_denoted_once(p@, p2@, t.args@.subrange(1, t.args@.len() as int));
            },
            (V::And(l, r), V::And(l2, r2)) => {
                l.lemma_denoted_once(l2, t.args@[0]);
                r.lemma_denoted_once(r2, t.args@[1]);
            },
            (V::CascadeOr(l, r), V::CascadeOr(l2, r2)) => {
                l.lemma_denoted_once(l2, t.args@[0]);
                r.lemma_denoted_once(r2, t.args@[1]);
            },
            (V::SwitchOr(l, r), V::SwitchOr(l2, r2)) => {
                l.lemma_denoted_once(l2, t.args@[0]);
                r.lemma_denoted_once(r2, t.args@[1]);
            },
            (V::SwitchOrT(l, r), V::SwitchOrT(l2, r2)) => {
                l.lemma_denoted_once(l2, t.args@[0]);
                r.lemma_denoted_once(r2, t.args@[1]);
            },
            _ => {},
        }
    }
}

impl T<PublicKey> {
    /// A tree names at most one fragment of this kind.
    pub proof fn lemma_denoted_once(&self, o: &Self, t: Tree)
        requires
            self.denoted_by(t),
            o.denoted_by(t),
        ensures
            self.same(*o),
        decreases *self,
    {
        lemma_names();
        match (self, o) {
            (T::HashEqual(h), T::HashEqual(h2)) => {
                assert(h.bytes =~= h2.bytes);
            },
            (T::And(l, r), T::And(l2, r2)) => {
                l.lemma_denoted_once(l2, t.args@[0]);
                r.lemma_denoted_once(r2, t.args@[1]);
            },
            (T::ParallelOr(l, r), T::ParallelOr(l2, r2)) => {
                l.lemma_denoted_once(l2, t.args@[0]);
                r.lemma_denoted_once(r2, t.args@[1]);
            },
            (T::CascadeOr(l, r), T::CascadeOr(l2, r2)) => {
                l.lemma_denoted_once(l2, t.args@[0]);
                r.lemma_denoted_once(r2, t.args@[1]);
            },
            (T::CascadeOrV(l, r), T::CascadeOrV(l2, r2)) => {
                l.lemma_denoted_once(l2, t.args@[0]);
                r.lemma_denoted_once(r2, t.args@[1]);
            },
            (T::SwitchOr(l, r), T::SwitchOr(l2, r2)) => {
                l.lemma_denoted_once(l2, t.args@[0]);
                r.lemma_denoted_once(r2, t.args@[1]);
            },
            (T::SwitchOrV(l, r), T::SwitchOrV(l2, r2)) => {
                l.lemma_denoted_once(l2, t.args@[0]);
                r.lemma_denoted_once(r2, t.args@[1]);
            },
            (T::CastE(e), T::CastE(e2)) => {
                e.lemma_denoted_once(e2, t);
            },
            _ => {},
        }
    }
}

} // verus!
