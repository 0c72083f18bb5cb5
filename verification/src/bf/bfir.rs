use vstd::prelude::*;
use vstd::string::StringExecFns;
use crate::ir::{OpKind, ValueV};
use crate::ir::lir;
use crate::ir::lir::{LOpV, LBranchV, LBlockV};

verus! {

// Memory model: two interleaved regions. Logical cell k lives at
// physical cell 2k; odd cells hold the dispatch register (1) and the
// emitter scratch cells (3, 5, 7, 9).

/// Structured view of a primitive stream: the eight primitives, with
/// loops nested rather than flat brackets.
pub enum BfNode {
    Inc,
    Dec,
    MoveL,
    MoveR,
    Read,
    Write,
    Loop(Seq<BfNode>),
}

/// The character a simple (non-loop) node renders to.
pub open spec fn simple_char(n: BfNode) -> char {
    match n {
        BfNode::Inc => '+',
        BfNode::Dec => '-',
        BfNode::MoveL => '<',
        BfNode::MoveR => '>',
        BfNode::Read => ',',
        BfNode::Write => '.',
        BfNode::Loop(_) => ' ',
    }
}

pub open spec fn render_node(n: BfNode) -> Seq<char>
    decreases n,
{
    match n {
        BfNode::Loop(body) => seq!['['] + render(body) + seq![']'],
        _ => seq![simple_char(n)],
    }
}

/// The characters of a node sequence.
pub open spec fn render(ns: Seq<BfNode>) -> Seq<char>
    decreases ns,
{
    if ns.len() == 0 {
        Seq::<char>::empty()
    } else {
        render_node(ns[0]) + render(ns.drop_first())
    }
}

pub proof fn lemma_render_concat(a: Seq<BfNode>, b: Seq<BfNode>)
    ensures
        render(a + b) == render(a) + render(b),
    decreases a.len(),
{
    if a.len() == 0 {
        assert(a + b =~= b);
        assert(render(a) + render(b) =~= render(b));
    } else {
        assert((a + b).drop_first() =~= a.drop_first() + b);
        lemma_render_concat(a.drop_first(), b);
        assert(render(a + b) =~= render(a) + render(b));
    }
}

/// `n` copies of one node.
pub open spec fn rep(n: nat, x: BfNode) -> Seq<BfNode> {
    Seq::new(n, |i: int| x)
}

pub proof fn lemma_render_rep_simple(n: nat, x: BfNode)
    requires
        !(x matches BfNode::Loop(_)),
    ensures
        render(rep(n, x)) =~= Seq::new(n, |i: int| simple_char(x)),
    decreases n,
{
    if n == 0 {
        assert(rep(n, x).len() == 0);
    } else {
        assert(rep(n, x)[0] == x);
        assert(render_node(x) == seq![simple_char(x)]);
        assert(rep(n, x).drop_first() =~= rep((n - 1) as nat, x));
        lemma_render_rep_simple((n - 1) as nat, x);
        assert(render(rep(n, x)) == render_node(x) + render(rep(n, x).drop_first()));
        assert(render(rep(n, x)) =~= seq![simple_char(x)] + render(rep((n - 1) as nat, x)));
    }
}

/// Rendering one node.
pub proof fn lemma_render_singleton(x: BfNode)
    ensures
        render(seq![x]) == render_node(x),
{
    assert(seq![x].drop_first() =~= Seq::<BfNode>::empty());
    assert(render(Seq::<BfNode>::empty()) =~= Seq::<char>::empty());
    assert(render(seq![x]) == render_node(seq![x][0]) + render(seq![x].drop_first()));
    assert(seq![x][0] == x);
    assert(render_node(x) + Seq::<char>::empty() =~= render_node(x));
}

/// The zeroing loop renders to the three characters of `[-]`.
pub proof fn lemma_render_zero_loop()
    ensures
        render(seq![BfNode::Loop(seq![BfNode::Dec])]) =~= seq!['[', '-', ']'],
{
    lemma_render_singleton(BfNode::Dec);
    lemma_render_singleton(BfNode::Loop(seq![BfNode::Dec]));
    assert(render(seq![BfNode::Dec]) =~= seq!['-']);
}

// ------------------------------------------------------------------
// Fragments: each helper is a pure function from offsets to a node
// sequence; all fragments start and end with the head at cell 0.
// ------------------------------------------------------------------

pub open spec fn f_right(n: nat) -> Seq<BfNode> {
    rep(n, BfNode::MoveR)
}

pub open spec fn f_left(n: nat) -> Seq<BfNode> {
    rep(n, BfNode::MoveL)
}

/// `zero(a)`: set cell `a` to 0.
pub open spec fn f_zero(a: nat) -> Seq<BfNode> {
    f_right(a) + seq![BfNode::Loop(seq![BfNode::Dec])] + f_left(a)
}

/// `set(a, v)`: zero cell `a`, then increment it `v` times.
pub open spec fn f_set(a: nat, v: u8) -> Seq<BfNode> {
    f_right(a) + seq![BfNode::Loop(seq![BfNode::Dec])] + rep(v as nat, BfNode::Inc) + f_left(a)
}

/// `add_zeroing(from, to)`: `to += from; from = 0`.
pub open spec fn f_add_zeroing(from: nat, to: nat) -> Seq<BfNode> {
    f_right(from) + seq![
        BfNode::Loop(
            seq![BfNode::Dec] + f_left(from) + f_right(to) + seq![BfNode::Inc] + f_left(to)
                + f_right(from),
        ),
    ] + f_left(from)
}

/// `sub_zeroing(from, to)`: `to -= from; from = 0`.
pub open spec fn f_sub_zeroing(from: nat, to: nat) -> Seq<BfNode> {
    f_right(from) + seq![
        BfNode::Loop(
            seq![BfNode::Dec] + f_left(from) + f_right(to) + seq![BfNode::Dec] + f_left(to)
                + f_right(from),
        ),
    ] + f_left(from)
}

/// `add_preserve(from, to, scratch)`: `to += from`, `from` kept, via the
/// scratch cell, which ends at 0.
pub open spec fn f_add_preserve(from: nat, to: nat, scratch: nat) -> Seq<BfNode> {
    f_zero(scratch) + f_add_zeroing(from, scratch) + f_right(scratch) + seq![
        BfNode::Loop(
            seq![BfNode::Dec] + f_left(scratch) + f_right(from) + seq![BfNode::Inc] + f_left(from)
                + f_right(to) + seq![BfNode::Inc] + f_left(to) + f_right(scratch),
        ),
    ] + f_left(scratch)
}

/// `sub_preserve(from, to, scratch)`: `to -= from`, `from` kept.
pub open spec fn f_sub_preserve(from: nat, to: nat, scratch: nat) -> Seq<BfNode> {
    f_zero(scratch) + f_add_zeroing(from, scratch) + f_right(scratch) + seq![
        BfNode::Loop(
            seq![BfNode::Dec] + f_left(scratch) + f_right(from) + seq![BfNode::Inc] + f_left(from)
                + f_right(to) + seq![BfNode::Dec] + f_left(to) + f_right(scratch),
        ),
    ] + f_left(scratch)
}

/// `not(a, scratch)`: `a = (a == 0 ? 1 : 0)`.
pub open spec fn f_not(a: nat, scratch: nat) -> Seq<BfNode> {
    f_zero(scratch) + f_right(a) + seq![
        BfNode::Loop(
            f_left(a) + f_right(scratch) + seq![BfNode::Inc] + f_left(scratch) + f_right(a) + seq![
                BfNode::Loop(seq![BfNode::Dec]),
            ],
        ),
    ] + seq![BfNode::Inc] + f_left(a) + f_right(scratch) + seq![
        BfNode::Loop(
            f_left(scratch) + f_right(a) + seq![BfNode::Dec] + f_left(a) + f_right(scratch)
                + seq![BfNode::Dec],
        ),
    ] + f_left(scratch)
}

// ------------------------------------------------------------------
// Executable fragment builders; each returns exactly the rendering of
// its fragment.
// ------------------------------------------------------------------

/// `n` copies of a one-character piece.
#[verifier::loop_isolation(false)]
fn repeat_piece(piece: &str, n: usize) -> (r: String)
    requires
        piece@.len() == 1,
    ensures
        r@ =~= Seq::new(n as nat, |i: int| piece@[0]),
{
    let mut s = String::new();
    let mut i: usize = 0;
    while i < n
        invariant
            i <= n,
            s@ =~= Seq::new(i as nat, |j: int| piece@[0]),
        decreases n - i,
    {
        s.append(piece);
        i = i + 1;
    }
    s
}

fn rights(n: usize) -> (r: String)
    ensures
        r@ =~= render(f_right(n as nat)),
{
    proof {
        reveal_strlit(">");
        lemma_render_rep_simple(n as nat, BfNode::MoveR);
    }
    repeat_piece(">", n)
}

fn lefts(n: usize) -> (r: String)
    ensures
        r@ =~= render(f_left(n as nat)),
{
    proof {
        reveal_strlit("<");
        lemma_render_rep_simple(n as nat, BfNode::MoveL);
    }
    repeat_piece("<", n)
}

fn incs(n: usize) -> (r: String)
    ensures
        r@ =~= render(rep(n as nat, BfNode::Inc)),
{
    proof {
        reveal_strlit("+");
        lemma_render_rep_simple(n as nat, BfNode::Inc);
    }
    repeat_piece("+", n)
}

/// `zero(a)` as text: `>`^a `[-]` `<`^a.
fn zero_byte(offs: usize) -> (r: String)
    ensures
        r@ =~= render(f_zero(offs as nat)),
{
    let mut s = rights(offs);
    s.append("[-]");
    let l = lefts(offs);
    s.append(l.as_str());
    proof {
        reveal_strlit("[-]");
        lemma_render_zero_loop();
        lemma_render_concat(f_right(offs as nat), seq![BfNode::Loop(seq![BfNode::Dec])]);
        lemma_render_concat(
            f_right(offs as nat) + seq![BfNode::Loop(seq![BfNode::Dec])],
            f_left(offs as nat),
        );
        assert(render(seq![BfNode::Loop(seq![BfNode::Dec])]) =~= "[-]"@);
    }
    s
}

/// `set(tgt, byte)` as text: `>`^tgt `[-]` `+`^byte `<`^tgt.
fn set_byte(tgt: usize, byte: u8) -> (r: String)
    ensures
        r@ =~= render(f_set(tgt as nat, byte)),
{
    let mut s = rights(tgt);
    s.append("[-]");
    let i = incs(byte as usize);
    s.append(i.as_str());
    let l = lefts(tgt);
    s.append(l.as_str());
    proof {
        reveal_strlit("[-]");
        let a = f_right(tgt as nat);
        let b = seq![BfNode::Loop(seq![BfNode::Dec])];
        let c = rep(byte as nat, BfNode::Inc);
        let d = f_left(tgt as nat);
        lemma_render_zero_loop();
        lemma_render_concat(a, b);
        lemma_render_concat(a + b, c);
        lemma_render_concat(a + b + c, d);
        assert(render(b) =~= "[-]"@);
    }
    s
}

/// One transfer loop: `[-` `<`^at `>`^q `(+|-)` `<`^q `>`^at `]`, run at
/// cell `at`, stepping cell `q`.
fn xfer_loop(at: usize, q: usize, inc: bool) -> (r: String)
    ensures
        r@ =~= render(
            seq![
                BfNode::Loop(
                    seq![BfNode::Dec] + f_left(at as nat) + f_right(q as nat) + seq![
                        if inc {
                            BfNode::Inc
                        } else {
                            BfNode::Dec
                        },
                    ] + f_left(q as nat) + f_right(at as nat),
                ),
            ],
        ),
{
    let mut s = String::new();
    s.append("[-");
    let l1 = lefts(at);
    s.append(l1.as_str());
    let r1 = rights(q);
    s.append(r1.as_str());
    if inc {
        s.append("+");
    } else {
        s.append("-");
    }
    let l2 = lefts(q);
    s.append(l2.as_str());
    let r2 = rights(at);
    s.append(r2.as_str());
    s.append("]");
    proof {
        reveal_strlit("[-");
        reveal_strlit("+");
        reveal_strlit("-");
        reveal_strlit("]");
        reveal_strlit("[");
        let step = (
            if inc {
                BfNode::Inc
            } else {
                BfNode::Dec
            }
        );
        let body = seq![BfNode::Dec] + f_left(at as nat) + f_right(q as nat) + seq![step] + f_left(
            q as nat,
        ) + f_right(at as nat);
        lemma_render_singleton(BfNode::Dec);
        lemma_render_singleton(step);
        lemma_render_singleton(BfNode::Loop(body));
        lemma_render_concat(seq![BfNode::Dec], f_left(at as nat));
        lemma_render_concat(seq![BfNode::Dec] + f_left(at as nat), f_right(q as nat));
        lemma_render_concat(
            seq![BfNode::Dec] + f_left(at as nat) + f_right(q as nat),
            seq![step],
        );
        lemma_render_concat(
            seq![BfNode::Dec] + f_left(at as nat) + f_right(q as nat) + seq![step],
            f_left(q as nat),
        );
        lemma_render_concat(
            seq![BfNode::Dec] + f_left(at as nat) + f_right(q as nat) + seq![step] + f_left(
                q as nat,
            ),
            f_right(at as nat),
        );
        assert(render(seq![BfNode::Loop(body)]) =~= seq!['['] + render(body) + seq![']']);
        assert(s@ =~= seq!['['] + render(body) + seq![']']);
    }
    s
}

/// `add_zeroing(from, to)` as text.
fn add_byte_zeroing(from: usize, to: usize) -> (r: String)
    ensures
        r@ =~= render(f_add_zeroing(from as nat, to as nat)),
{
    let mut s = rights(from);
    let x = xfer_loop(from, to, true);
    s.append(x.as_str());
    let l = lefts(from);
    s.append(l.as_str());
    proof {
        let a = f_right(from as nat);
        let body = seq![BfNode::Dec] + f_left(from as nat) + f_right(to as nat) + seq![BfNode::Inc]
            + f_left(to as nat) + f_right(from as nat);
        lemma_render_concat(a, seq![BfNode::Loop(body)]);
        lemma_render_concat(a + seq![BfNode::Loop(body)], f_left(from as nat));
    }
    s
}

/// `sub_zeroing(from, to)` as text.
fn sub_byte_zeroing(from: usize, to: usize) -> (r: String)
    ensures
        r@ =~= render(f_sub_zeroing(from as nat, to as nat)),
{
    let mut s = rights(from);
    let x = xfer_loop(from, to, false);
    s.append(x.as_str());
    let l = lefts(from);
    s.append(l.as_str());
    proof {
        let a = f_right(from as nat);
        let body = seq![BfNode::Dec] + f_left(from as nat) + f_right(to as nat) + seq![BfNode::Dec]
            + f_left(to as nat) + f_right(from as nat);
        lemma_render_concat(a, seq![BfNode::Loop(body)]);
        lemma_render_concat(a + seq![BfNode::Loop(body)], f_left(from as nat));
    }
    s
}

/// One double-target restore loop: `[-` `<`^s `>`^from `+` `<`^from
/// `>`^to `(+|-)` `<`^to `>`^s `]`.
fn restore_loop(s_off: usize, from: usize, to: usize, inc: bool) -> (r: String)
    ensures
        r@ =~= render(
            seq![
                BfNode::Loop(
                    seq![BfNode::Dec] + f_left(s_off as nat) + f_right(from as nat) + seq![
                        BfNode::Inc,
                    ] + f_left(from as nat) + f_right(to as nat) + seq![
                        if inc {
                            BfNode::Inc
                        } else {
                            BfNode::Dec
                        },
                    ] + f_left(to as nat) + f_right(s_off as nat),
                ),
            ],
        ),
{
    let mut s = String::new();
    s.append("[-");
    let l1 = lefts(s_off);
    s.append(l1.as_str());
    let r1 = rights(from);
    s.append(r1.as_str());
    s.append("+");
    let l2 = lefts(from);
    s.append(l2.as_str());
    let r2 = rights(to);
    s.append(r2.as_str());
    if inc {
        s.append("+");
    } else {
        s.append("-");
    }
    let l3 = lefts(to);
    s.append(l3.as_str());
    let r3 = rights(s_off);
    s.append(r3.as_str());
    s.append("]");
    proof {
        reveal_strlit("[-");
        reveal_strlit("+");
        reveal_strlit("-");
        reveal_strlit("]");
        let step = (
            if inc {
                BfNode::Inc
            } else {
                BfNode::Dec
            }
        );
        let p1 = seq![BfNode::Dec] + f_left(s_off as nat);
        let p2 = p1 + f_right(from as nat);
        let p3 = p2 + seq![BfNode::Inc];
        let p4 = p3 + f_left(from as nat);
        let p5 = p4 + f_right(to as nat);
        let p6 = p5 + seq![step];
        let p7 = p6 + f_left(to as nat);
        let body = p7 + f_right(s_off as nat);
        lemma_render_singleton(BfNode::Dec);
        lemma_render_singleton(BfNode::Inc);
        lemma_render_singleton(step);
        lemma_render_singleton(BfNode::Loop(body));
        lemma_render_concat(seq![BfNode::Dec], f_left(s_off as nat));
        lemma_render_concat(p1, f_right(from as nat));
        lemma_render_concat(p2, seq![BfNode::Inc]);
        lemma_render_concat(p3, f_left(from as nat));
        lemma_render_concat(p4, f_right(to as nat));
        lemma_render_concat(p5, seq![step]);
        lemma_render_concat(p6, f_left(to as nat));
        lemma_render_concat(p7, f_right(s_off as nat));
        assert(s@ =~= seq!['['] + render(body) + seq![']']);
    }
    s
}

/// `add_preserve(from, to, scratch)` as text.
fn add_byte_preserve(from: usize, to: usize, scratch: usize) -> (r: String)
    ensures
        r@ =~= render(f_add_preserve(from as nat, to as nat, scratch as nat)),
{
    let mut s = zero_byte(scratch);
    let az = add_byte_zeroing(from, scratch);
    s.append(az.as_str());
    let rr = rights(scratch);
    s.append(rr.as_str());
    let rl = restore_loop(scratch, from, to, true);
    s.append(rl.as_str());
    let ll = lefts(scratch);
    s.append(ll.as_str());
    proof {
        let body = seq![BfNode::Dec] + f_left(scratch as nat) + f_right(from as nat) + seq![
            BfNode::Inc,
        ] + f_left(from as nat) + f_right(to as nat) + seq![BfNode::Inc] + f_left(to as nat)
            + f_right(scratch as nat);
        let a = f_zero(scratch as nat);
        let b = f_add_zeroing(from as nat, scratch as nat);
        let c = f_right(scratch as nat);
        let d = seq![BfNode::Loop(body)];
        lemma_render_concat(a, b);
        lemma_render_concat(a + b, c);
        lemma_render_concat(a + b + c, d);
        lemma_render_concat(a + b + c + d, f_left(scratch as nat));
    }
    s
}

/// `sub_preserve(from, to, scratch)` as text.
fn sub_byte_preserve(from: usize, to: usize, scratch: usize) -> (r: String)
    ensures
        r@ =~= render(f_sub_preserve(from as nat, to as nat, scratch as nat)),
{
    let mut s = zero_byte(scratch);
    let az = add_byte_zeroing(from, scratch);
    s.append(az.as_str());
    let rr = rights(scratch);
    s.append(rr.as_str());
    let rl = restore_loop(scratch, from, to, false);
    s.append(rl.as_str());
    let ll = lefts(scratch);
    s.append(ll.as_str());
    proof {
        let body = seq![BfNode::Dec] + f_left(scratch as nat) + f_right(from as nat) + seq![
            BfNode::Inc,
        ] + f_left(from as nat) + f_right(to as nat) + seq![BfNode::Dec] + f_left(to as nat)
            + f_right(scratch as nat);
        let a = f_zero(scratch as nat);
        let b = f_add_zeroing(from as nat, scratch as nat);
        let c = f_right(scratch as nat);
        let d = seq![BfNode::Loop(body)];
        lemma_render_concat(a, b);
        lemma_render_concat(a + b, c);
        lemma_render_concat(a + b + c, d);
        lemma_render_concat(a + b + c + d, f_left(scratch as nat));
    }
    s
}

/// `not(a, scratch)` as text.
#[verifier::rlimit(80)]
fn not_byte(offs: usize, scratch: usize) -> (r: String)
    ensures
        r@ =~= render(f_not(offs as nat, scratch as nat)),
{
    let mut s = zero_byte(scratch);
    let r1 = rights(offs);
    s.append(r1.as_str());
    s.append("[");
    let l1 = lefts(offs);
    s.append(l1.as_str());
    let r2 = rights(scratch);
    s.append(r2.as_str());
    s.append("+");
    let l2 = lefts(scratch);
    s.append(l2.as_str());
    let r3 = rights(offs);
    s.append(r3.as_str());
    s.append("[-]]+");
    let l3 = lefts(offs);
    s.append(l3.as_str());
    let r4 = rights(scratch);
    s.append(r4.as_str());
    s.append("[");
    let l4 = lefts(scratch);
    s.append(l4.as_str());
    let r5 = rights(offs);
    s.append(r5.as_str());
    s.append("-");
    let l5 = lefts(offs);
    s.append(l5.as_str());
    let r6 = rights(scratch);
    s.append(r6.as_str());
    s.append("-]");
    let l6 = lefts(scratch);
    s.append(l6.as_str());
    proof {
        reveal_strlit("[");
        reveal_strlit("+");
        reveal_strlit("-");
        reveal_strlit("[-]]+");
        reveal_strlit("-]");
        let a = offs as nat;
        let sc = scratch as nat;
        let body1 = f_left(a) + f_right(sc) + seq![BfNode::Inc] + f_left(sc) + f_right(a) + seq![
            BfNode::Loop(seq![BfNode::Dec]),
        ];
        let body2 = f_left(sc) + f_right(a) + seq![BfNode::Dec] + f_left(a) + f_right(sc) + seq![
            BfNode::Dec,
        ];
        lemma_render_singleton(BfNode::Inc);
        lemma_render_singleton(BfNode::Dec);
        lemma_render_zero_loop();
        // body1 rendering
        lemma_render_concat(f_left(a), f_right(sc));
        lemma_render_concat(f_left(a) + f_right(sc), seq![BfNode::Inc]);
        lemma_render_concat(f_left(a) + f_right(sc) + seq![BfNode::Inc], f_left(sc));
        lemma_render_concat(f_left(a) + f_right(sc) + seq![BfNode::Inc] + f_left(sc), f_right(a));
        lemma_render_concat(
            f_left(a) + f_right(sc) + seq![BfNode::Inc] + f_left(sc) + f_right(a),
            seq![BfNode::Loop(seq![BfNode::Dec])],
        );
        // body2 rendering
        lemma_render_concat(f_left(sc), f_right(a));
        lemma_render_concat(f_left(sc) + f_right(a), seq![BfNode::Dec]);
        lemma_render_concat(f_left(sc) + f_right(a) + seq![BfNode::Dec], f_left(a));
        lemma_render_concat(f_left(sc) + f_right(a) + seq![BfNode::Dec] + f_left(a), f_right(sc));
        lemma_render_concat(
            f_left(sc) + f_right(a) + seq![BfNode::Dec] + f_left(a) + f_right(sc),
            seq![BfNode::Dec],
        );
        // whole fragment
        let q1 = f_zero(sc);
        let q2 = q1 + f_right(a);
        let q3 = q2 + seq![BfNode::Loop(body1)];
        let q4 = q3 + seq![BfNode::Inc];
        let q5 = q4 + f_left(a);
        let q6 = q5 + f_right(sc);
        let q7 = q6 + seq![BfNode::Loop(body2)];
        lemma_render_singleton(BfNode::Loop(body1));
        lemma_render_singleton(BfNode::Loop(body2));
        lemma_render_concat(q1, f_right(a));
        lemma_render_concat(q2, seq![BfNode::Loop(body1)]);
        lemma_render_concat(q3, seq![BfNode::Inc]);
        lemma_render_concat(q4, f_left(a));
        lemma_render_concat(q5, f_right(sc));
        lemma_render_concat(q6, seq![BfNode::Loop(body2)]);
        lemma_render_concat(q7, f_left(sc));
        assert(s@ =~= render(q7 + f_left(sc)));
    }
    s
}


/// Emitter scratch cells (physical, odd so they never collide with
/// logical cells at even positions).
pub const SCRATCH_1: usize = 5;

pub const SCRATCH_2: usize = 7;

pub const SCRATCH_3: usize = 9;

/// Emitter instructions: per-byte arithmetic and I/O on logical
/// offsets, plus the block-trailing control instructions.
#[derive(Debug, Clone, Copy, PartialEq)]
pub enum Instr {
    ByteAdd { tgt: usize, arg0: usize, arg1: usize },
    ByteSub { tgt: usize, arg0: usize, arg1: usize },
    ByteEq { tgt: usize, arg0: usize, arg1: usize },
    ByteOut(usize),
    ByteIn(usize),
    ByteIncr(usize),
    ByteDecr(usize),
    ByteSet(usize, u8),
    Memcopy { from: usize, to: usize, num: usize },
    Exit,
    Goto(usize),
    If(usize, usize, usize),
    Return,
}

/// The clearing walk of `Memcopy`: zero each destination cell, moving
/// two physical cells at a time.
pub open spec fn mc_clear(k: nat) -> Seq<BfNode>
    decreases k,
{
    if k == 0 {
        Seq::<BfNode>::empty()
    } else {
        mc_clear((k - 1) as nat) + seq![
            BfNode::Loop(seq![BfNode::Dec]),
            BfNode::MoveR,
            BfNode::MoveR,
        ]
    }
}

/// The copying walk of `Memcopy`: per byte, zero the destination and
/// add the source into it preserving the source.
pub open spec fn mc_copy(from: nat, to: nat, k: nat) -> Seq<BfNode>
    decreases k,
{
    if k == 0 {
        Seq::<BfNode>::empty()
    } else {
        mc_copy(from, to, (k - 1) as nat) + f_zero(2 * (to + k - 1) as nat)
            + f_add_preserve(2 * (from + k - 1) as nat, 2 * (to + k - 1) as nat, SCRATCH_1 as nat)
    }
}

/// The nodes of the fixed return-path sequence.
pub open spec fn f_return() -> Seq<BfNode> {
    seq![
        BfNode::MoveL,
        BfNode::Inc,
        BfNode::Loop(
            seq![
                BfNode::Dec,
                BfNode::Loop(
                    seq![BfNode::MoveR, BfNode::MoveR, BfNode::Dec, BfNode::MoveR, BfNode::MoveR],
                ),
                BfNode::MoveL,
                BfNode::MoveL,
                BfNode::Inc,
            ],
        ),
        BfNode::MoveL,
        BfNode::MoveL,
        BfNode::MoveL,
    ]
}

/// The code fragment of one instruction, on the interleaved memory
/// model: logical offset `k` lives at physical cell `2k`.
pub open spec fn f_instr(i: Instr) -> Seq<BfNode> {
    match i {
        Instr::ByteAdd { tgt, arg0, arg1 } => f_zero(2 * tgt as nat) + f_add_preserve(
            2 * arg0 as nat,
            2 * tgt as nat,
            SCRATCH_1 as nat,
        ) + f_add_preserve(2 * arg1 as nat, 2 * tgt as nat, SCRATCH_1 as nat),
        Instr::ByteSub { tgt, arg0, arg1 } => f_zero(2 * tgt as nat) + f_add_preserve(
            2 * arg0 as nat,
            2 * tgt as nat,
            SCRATCH_1 as nat,
        ) + f_sub_preserve(2 * arg1 as nat, 2 * tgt as nat, SCRATCH_1 as nat),
        Instr::ByteEq { tgt, arg0, arg1 } => f_zero(SCRATCH_1 as nat) + f_add_preserve(
            2 * arg0 as nat,
            SCRATCH_1 as nat,
            SCRATCH_2 as nat,
        ) + f_sub_preserve(2 * arg1 as nat, SCRATCH_1 as nat, SCRATCH_2 as nat) + f_zero(
            2 * tgt as nat,
        ) + f_add_zeroing(SCRATCH_1 as nat, 2 * tgt as nat) + f_not(
            2 * tgt as nat,
            SCRATCH_2 as nat,
        ),
        Instr::ByteOut(src) => f_right(2 * src as nat) + seq![BfNode::Write] + f_left(
            2 * src as nat,
        ),
        Instr::ByteIn(tgt) => f_right(2 * tgt as nat) + seq![BfNode::Read] + f_left(2 * tgt as nat),
        Instr::ByteIncr(tgt) => f_right(2 * tgt as nat) + seq![BfNode::Inc] + f_left(2 * tgt as nat),
        Instr::ByteDecr(tgt) => f_right(2 * tgt as nat) + seq![BfNode::Dec] + f_left(2 * tgt as nat),
        Instr::ByteSet(tgt, byte) => f_set(2 * tgt as nat, byte),
        Instr::Memcopy { from, to, num } => f_right(2 * to as nat) + mc_clear(num as nat) + f_left(
            2 * (to + num) as nat,
        ) + mc_copy(from as nat, to as nat, num as nat),
        Instr::Exit => f_set(1, 0),
        Instr::Goto(id) => f_set(1, (id % 256) as u8),
        Instr::If(pred, if_true, if_false) => f_set(SCRATCH_1 as nat, 0) + f_add_preserve(
            2 * pred as nat,
            SCRATCH_1 as nat,
            SCRATCH_2 as nat,
        ) + f_set(SCRATCH_2 as nat, 0) + f_set(1, (if_false % 256) as u8) + f_right(
            SCRATCH_1 as nat,
        ) + seq![
            BfNode::Loop(
                f_left(SCRATCH_1 as nat) + f_set(1, (if_true % 256) as u8) + f_right(
                    SCRATCH_1 as nat,
                ) + seq![BfNode::Loop(seq![BfNode::Dec])],
            ),
        ] + f_left(SCRATCH_1 as nat),
        Instr::Return => f_return(),
    }
}

/// The offsets of an instruction stay within the machine word after
/// the two-for-one interleaving.
pub open spec fn instr_ok(i: Instr) -> bool {
    match i {
        Instr::ByteAdd { tgt, arg0, arg1 } => 2 * tgt <= usize::MAX && 2 * arg0 <= usize::MAX
            && 2 * arg1 <= usize::MAX,
        Instr::ByteSub { tgt, arg0, arg1 } => 2 * tgt <= usize::MAX && 2 * arg0 <= usize::MAX
            && 2 * arg1 <= usize::MAX,
        Instr::ByteEq { tgt, arg0, arg1 } => 2 * tgt <= usize::MAX && 2 * arg0 <= usize::MAX
            && 2 * arg1 <= usize::MAX,
        Instr::ByteOut(src) => 2 * src <= usize::MAX,
        Instr::ByteIn(tgt) => 2 * tgt <= usize::MAX,
        Instr::ByteIncr(tgt) => 2 * tgt <= usize::MAX,
        Instr::ByteDecr(tgt) => 2 * tgt <= usize::MAX,
        Instr::ByteSet(tgt, _) => 2 * tgt <= usize::MAX,
        Instr::Memcopy { from, to, num } => 2 * (from + num) <= usize::MAX && 2 * (to + num)
            <= usize::MAX,
        Instr::If(pred, _, _) => 2 * pred <= usize::MAX,
        _ => true,
    }
}

/// The `Memcopy` fragment text: clear the destination cells, then copy
/// byte by byte preserving the source.
#[verifier::loop_isolation(false)]
#[verifier::rlimit(100)]
fn memcopy_to_bf(from: usize, to: usize, num: usize) -> (r: String)
    requires
        2 * (from + num) <= usize::MAX,
        2 * (to + num) <= usize::MAX,
    ensures
        r@ =~= render(f_instr(Instr::Memcopy { from, to, num })),
{

                let mut s = rights(to * 2);
                let ghost pre = f_right(2 * (to) as nat);
                let mut i: usize = 0;
                while i < num
                    invariant
                        i <= num,
                        s@ =~= render(pre + mc_clear(i as nat)),
                    decreases num - i,
                {
                    s.append("[-]>>");
                    proof {
                        reveal_with_fuel(render, 5);
                        reveal_strlit("[-]>>");
                        lemma_render_zero_loop();
                        lemma_render_singleton(BfNode::MoveR);
                        lemma_render_concat(
                            seq![BfNode::Loop(seq![BfNode::Dec])],
                            seq![BfNode::MoveR],
                        );
                        lemma_render_concat(
                            seq![BfNode::Loop(seq![BfNode::Dec]), BfNode::MoveR],
                            seq![BfNode::MoveR],
                        );
                        assert(seq![BfNode::Loop(seq![BfNode::Dec])] + seq![BfNode::MoveR] + seq![
                            BfNode::MoveR,
                        ] =~= seq![BfNode::Loop(seq![BfNode::Dec]), BfNode::MoveR, BfNode::MoveR]);
                        assert("[-]>>"@ =~= seq!['[', '-', ']', '>', '>']);
                        assert(render(seq![BfNode::Loop(seq![BfNode::Dec]), BfNode::MoveR, BfNode::MoveR])
                            =~= seq!['[', '-', ']', '>', '>']);
                        lemma_render_concat(pre, mc_clear(i as nat));
                        lemma_render_concat(
                            mc_clear(i as nat),
                            seq![BfNode::Loop(seq![BfNode::Dec]), BfNode::MoveR, BfNode::MoveR],
                        );
                        lemma_render_concat(
                            pre,
                            mc_clear(i as nat) + seq![
                                BfNode::Loop(seq![BfNode::Dec]),
                                BfNode::MoveR,
                                BfNode::MoveR,
                            ],
                        );
                        assert(pre + (mc_clear(i as nat) + seq![
                            BfNode::Loop(seq![BfNode::Dec]),
                            BfNode::MoveR,
                            BfNode::MoveR,
                        ]) =~= pre + mc_clear(i as nat + 1));
                    }
                    i = i + 1;
                }
                let l = lefts((to + num) * 2);
                s.append(l.as_str());
                let ghost pre2 = pre + mc_clear((num) as nat) + f_left(2 * ((to) + (num)) as nat);
                proof {
                    lemma_render_concat(pre, mc_clear((num) as nat));
                    lemma_render_concat(
                        pre + mc_clear((num) as nat),
                        f_left(2 * ((to) + (num)) as nat),
                    );
                }
                let mut j: usize = 0;
                while j < num
                    invariant
                        j <= num,
                        s@ =~= render(pre2 + mc_copy((from) as nat, (to) as nat, j as nat)),
                    decreases num - j,
                {
                    let z = zero_byte((to + j) * 2);
                    s.append(z.as_str());
                    let p = add_byte_preserve((from + j) * 2, (to + j) * 2, SCRATCH_1);
                    s.append(p.as_str());
                    proof {
                        let fz = f_zero(2 * ((to) + j) as nat);
                        let fp = f_add_preserve(
                            2 * ((from) + j) as nat,
                            2 * ((to) + j) as nat,
                            SCRATCH_1 as nat,
                        );
                        let mc = mc_copy((from) as nat, (to) as nat, j as nat);
                        lemma_render_concat(pre2, mc);
                        lemma_render_concat(mc, fz);
                        lemma_render_concat(mc + fz, fp);
                        lemma_render_concat(pre2, mc + fz + fp);
                        assert(pre2 + (mc + fz + fp) =~= pre2 + mc_copy(
                            (from) as nat,
                            (to) as nat,
                            j as nat + 1,
                        ));
                    }
                    j = j + 1;
                }
                s
}

impl Instr {
    /// The text of this instruction's fragment.
    #[verifier::loop_isolation(false)]
    #[verifier::rlimit(100)]
    pub fn to_bf(&self) -> (r: String)
        requires
            instr_ok(*self),
        ensures
            r@ =~= render(f_instr(*self)),
    {
        match self {
            Instr::ByteAdd { tgt, arg0, arg1 } => {
                let mut s = zero_byte(*tgt * 2);
                let p1 = add_byte_preserve(*arg0 * 2, *tgt * 2, SCRATCH_1);
                s.append(p1.as_str());
                let p2 = add_byte_preserve(*arg1 * 2, *tgt * 2, SCRATCH_1);
                s.append(p2.as_str());
                proof {
                    let a = f_zero(2 * (*tgt) as nat);
                    let b = f_add_preserve(2 * (*arg0) as nat, 2 * (*tgt) as nat, SCRATCH_1 as nat);
                    let c = f_add_preserve(2 * (*arg1) as nat, 2 * (*tgt) as nat, SCRATCH_1 as nat);
                    lemma_render_concat(a, b);
                    lemma_render_concat(a + b, c);
                }
                s
            },
            Instr::ByteSub { tgt, arg0, arg1 } => {
                let mut s = zero_byte(*tgt * 2);
                let p1 = add_byte_preserve(*arg0 * 2, *tgt * 2, SCRATCH_1);
                s.append(p1.as_str());
                let p2 = sub_byte_preserve(*arg1 * 2, *tgt * 2, SCRATCH_1);
                s.append(p2.as_str());
                proof {
                    let a = f_zero(2 * (*tgt) as nat);
                    let b = f_add_preserve(2 * (*arg0) as nat, 2 * (*tgt) as nat, SCRATCH_1 as nat);
                    let c = f_sub_preserve(2 * (*arg1) as nat, 2 * (*tgt) as nat, SCRATCH_1 as nat);
                    lemma_render_concat(a, b);
                    lemma_render_concat(a + b, c);
                }
                s
            },
            Instr::ByteEq { tgt, arg0, arg1 } => {
                let mut s = zero_byte(SCRATCH_1);
                let p1 = add_byte_preserve(*arg0 * 2, SCRATCH_1, SCRATCH_2);
                s.append(p1.as_str());
                let p2 = sub_byte_preserve(*arg1 * 2, SCRATCH_1, SCRATCH_2);
                s.append(p2.as_str());
                let p3 = zero_byte(*tgt * 2);
                s.append(p3.as_str());
                let p4 = add_byte_zeroing(SCRATCH_1, *tgt * 2);
                s.append(p4.as_str());
                let p5 = not_byte(*tgt * 2, SCRATCH_2);
                s.append(p5.as_str());
                proof {
                    let a = f_zero(SCRATCH_1 as nat);
                    let b = f_add_preserve(2 * (*arg0) as nat, SCRATCH_1 as nat, SCRATCH_2 as nat);
                    let c = f_sub_preserve(2 * (*arg1) as nat, SCRATCH_1 as nat, SCRATCH_2 as nat);
                    let d = f_zero(2 * (*tgt) as nat);
                    let e = f_add_zeroing(SCRATCH_1 as nat, 2 * (*tgt) as nat);
                    let f = f_not(2 * (*tgt) as nat, SCRATCH_2 as nat);
                    lemma_render_concat(a, b);
                    lemma_render_concat(a + b, c);
                    lemma_render_concat(a + b + c, d);
                    lemma_render_concat(a + b + c + d, e);
                    lemma_render_concat(a + b + c + d + e, f);
                }
                s
            },
            Instr::ByteOut(src) => {
                let mut s = rights(*src * 2);
                s.append(".");
                let l = lefts(*src * 2);
                s.append(l.as_str());
                proof {
                    reveal_strlit(".");
                    lemma_render_singleton(BfNode::Write);
                    lemma_render_concat(f_right(2 * (*src) as nat), seq![BfNode::Write]);
                    lemma_render_concat(
                        f_right(2 * (*src) as nat) + seq![BfNode::Write],
                        f_left(2 * (*src) as nat),
                    );
                }
                s
            },
            Instr::ByteIn(tgt) => {
                let mut s = rights(*tgt * 2);
                s.append(",");
                let l = lefts(*tgt * 2);
                s.append(l.as_str());
                proof {
                    reveal_strlit(",");
                    lemma_render_singleton(BfNode::Read);
                    lemma_render_concat(f_right(2 * (*tgt) as nat), seq![BfNode::Read]);
                    lemma_render_concat(
                        f_right(2 * (*tgt) as nat) + seq![BfNode::Read],
                        f_left(2 * (*tgt) as nat),
                    );
                }
                s
            },
            Instr::ByteIncr(tgt) => {
                let mut s = rights(*tgt * 2);
                s.append("+");
                let l = lefts(*tgt * 2);
                s.append(l.as_str());
                proof {
                    reveal_strlit("+");
                    lemma_render_singleton(BfNode::Inc);
                    lemma_render_concat(f_right(2 * (*tgt) as nat), seq![BfNode::Inc]);
                    lemma_render_concat(
                        f_right(2 * (*tgt) as nat) + seq![BfNode::Inc],
                        f_left(2 * (*tgt) as nat),
                    );
                }
                s
            },
            Instr::ByteDecr(tgt) => {
                let mut s = rights(*tgt * 2);
                s.append("-");
                let l = lefts(*tgt * 2);
                s.append(l.as_str());
                proof {
                    reveal_strlit("-");
                    lemma_render_singleton(BfNode::Dec);
                    lemma_render_concat(f_right(2 * (*tgt) as nat), seq![BfNode::Dec]);
                    lemma_render_concat(
                        f_right(2 * (*tgt) as nat) + seq![BfNode::Dec],
                        f_left(2 * (*tgt) as nat),
                    );
                }
                s
            },
            Instr::ByteSet(tgt, byte) => set_byte(*tgt * 2, *byte),
            Instr::Memcopy { from, to, num } => memcopy_to_bf(*from, *to, *num),
            Instr::Exit => set_byte(1, 0),
            Instr::Goto(id) => {
                let b: u8 = #[verifier::truncate] (*id as u8);
                proof {
                    assert(b as nat == ((*id % 256) as u8) as nat) by (bit_vector)
                        requires b == #[verifier::truncate] (*id as u8);
                }
                set_byte(1, b)
            },
            Instr::If(pred, if_true, if_false) => {
                let mut s = set_byte(SCRATCH_1, 0);
                let p1 = add_byte_preserve(*pred * 2, SCRATCH_1, SCRATCH_2);
                s.append(p1.as_str());
                let p2 = set_byte(SCRATCH_2, 0);
                s.append(p2.as_str());
                let bf: u8 = #[verifier::truncate] (*if_false as u8);
                let bt: u8 = #[verifier::truncate] (*if_true as u8);
                proof {
                    assert(bf as nat == ((*if_false % 256) as u8) as nat) by (bit_vector)
                        requires bf == #[verifier::truncate] (*if_false as u8);
                    assert(bt as nat == ((*if_true % 256) as u8) as nat) by (bit_vector)
                        requires bt == #[verifier::truncate] (*if_true as u8);
                }
                let p3 = set_byte(1, bf);
                s.append(p3.as_str());
                let r1 = rights(SCRATCH_1);
                s.append(r1.as_str());
                s.append("[");
                let l1 = lefts(SCRATCH_1);
                s.append(l1.as_str());
                let p4 = set_byte(1, bt);
                s.append(p4.as_str());
                let r2 = rights(SCRATCH_1);
                s.append(r2.as_str());
                s.append("[-]]");
                let l2 = lefts(SCRATCH_1);
                s.append(l2.as_str());
                proof {
                    reveal_strlit("[");
                    reveal_strlit("[-]]");
                    let body = f_left(SCRATCH_1 as nat) + f_set(1, (*if_true % 256) as u8)
                        + f_right(SCRATCH_1 as nat) + seq![BfNode::Loop(seq![BfNode::Dec])];
                    lemma_render_zero_loop();
                    lemma_render_singleton(BfNode::Loop(body));
                    lemma_render_concat(f_left(SCRATCH_1 as nat), f_set(1, (*if_true % 256) as u8));
                    lemma_render_concat(
                        f_left(SCRATCH_1 as nat) + f_set(1, (*if_true % 256) as u8),
                        f_right(SCRATCH_1 as nat),
                    );
                    lemma_render_concat(
                        f_left(SCRATCH_1 as nat) + f_set(1, (*if_true % 256) as u8) + f_right(
                            SCRATCH_1 as nat,
                        ),
                        seq![BfNode::Loop(seq![BfNode::Dec])],
                    );
                    let q1 = f_set(SCRATCH_1 as nat, 0);
                    let q2 = q1 + f_add_preserve(
                        2 * (*pred) as nat,
                        SCRATCH_1 as nat,
                        SCRATCH_2 as nat,
                    );
                    let q3 = q2 + f_set(SCRATCH_2 as nat, 0);
                    let q4 = q3 + f_set(1, (*if_false % 256) as u8);
                    let q5 = q4 + f_right(SCRATCH_1 as nat);
                    let q6 = q5 + seq![BfNode::Loop(body)];
                    lemma_render_concat(
                        q1,
                        f_add_preserve(2 * (*pred) as nat, SCRATCH_1 as nat, SCRATCH_2 as nat),
                    );
                    lemma_render_concat(q2, f_set(SCRATCH_2 as nat, 0));
                    lemma_render_concat(q3, f_set(1, (*if_false % 256) as u8));
                    lemma_render_concat(q4, f_right(SCRATCH_1 as nat));
                    lemma_render_concat(q5, seq![BfNode::Loop(body)]);
                    lemma_render_concat(q6, f_left(SCRATCH_1 as nat));
                }
                s
            },
            Instr::Return => {
                let mut s = String::new();
                s.append("<+[-[>>->>]<<+]<<<");
                proof {
                    reveal_strlit("<+[-[>>->>]<<+]<<<");
                    lemma_render_return();
                }
                s
            },
        }
    }
}

/// The fixed return fragment renders to its eighteen characters.
proof fn lemma_render_return()
    ensures
        render(f_return()) =~= seq![
            '<', '+', '[', '-', '[', '>', '>', '-', '>', '>', ']', '<', '<', '+', ']', '<', '<',
            '<',
        ],
{
    reveal_with_fuel(render, 10);
    let inner = seq![BfNode::MoveR, BfNode::MoveR, BfNode::Dec, BfNode::MoveR, BfNode::MoveR];
    let outer = seq![
        BfNode::Dec,
        BfNode::Loop(inner),
        BfNode::MoveL,
        BfNode::MoveL,
        BfNode::Inc,
    ];
    assert(render(inner) =~= seq!['>', '>', '-', '>', '>']);
    assert(render(outer) =~= seq!['-', '[', '>', '>', '-', '>', '>', ']', '<', '<', '+']);
}


/// An emitter block: the LIR block id and its instruction list.
#[derive(Debug)]
pub struct Block {
    pub id: usize,
    pub instrs: Vec<Instr>,
}

/// The emitter program: entry id and blocks in LIR order.
#[derive(Debug)]
pub struct Program {
    pub entry_id: usize,
    pub blocks: Vec<Block>,
}

#[verifier::ext_equal]
pub struct BBlockV {
    pub id: nat,
    pub instrs: Seq<Instr>,
}

#[verifier::ext_equal]
pub struct BProgV {
    pub entry_id: nat,
    pub blocks: Seq<BBlockV>,
}

impl View for Block {
    type V = BBlockV;

    open spec fn view(&self) -> BBlockV {
        BBlockV { id: self.id as nat, instrs: self.instrs@ }
    }
}

impl View for Program {
    type V = BProgV;

    open spec fn view(&self) -> BProgV {
        BProgV {
            entry_id: self.entry_id as nat,
            blocks: self.blocks@.map_values(|b: Block| b@),
        }
    }
}

// ------------------------------------------------------------------
// LIR to emitter instructions.
// ------------------------------------------------------------------

/// The per-byte stores a `Decl` expands into.
pub open spec fn decl_sets(t: nat, bytes: Seq<u8>) -> Seq<Instr>
    decreases bytes.len(),
{
    if bytes.len() == 0 {
        Seq::<Instr>::empty()
    } else {
        decl_sets(t, bytes.drop_last()) + seq![
            Instr::ByteSet((t + bytes.len() - 1) as usize, bytes.last()),
        ]
    }
}

/// The instructions one LIR op expands into.
pub open spec fn expand_op(o: LOpV) -> Seq<Instr> {
    match o {
        LOpV::Binary(t, OpKind::ByteAdd, a, b) => seq![
            Instr::ByteAdd { tgt: t as usize, arg0: a as usize, arg1: b as usize },
        ],
        LOpV::Binary(t, OpKind::ByteSub, a, b) => seq![
            Instr::ByteSub { tgt: t as usize, arg0: a as usize, arg1: b as usize },
        ],
        LOpV::Binary(t, OpKind::ByteEq, a, b) => seq![
            Instr::ByteEq { tgt: t as usize, arg0: a as usize, arg1: b as usize },
        ],
        LOpV::Out(o2) => seq![Instr::ByteOut(o2 as usize)],
        LOpV::In(t) => seq![Instr::ByteIn(t as usize)],
        LOpV::Incr(t) => seq![Instr::ByteIncr(t as usize)],
        LOpV::Decr(t) => seq![Instr::ByteDecr(t as usize)],
        LOpV::Memcopy { from, to, num } => seq![
            Instr::Memcopy { from: from as usize, to: to as usize, num: num as usize },
        ],
        LOpV::Decl(t, v) => decl_sets(t, v.spec_bytes()),
        _ => Seq::<Instr>::empty(),
    }
}

pub open spec fn expand_ops(ops: Seq<LOpV>) -> Seq<Instr>
    decreases ops.len(),
{
    if ops.len() == 0 {
        Seq::<Instr>::empty()
    } else {
        expand_ops(ops.drop_last()) + expand_op(ops.last())
    }
}

/// The trailing instruction of a block's branch.
pub open spec fn branch_instr(br: LBranchV) -> Instr {
    match br {
        LBranchV::Exit => Instr::Exit,
        LBranchV::Goto(id) => Instr::Goto(id as usize),
        LBranchV::If(p, t, f) => Instr::If(p as usize, t as usize, f as usize),
        LBranchV::Return(_) => Instr::Return,
    }
}

pub open spec fn spec_block_from_lir(p: (nat, LBlockV)) -> BBlockV {
    BBlockV { id: p.0, instrs: expand_ops(p.1.ops) + seq![branch_instr(p.1.branch)] }
}

pub open spec fn spec_from_lir(lp: lir::LProgV) -> BProgV {
    BProgV {
        entry_id: lp.entry_id,
        blocks: lp.blocks.map_values(|p: (nat, LBlockV)| spec_block_from_lir(p)),
    }
}

/// The ops this stage has an emission for: everything but `Unary`,
/// `Call` and the `ByteCopy` operator.
pub open spec fn op_emittable(o: LOpV) -> bool {
    match o {
        LOpV::Binary(_, k, _, _) => !(k matches OpKind::ByteCopy),
        LOpV::Unary(_, _, _) => false,
        LOpV::Call => false,
        LOpV::Decl(t, v) => t + v.spec_bytes().len() <= usize::MAX,
        _ => true,
    }
}

pub open spec fn from_lir_inputs_ok(lp: lir::LProgV) -> bool {
    forall|bi: int, oi: int|
        0 <= bi < lp.blocks.len() && 0 <= oi < lp.blocks[bi].1.ops.len() ==> op_emittable(
            #[trigger] lp.blocks[bi].1.ops[oi],
        )
}

impl Program {
    /// Expand a LIR program into emitter instructions, block by block.
    #[verifier::loop_isolation(false)]
    pub fn from_lir(lp: &lir::Program) -> (r: Self)
        requires
            from_lir_inputs_ok(lp@),
        ensures
            r@ =~~= spec_from_lir(lp@),
    {
        let ghost lpv = lp@;
        let mut blocks: Vec<Block> = Vec::new();
        let nb = lp.blocks.len();
        let mut bi: usize = 0;
        while bi < nb
            invariant
                nb == lp.blocks@.len(),
                bi <= nb,
                blocks@.map_values(|b: Block| b@) =~~= lpv.blocks.take(bi as int).map_values(
                    |p: (nat, LBlockV)| spec_block_from_lir(p),
                ),
            decreases nb - bi,
        {
            let ghost bv = lpv.blocks[bi as int].1;
            proof {
                assert(bv == lp.blocks@[bi as int].1@);
            }
            let mut instrs: Vec<Instr> = Vec::new();
            let no = lp.blocks[bi].1.ops.len();
            let mut oi: usize = 0;
            while oi < no
                invariant
                    nb == lp.blocks@.len(),
                    bi < nb,
                    bv == lpv.blocks[bi as int].1,
                    no == bv.ops.len(),
                    oi <= no,
                    instrs@ =~= expand_ops(bv.ops.take(oi as int)),
                decreases no - oi,
            {
                proof {
                    assert(bv.ops[oi as int] == lp.blocks@[bi as int].1.ops@[oi as int]@);
                    assert(bv.ops.take(oi as int + 1).drop_last() =~= bv.ops.take(oi as int));
                    assert(bv.ops.take(oi as int + 1).last() == bv.ops[oi as int]);
                }
                match &lp.blocks[bi].1.ops[oi] {
                    lir::Op::Binary(t, k, a, b) => {
                        match k {
                            OpKind::ByteAdd => {
                                instrs.push(Instr::ByteAdd { tgt: *t, arg0: *a, arg1: *b });
                            },
                            OpKind::ByteSub => {
                                instrs.push(Instr::ByteSub { tgt: *t, arg0: *a, arg1: *b });
                            },
                            OpKind::ByteEq => {
                                instrs.push(Instr::ByteEq { tgt: *t, arg0: *a, arg1: *b });
                            },
                            OpKind::ByteCopy => {
                                proof {
                                    assert(false);
                                }
                            },
                        }
                    },
                    lir::Op::Out(src) => {
                        instrs.push(Instr::ByteOut(*src));
                    },
                    lir::Op::In(t) => {
                        instrs.push(Instr::ByteIn(*t));
                    },
                    lir::Op::Incr(t) => {
                        instrs.push(Instr::ByteIncr(*t));
                    },
                    lir::Op::Decr(t) => {
                        instrs.push(Instr::ByteDecr(*t));
                    },
                    lir::Op::Memcopy { from, to, num } => {
                        instrs.push(Instr::Memcopy { from: *from, to: *to, num: *num });
                    },
                    lir::Op::Decl(t, val) => {
                        let bytes = val.to_bytes();
                        let ghost base = expand_ops(bv.ops.take(oi as int));
                        let nby = bytes.len();
                        let mut i: usize = 0;
                        while i < nby
                            invariant
                                nby == bytes@.len(),
                                i <= nby,
                                bytes@ == val.spec_val().spec_bytes(),
                                bv.ops[oi as int] == LOpV::Decl(*t as nat, val.spec_val()),
                                *t + nby <= usize::MAX,
                                instrs@ =~= base + decl_sets(*t as nat, bytes@.take(i as int)),
                            decreases nby - i,
                        {
                            instrs.push(Instr::ByteSet(*t + i, bytes[i]));
                            proof {
                                assert(bytes@.take(i as int + 1).drop_last() =~= bytes@.take(
                                    i as int,
                                ));
                                assert(bytes@.take(i as int + 1).last() == bytes@[i as int]);
                            }
                            i = i + 1;
                        }
                        proof {
                            assert(bytes@.take(nby as int) =~= bytes@);
                        }
                    },
                    lir::Op::Unary(_, _, _) => {
                        proof {
                            assert(false);
                        }
                    },
                    lir::Op::Call {} => {
                        proof {
                            assert(false);
                        }
                    },
                }
                oi = oi + 1;
            }
            proof {
                assert(bv.ops.take(no as int) =~= bv.ops);
            }
            match &lp.blocks[bi].1.branch {
                lir::Branch::Exit => {
                    instrs.push(Instr::Exit);
                },
                lir::Branch::Goto(id) => {
                    instrs.push(Instr::Goto(*id));
                },
                lir::Branch::If(p, t, f) => {
                    instrs.push(Instr::If(*p, *t, *f));
                },
                lir::Branch::Return(_) => {
                    instrs.push(Instr::Return);
                },
            }
            let id = lp.blocks[bi].0;
            proof {
                assert(instrs@ =~= expand_ops(bv.ops) + seq![branch_instr(bv.branch)]);
            }
            let newb = Block { id, instrs };
            proof {
                assert(newb@ =~~= spec_block_from_lir(lpv.blocks[bi as int]));
            }
            let ghost prevmap = blocks@.map_values(|b: Block| b@);
            blocks.push(newb);
            proof {
                assert(lpv.blocks.take(bi as int + 1).drop_last() =~= lpv.blocks.take(bi as int));
                assert(lpv.blocks.take(bi as int + 1).last() == lpv.blocks[bi as int]);
                let newmap = blocks@.map_values(|b: Block| b@);
                let target = lpv.blocks.take(bi as int + 1).map_values(
                    |p: (nat, LBlockV)| spec_block_from_lir(p),
                );
                assert(newmap.len() == bi + 1);
                assert(forall|j: int| 0 <= j < bi ==> newmap[j] == prevmap[j]);
                assert(newmap[bi as int] == newb@);
                assert(forall|j: int|
                    0 <= j < bi + 1 ==> target[j] == spec_block_from_lir(
                        lpv.blocks.take(bi as int + 1)[j],
                    ));
                assert(forall|j: int|
                    0 <= j < bi + 1 ==> lpv.blocks.take(bi as int + 1)[j] == lpv.blocks[j]);
                assert(newmap =~~= target);
            }
            bi = bi + 1;
        }
        proof {
            assert(lpv.blocks.take(nb as int) =~= lpv.blocks);
        }
        Program { entry_id: lp.entry_id, blocks }
    }
}

// ------------------------------------------------------------------
// Whole-program emission: the block-dispatch trampoline.
// ------------------------------------------------------------------

pub open spec fn f_instrs(is: Seq<Instr>) -> Seq<BfNode>
    decreases is.len(),
{
    if is.len() == 0 {
        Seq::<BfNode>::empty()
    } else {
        f_instrs(is.drop_last()) + f_instr(is.last())
    }
}

/// One block of the trampoline: compare the dispatch register with the
/// block's id, and when they match, consume the register and run the
/// block's body.
pub open spec fn f_block(b: BBlockV) -> Seq<BfNode> {
    f_zero(3) + f_zero(5) + f_zero(7) + f_add_preserve(1, 3, 5) + f_set(5, (b.id % 256) as u8)
        + f_sub_preserve(5, 3, 7) + f_not(3, 7) + f_right(3) + seq![
        BfNode::Loop(
            f_left(3) + f_set(1, 0) + f_instrs(b.instrs) + f_right(3) + seq![
                BfNode::Loop(seq![BfNode::Dec]),
            ],
        ),
    ] + seq![BfNode::Loop(seq![BfNode::Dec])] + f_left(3)
}

pub open spec fn f_blocks(bs: Seq<BBlockV>) -> Seq<BfNode>
    decreases bs.len(),
{
    if bs.len() == 0 {
        Seq::<BfNode>::empty()
    } else {
        f_blocks(bs.drop_last()) + f_block(bs.last())
    }
}

/// The emitted program: set the dispatch register to the entry id,
/// then loop over the block dispatchers while the register is nonzero.
pub open spec fn f_program(entry: nat, bs: Seq<BBlockV>) -> Seq<BfNode> {
    f_set(1, (entry % 256) as u8) + seq![BfNode::MoveR] + seq![
        BfNode::Loop(seq![BfNode::MoveL] + f_blocks(bs) + seq![BfNode::MoveR]),
    ] + seq![BfNode::MoveL]
}

pub open spec fn block_instrs_ok(b: BBlockV) -> bool {
    forall|ii: int| 0 <= ii < b.instrs.len() ==> instr_ok(#[trigger] b.instrs[ii])
}

pub open spec fn prog_instrs_ok(pv: BProgV) -> bool {
    forall|bi: int| 0 <= bi < pv.blocks.len() ==> block_instrs_ok(#[trigger] pv.blocks[bi])
}

/// One block's dispatcher text.
#[verifier::loop_isolation(false)]
#[verifier::rlimit(100)]
fn block_to_bf(b: &Block) -> (r: String)
    requires
        block_instrs_ok(b@),
    ensures
        r@ =~= render(f_block(b@)),
{
    let mut s = zero_byte(3);
    let z5 = zero_byte(5);
    s.append(z5.as_str());
    let z7 = zero_byte(7);
    s.append(z7.as_str());
    let ap = add_byte_preserve(1, 3, 5);
    s.append(ap.as_str());
    let idv: usize = b.id;
    let idb: u8 = #[verifier::truncate] (idv as u8);
    proof {
        assert(idb as nat == ((idv % 256) as u8) as nat) by (bit_vector)
            requires idb == #[verifier::truncate] (idv as u8);
    }
    let sb = set_byte(5, idb);
    s.append(sb.as_str());
    let sp = sub_byte_preserve(5, 3, 7);
    s.append(sp.as_str());
    let nb = not_byte(3, 7);
    s.append(nb.as_str());
    let r3 = rights(3);
    s.append(r3.as_str());
    s.append("[");
    let l3 = lefts(3);
    s.append(l3.as_str());
    let consume = set_byte(1, 0);
    s.append(consume.as_str());
    let ghost pre = f_zero(3) + f_zero(5) + f_zero(7) + f_add_preserve(1, 3, 5) + f_set(
        5,
        (b@.id % 256) as u8,
    ) + f_sub_preserve(5, 3, 7) + f_not(3, 7) + f_right(3);
    let ghost body_pre = f_left(3) + f_set(1, 0);
    proof {
        reveal_strlit("[");
        lemma_render_concat(f_zero(3), f_zero(5));
        lemma_render_concat(f_zero(3) + f_zero(5), f_zero(7));
        lemma_render_concat(f_zero(3) + f_zero(5) + f_zero(7), f_add_preserve(1, 3, 5));
        lemma_render_concat(
            f_zero(3) + f_zero(5) + f_zero(7) + f_add_preserve(1, 3, 5),
            f_set(5, (b@.id % 256) as u8),
        );
        lemma_render_concat(
            f_zero(3) + f_zero(5) + f_zero(7) + f_add_preserve(1, 3, 5) + f_set(
                5,
                (b@.id % 256) as u8,
            ),
            f_sub_preserve(5, 3, 7),
        );
        lemma_render_concat(
            f_zero(3) + f_zero(5) + f_zero(7) + f_add_preserve(1, 3, 5) + f_set(
                5,
                (b@.id % 256) as u8,
            ) + f_sub_preserve(5, 3, 7),
            f_not(3, 7),
        );
        lemma_render_concat(
            f_zero(3) + f_zero(5) + f_zero(7) + f_add_preserve(1, 3, 5) + f_set(
                5,
                (b@.id % 256) as u8,
            ) + f_sub_preserve(5, 3, 7) + f_not(3, 7),
            f_right(3),
        );
        lemma_render_concat(f_left(3), f_set(1, 0));
        assert(s@ =~= render(pre) + seq!['['] + render(body_pre));
    }
    let ni = b.instrs.len();
    let mut ii: usize = 0;
    while ii < ni
        invariant
            ni == b.instrs@.len(),
            s@ =~= render(pre) + seq!['['] + render(body_pre + f_instrs(b@.instrs.take(ii as int))),
            ii <= ni,
        decreases ni - ii,
    {
        let t = b.instrs[ii].to_bf();
        s.append(t.as_str());
        proof {
            assert(b@.instrs.take(ii as int + 1).drop_last() =~= b@.instrs.take(ii as int));
            assert(b@.instrs.take(ii as int + 1).last() == b@.instrs[ii as int]);
            lemma_render_concat(body_pre, f_instrs(b@.instrs.take(ii as int)));
            lemma_render_concat(
                body_pre + f_instrs(b@.instrs.take(ii as int)),
                f_instr(b@.instrs[ii as int]),
            );
            lemma_render_concat(body_pre, f_instrs(b@.instrs.take(ii as int + 1)));
            assert(body_pre + f_instrs(b@.instrs.take(ii as int + 1)) =~= body_pre + f_instrs(
                b@.instrs.take(ii as int),
            ) + f_instr(b@.instrs[ii as int]));
        }
        ii = ii + 1;
    }
    let r3b = rights(3);
    s.append(r3b.as_str());
    s.append("[-]]");
    s.append("[-]");
    let l3b = lefts(3);
    s.append(l3b.as_str());
    proof {
        reveal_strlit("[-]]");
        reveal_strlit("[-]");
        lemma_render_zero_loop();
        assert(b@.instrs.take(ni as int) =~= b@.instrs);
        let body = body_pre + f_instrs(b@.instrs) + f_right(3) + seq![
            BfNode::Loop(seq![BfNode::Dec]),
        ];
        lemma_render_singleton(BfNode::Loop(body));
        lemma_render_concat(body_pre, f_instrs(b@.instrs));
        lemma_render_concat(body_pre + f_instrs(b@.instrs), f_right(3));
        lemma_render_concat(
            body_pre + f_instrs(b@.instrs) + f_right(3),
            seq![BfNode::Loop(seq![BfNode::Dec])],
        );
        let q1 = pre + seq![BfNode::Loop(body)];
        let q2 = q1 + seq![BfNode::Loop(seq![BfNode::Dec])];
        lemma_render_concat(pre, seq![BfNode::Loop(body)]);
        lemma_render_concat(q1, seq![BfNode::Loop(seq![BfNode::Dec])]);
        lemma_render_concat(q2, f_left(3));
        assert(s@ =~= render(q2 + f_left(3)));
        assert(f_block(b@) =~= q2 + f_left(3));
    }
    s
}

impl Program {
    /// The whole primitive stream: dispatch prologue, each block's
    /// dispatcher, and the closing of the outer loop.
    #[verifier::loop_isolation(false)]
    pub fn to_bf(&self) -> (r: String)
        requires
            prog_instrs_ok(self@),
        ensures
            r@ =~= render(f_program(self@.entry_id, self@.blocks)),
    {
        let ev: usize = self.entry_id;
        let eb: u8 = #[verifier::truncate] (ev as u8);
        proof {
            assert(eb as nat == ((ev % 256) as u8) as nat) by (bit_vector)
                requires eb == #[verifier::truncate] (ev as u8);
        }
        let mut s = set_byte(1, eb);
        s.append(">[<");
        let ghost pre = render(f_set(1, (self@.entry_id % 256) as u8)) + seq!['>', '[', '<'];
        proof {
            reveal_strlit(">[<");
        }
        let nb = self.blocks.len();
        let mut bi: usize = 0;
        while bi < nb
            invariant
                nb == self.blocks@.len(),
                bi <= nb,
                s@ =~= pre + render(f_blocks(self@.blocks.take(bi as int))),
            decreases nb - bi,
        {
            proof {
                assert(self@.blocks[bi as int] == self.blocks@[bi as int]@);
            }
            let t = block_to_bf(&self.blocks[bi]);
            s.append(t.as_str());
            proof {
                assert(self@.blocks.take(bi as int + 1).drop_last() =~= self@.blocks.take(
                    bi as int,
                ));
                assert(self@.blocks.take(bi as int + 1).last() == self@.blocks[bi as int]);
                lemma_render_concat(
                    f_blocks(self@.blocks.take(bi as int)),
                    f_block(self@.blocks[bi as int]),
                );
            }
            bi = bi + 1;
        }
        s.append(">]<");
        proof {
            reveal_strlit(">]<");
            assert(self@.blocks.take(nb as int) =~= self@.blocks);
            let body = seq![BfNode::MoveL] + f_blocks(self@.blocks) + seq![BfNode::MoveR];
            lemma_render_singleton(BfNode::MoveL);
            lemma_render_singleton(BfNode::MoveR);
            lemma_render_singleton(BfNode::Loop(body));
            lemma_render_concat(seq![BfNode::MoveL], f_blocks(self@.blocks));
            lemma_render_concat(seq![BfNode::MoveL] + f_blocks(self@.blocks), seq![BfNode::MoveR]);
            let q1 = f_set(1, (self@.entry_id % 256) as u8) + seq![BfNode::MoveR];
            let q2 = q1 + seq![BfNode::Loop(body)];
            lemma_render_concat(f_set(1, (self@.entry_id % 256) as u8), seq![BfNode::MoveR]);
            lemma_render_concat(q1, seq![BfNode::Loop(body)]);
            lemma_render_concat(q2, seq![BfNode::MoveL]);
            assert(f_program(self@.entry_id, self@.blocks) =~= q2 + seq![BfNode::MoveL]);
            assert(s@ =~= render(q2 + seq![BfNode::MoveL]));
        }
        s
    }
}

} // verus!
