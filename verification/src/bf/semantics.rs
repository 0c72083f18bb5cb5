use vstd::prelude::*;
use super::bfir::BfNode;
use crate::vm::{wrap_inc, wrap_dec};

verus! {

/// Machine state for running structured fragments: tape, head, the
/// remaining input and the output so far.
pub struct TapeSt {
    pub tape: Seq<u8>,
    pub head: nat,
    pub inp: Seq<u8>,
    pub out: Seq<u8>,
}

/// The byte under the head; out-of-range reads give 0.
pub open spec fn cellv(st: TapeSt) -> u8 {
    if st.head < st.tape.len() {
        st.tape[st.head as int]
    } else {
        0
    }
}

/// Write under the head; out-of-range writes are dropped.
pub open spec fn writev(st: TapeSt, v: u8) -> Seq<u8> {
    if st.head < st.tape.len() {
        st.tape.update(st.head as int, v)
    } else {
        st.tape
    }
}

/// Effect of one non-loop node.
pub open spec fn step_simple(n: BfNode, st: TapeSt) -> TapeSt {
    match n {
        BfNode::Inc => TapeSt { tape: writev(st, wrap_inc(cellv(st))), ..st },
        BfNode::Dec => TapeSt { tape: writev(st, wrap_dec(cellv(st))), ..st },
        BfNode::MoveL => TapeSt {
            head: if st.head == 0 {
                0
            } else {
                (st.head - 1) as nat
            },
            ..st
        },
        BfNode::MoveR => TapeSt {
            head: if st.head + 1 < st.tape.len() {
                st.head + 1
            } else {
                if st.tape.len() == 0 {
                    0
                } else {
                    (st.tape.len() - 1) as nat
                }
            },
            ..st
        },
        BfNode::Read => TapeSt {
            tape: writev(
                st,
                if st.inp.len() > 0 {
                    st.inp[0]
                } else {
                    0
                },
            ),
            inp: if st.inp.len() > 0 {
                st.inp.drop_first()
            } else {
                st.inp
            },
            ..st
        },
        BfNode::Write => TapeSt { out: st.out.push(cellv(st)), ..st },
        BfNode::Loop(_) => st,
    }
}

/// Run a node sequence with a loop-iteration budget.
pub open spec fn run_nodes(code: Seq<BfNode>, st: TapeSt, fuel: nat) -> Option<TapeSt>
    decreases fuel, code.len(),
{
    if code.len() == 0 {
        Some(st)
    } else {
        match code[0] {
            BfNode::Loop(body) => {
                if cellv(st) == 0 {
                    run_nodes(code.drop_first(), st, fuel)
                } else if fuel == 0 {
                    None
                } else {
                    match run_nodes(body, st, (fuel - 1) as nat) {
                        Some(st2) => run_nodes(code, st2, (fuel - 1) as nat),
                        None => None,
                    }
                }
            },
            _ => run_nodes(code.drop_first(), step_simple(code[0], st), fuel),
        }
    }
}

/// The fragment, run with enough budget, goes from `st` to `r`.
pub open spec fn runs_to(code: Seq<BfNode>, st: TapeSt, r: TapeSt) -> bool {
    exists|fuel: nat| run_nodes(code, st, fuel) == Some(r)
}

proof fn lemma_fuel_mono(code: Seq<BfNode>, st: TapeSt, f: nat, g: nat)
    requires
        run_nodes(code, st, f) is Some,
        f <= g,
    ensures
        run_nodes(code, st, g) == run_nodes(code, st, f),
    decreases f, code.len(),
{
    if code.len() == 0 {
    } else {
        match code[0] {
            BfNode::Loop(body) => {
                if cellv(st) == 0 {
                    lemma_fuel_mono(code.drop_first(), st, f, g);
                } else {
                    let st2 = run_nodes(body, st, (f - 1) as nat).unwrap();
                    lemma_fuel_mono(body, st, (f - 1) as nat, (g - 1) as nat);
                    lemma_fuel_mono(code, st2, (f - 1) as nat, (g - 1) as nat);
                }
            },
            _ => {
                lemma_fuel_mono(code.drop_first(), step_simple(code[0], st), f, g);
            },
        }
    }
}

proof fn lemma_concat_fuel(a: Seq<BfNode>, b: Seq<BfNode>, st: TapeSt, f1: nat, f2: nat, m: TapeSt, r: TapeSt)
    requires
        run_nodes(a, st, f1) == Some(m),
        run_nodes(b, m, f2) == Some(r),
    ensures
        run_nodes(a + b, st, f1 + f2) == Some(r),
    decreases f1, a.len(),
{
    if a.len() == 0 {
        assert(a + b =~= b);
        lemma_fuel_mono(b, m, f2, f1 + f2);
    } else {
        assert((a + b).drop_first() =~= a.drop_first() + b);
        match a[0] {
            BfNode::Loop(body) => {
                if cellv(st) == 0 {
                    lemma_concat_fuel(a.drop_first(), b, st, f1, f2, m, r);
                } else {
                    let st2 = run_nodes(body, st, (f1 - 1) as nat).unwrap();
                    lemma_fuel_mono(body, st, (f1 - 1) as nat, (f1 + f2 - 1) as nat);
                    lemma_concat_fuel(a, b, st2, (f1 - 1) as nat, f2, m, r);
                    lemma_fuel_mono(a + b, st2, (f1 - 1 + f2) as nat, (f1 + f2 - 1) as nat);
                }
            },
            _ => {
                lemma_concat_fuel(a.drop_first(), b, step_simple(a[0], st), f1, f2, m, r);
            },
        }
    }
}

/// Fragments compose: running `a` then `b` runs `a + b`.
pub proof fn lemma_runs_to_concat(a: Seq<BfNode>, b: Seq<BfNode>, st: TapeSt, m: TapeSt, r: TapeSt)
    requires
        runs_to(a, st, m),
        runs_to(b, m, r),
    ensures
        runs_to(a + b, st, r),
{
    let f1 = choose|f1: nat| run_nodes(a, st, f1) == Some(m);
    let f2 = choose|f2: nat| run_nodes(b, m, f2) == Some(r);
    lemma_concat_fuel(a, b, st, f1, f2, m, r);
}


/// A state equal to `st` but for the tape.
pub open spec fn with_tape(st: TapeSt, t: Seq<u8>) -> TapeSt {
    TapeSt { tape: t, ..st }
}

pub open spec fn with_head(st: TapeSt, h: nat) -> TapeSt {
    TapeSt { head: h, ..st }
}

proof fn lemma_single(x: BfNode, st: TapeSt)
    requires
        !(x matches BfNode::Loop(_)),
    ensures
        run_nodes(seq![x], st, 0) == Some(step_simple(x, st)),
{
    assert(seq![x].drop_first() =~= Seq::<BfNode>::empty());
    assert(run_nodes(Seq::<BfNode>::empty(), step_simple(x, st), 0) == Some(step_simple(x, st)));
}

/// Moving right `n` cells, staying inside the tape.
proof fn lemma_moves_right(st: TapeSt, n: nat)
    requires
        st.head + n < st.tape.len(),
    ensures
        run_nodes(super::bfir::f_right(n), st, 0) == Some(with_head(st, st.head + n)),
    decreases n,
{
    if n == 0 {
        assert(super::bfir::f_right(0).len() == 0);
        assert(with_head(st, st.head) == st);
    } else {
        assert(super::bfir::f_right(n)[0] == BfNode::MoveR);
        assert(super::bfir::f_right(n).drop_first() =~= super::bfir::f_right((n - 1) as nat));
        let st1 = step_simple(BfNode::MoveR, st);
        assert(st1 == with_head(st, st.head + 1));
        lemma_moves_right(st1, (n - 1) as nat);
    }
}

/// Moving left `n` cells from a head at or beyond `n`.
proof fn lemma_moves_left(st: TapeSt, n: nat)
    requires
        st.head >= n,
    ensures
        run_nodes(super::bfir::f_left(n), st, 0) == Some(with_head(st, (st.head - n) as nat)),
    decreases n,
{
    if n == 0 {
        assert(super::bfir::f_left(0).len() == 0);
        assert(with_head(st, st.head) == st);
    } else {
        assert(super::bfir::f_left(n)[0] == BfNode::MoveL);
        assert(super::bfir::f_left(n).drop_first() =~= super::bfir::f_left((n - 1) as nat));
        let st1 = step_simple(BfNode::MoveL, st);
        assert(st1 == with_head(st, (st.head - 1) as nat));
        lemma_moves_left(st1, (n - 1) as nat);
    }
}

/// The zeroing loop `[-]` clears the cell under the head.
proof fn lemma_zero_loop_sem(st: TapeSt)
    ensures
        runs_to(seq![BfNode::Loop(seq![BfNode::Dec])], st, with_tape(st, writev(st, 0))),
    decreases cellv(st),
{
    let code = seq![BfNode::Loop(seq![BfNode::Dec])];
    let tgt = with_tape(st, writev(st, 0));
    if cellv(st) == 0 {
        assert(code.drop_first() =~= Seq::<BfNode>::empty());
        assert(writev(st, 0) =~= st.tape);
        assert(tgt == st);
        assert(run_nodes(Seq::<BfNode>::empty(), st, 0) == Some(st));
        assert(run_nodes(code, st, 0) == Some(st));
    } else {
        let st2 = step_simple(BfNode::Dec, st);
        lemma_single(BfNode::Dec, st);
        assert(run_nodes(seq![BfNode::Dec], st, 0) == Some(st2));
        assert(cellv(st2) == wrap_dec(cellv(st)));
        lemma_zero_loop_sem(st2);
        let f2 = choose|f: nat| run_nodes(code, st2, f) == Some(with_tape(st2, writev(st2, 0)));
        assert(with_tape(st2, writev(st2, 0)) == tgt) by {
            assert(writev(st2, 0) =~= writev(st, 0));
        }
        lemma_fuel_mono(seq![BfNode::Dec], st, 0, f2);
        assert(run_nodes(code, st, f2 + 1) == Some(tgt)) by {
            lemma_fuel_mono(code, st2, f2, f2);
        }
    }
}

/// `k` increments add `k` to the cell under the head, modulo 256.
proof fn lemma_incs(st: TapeSt, k: nat)
    requires
        st.head < st.tape.len(),
    ensures
        run_nodes(super::bfir::rep(k, BfNode::Inc), st, 0) == Some(
            with_tape(st, st.tape.update(st.head as int, (((cellv(st) + k) % 256) as u8))),
        ),
    decreases k,
{
    if k == 0 {
        assert(super::bfir::rep(0, BfNode::Inc).len() == 0);
        vstd::arithmetic::div_mod::lemma_small_mod(cellv(st) as nat, 256);
        assert(st.tape.update(st.head as int, ((cellv(st) + 0) % 256) as u8) =~= st.tape);
    } else {
        assert(super::bfir::rep(k, BfNode::Inc)[0] == BfNode::Inc);
        assert(super::bfir::rep(k, BfNode::Inc).drop_first() =~= super::bfir::rep(
            (k - 1) as nat,
            BfNode::Inc,
        ));
        let st1 = step_simple(BfNode::Inc, st);
        assert(cellv(st1) == wrap_inc(cellv(st)));
        assert(cellv(st1) as int == (cellv(st) + 1) % 256);
        lemma_incs(st1, (k - 1) as nat);
        assert((cellv(st1) + (k - 1)) % 256 == (cellv(st) + k) % 256) by {
            vstd::arithmetic::div_mod::lemma_add_mod_noop(
                cellv(st) + 1,
                (k - 1) as int,
                256,
            );
            vstd::arithmetic::div_mod::lemma_add_mod_noop_right(
                ((cellv(st) + 1) % 256) as int,
                (k - 1) as int,
                256,
            );
        }
        assert(st1.tape.update(st.head as int, (((cellv(st1) + (k - 1)) % 256) as u8)) =~= st.tape
            .update(st.head as int, (((cellv(st) + k) % 256) as u8)));
    }
}

/// `set(a, v)` stores `v` into cell `a` and returns the head home.
pub proof fn lemma_set_sem(st: TapeSt, a: nat, v: u8)
    requires
        st.head == 0,
        a < st.tape.len(),
    ensures
        runs_to(super::bfir::f_set(a, v), st, with_tape(st, st.tape.update(a as int, v))),
{
    let s1 = with_head(st, a);
    lemma_moves_right(st, a);
    assert(runs_to(super::bfir::f_right(a), st, s1));
    let s2 = with_tape(s1, s1.tape.update(a as int, 0));
    lemma_zero_loop_sem(s1);
    assert(writev(s1, 0) =~= s1.tape.update(a as int, 0));
    assert(runs_to(seq![BfNode::Loop(seq![BfNode::Dec])], s1, s2));
    let s3 = with_tape(s2, s2.tape.update(a as int, v));
    lemma_incs(s2, v as nat);
    assert(cellv(s2) == 0);
    vstd::arithmetic::div_mod::lemma_small_mod(v as nat, 256);
    assert(s2.tape.update(a as int, (((0 + v as int) % 256) as u8)) =~= s3.tape);
    assert(runs_to(super::bfir::rep(v as nat, BfNode::Inc), s2, s3));
    let s4 = with_head(s3, 0);
    lemma_moves_left(s3, a);
    assert(runs_to(super::bfir::f_left(a), s3, s4));
    lemma_runs_to_concat(
        super::bfir::f_right(a),
        seq![BfNode::Loop(seq![BfNode::Dec])],
        st,
        s1,
        s2,
    );
    lemma_runs_to_concat(
        super::bfir::f_right(a) + seq![BfNode::Loop(seq![BfNode::Dec])],
        super::bfir::rep(v as nat, BfNode::Inc),
        st,
        s2,
        s3,
    );
    lemma_runs_to_concat(
        super::bfir::f_right(a) + seq![BfNode::Loop(seq![BfNode::Dec])] + super::bfir::rep(
            v as nat,
            BfNode::Inc,
        ),
        super::bfir::f_left(a),
        st,
        s3,
        s4,
    );
    assert(s2.tape.update(a as int, v) =~= st.tape.update(a as int, v));
    assert(s4 == with_tape(st, st.tape.update(a as int, v)));
}

/// `zero(a)` clears cell `a` and returns the head home.
pub proof fn lemma_zero_sem(st: TapeSt, a: nat)
    requires
        st.head == 0,
        a < st.tape.len(),
    ensures
        runs_to(super::bfir::f_zero(a), st, with_tape(st, st.tape.update(a as int, 0))),
{
    let s1 = with_head(st, a);
    lemma_moves_right(st, a);
    let s2 = with_tape(s1, s1.tape.update(a as int, 0));
    lemma_zero_loop_sem(s1);
    assert(writev(s1, 0) =~= s1.tape.update(a as int, 0));
    let s3 = with_head(s2, 0);
    lemma_moves_left(s2, a);
    lemma_runs_to_concat(
        super::bfir::f_right(a),
        seq![BfNode::Loop(seq![BfNode::Dec])],
        st,
        s1,
        s2,
    );
    lemma_runs_to_concat(
        super::bfir::f_right(a) + seq![BfNode::Loop(seq![BfNode::Dec])],
        super::bfir::f_left(a),
        st,
        s2,
        s3,
    );
    assert(s3 == with_tape(st, st.tape.update(a as int, 0)));
}


/// The body of a zeroing transfer loop run at cell `at`, stepping cell
/// `q` up or down once per iteration.
pub open spec fn xbody(at: nat, q: nat, inc: bool) -> Seq<BfNode> {
    seq![BfNode::Dec] + super::bfir::f_left(at) + super::bfir::f_right(q) + seq![
        if inc {
            BfNode::Inc
        } else {
            BfNode::Dec
        },
    ] + super::bfir::f_left(q) + super::bfir::f_right(at)
}

/// Value of cell `q` after adding or subtracting `v`, modulo 256.
pub open spec fn stepped(old: u8, v: u8, inc: bool) -> u8 {
    if inc {
        (((old + v) % 256) as u8)
    } else {
        (((old - v) % 256) as u8)
    }
}

proof fn lemma_xfer_loop(st: TapeSt, at: nat, q: nat, inc: bool)
    requires
        st.head == at,
        at < st.tape.len(),
        q < st.tape.len(),
        at != q,
    ensures
        runs_to(
            seq![BfNode::Loop(xbody(at, q, inc))],
            st,
            with_tape(
                st,
                st.tape.update(q as int, stepped(st.tape[q as int], st.tape[at as int], inc)).update(
                    at as int,
                    0,
                ),
            ),
        ),
    decreases cellv(st),
{
    let code = seq![BfNode::Loop(xbody(at, q, inc))];
    let v = st.tape[at as int];
    let qq = st.tape[q as int];
    if v == 0 {
        vstd::arithmetic::div_mod::lemma_small_mod(qq as nat, 256);
        assert(st.tape.update(q as int, stepped(qq, 0, inc)).update(at as int, 0) =~= st.tape);
        assert(code.drop_first() =~= Seq::<BfNode>::empty());
        assert(run_nodes(Seq::<BfNode>::empty(), st, 0) == Some(st));
        assert(run_nodes(code, st, 0) == Some(st));
        assert(with_tape(st, st.tape) == st);
    } else {
        // one iteration of the body
        let step = (
            if inc {
                BfNode::Inc
            } else {
                BfNode::Dec
            }
        );
        let b1 = with_tape(st, writev(st, wrap_dec(v)));
        lemma_single(BfNode::Dec, st);
        assert(runs_to(seq![BfNode::Dec], st, b1));
        let b2 = with_head(b1, 0);
        lemma_moves_left(b1, at);
        assert(runs_to(super::bfir::f_left(at), b1, b2));
        let b3 = with_head(b2, q);
        lemma_moves_right(b2, q);
        assert(runs_to(super::bfir::f_right(q), b2, b3));
        let b4 = with_tape(b3, writev(b3, if inc { wrap_inc(cellv(b3)) } else { wrap_dec(cellv(b3)) }));
        lemma_single(step, b3);
        assert(step_simple(step, b3) == b4);
        assert(runs_to(seq![step], b3, b4));
        let b5 = with_head(b4, 0);
        lemma_moves_left(b4, q);
        let b6 = with_head(b5, at);
        lemma_moves_right(b5, at);
        let p1 = seq![BfNode::Dec];
        let p2 = p1 + super::bfir::f_left(at);
        let p3 = p2 + super::bfir::f_right(q);
        let p4 = p3 + seq![step];
        let p5 = p4 + super::bfir::f_left(q);
        let body = p5 + super::bfir::f_right(at);
        lemma_runs_to_concat(p1, super::bfir::f_left(at), st, b1, b2);
        lemma_runs_to_concat(p2, super::bfir::f_right(q), st, b2, b3);
        lemma_runs_to_concat(p3, seq![step], st, b3, b4);
        lemma_runs_to_concat(p4, super::bfir::f_left(q), st, b4, b5);
        lemma_runs_to_concat(p5, super::bfir::f_right(at), st, b5, b6);
        assert(body == xbody(at, q, inc));
        assert(runs_to(xbody(at, q, inc), st, b6));
        // the state after one iteration
        assert(b6.tape =~= st.tape.update(at as int, (v - 1) as u8).update(
            q as int,
            if inc {
                wrap_inc(qq)
            } else {
                wrap_dec(qq)
            },
        ));
        assert(b6.head == at);
        assert(cellv(b6) == (v - 1) as u8);
        lemma_xfer_loop(b6, at, q, inc);
        let w1 = (
            if inc {
                wrap_inc(qq)
            } else {
                wrap_dec(qq)
            }
        );
        let tgt2 = with_tape(
            b6,
            b6.tape.update(q as int, stepped(w1, (v - 1) as u8, inc)).update(at as int, 0),
        );
        assert(runs_to(code, b6, tgt2));
        // arithmetic: stepping once then (v - 1) more times steps v times
        assert(stepped(w1, (v - 1) as u8, inc) == stepped(qq, v, inc)) by {
            if inc {
                assert(w1 as int == (qq + 1) % 256);
                vstd::arithmetic::div_mod::lemma_add_mod_noop(qq + 1, v - 1, 256);
                vstd::arithmetic::div_mod::lemma_small_mod((v - 1) as nat, 256);
            } else {
                assert(w1 as int == (qq - 1) % 256);
                vstd::arithmetic::div_mod::lemma_sub_mod_noop(qq - 1, v - 1, 256);
                vstd::arithmetic::div_mod::lemma_small_mod((v - 1) as nat, 256);
            }
        }
        let tgt = with_tape(
            st,
            st.tape.update(q as int, stepped(qq, v, inc)).update(at as int, 0),
        );
        assert(tgt2.tape =~= tgt.tape);
        assert(tgt2 == tgt);
        // close the loop: body once, then the loop again
        let fb = choose|f: nat| run_nodes(xbody(at, q, inc), st, f) == Some(b6);
        let fl = choose|f: nat| run_nodes(code, b6, f) == Some(tgt);
        lemma_fuel_mono(xbody(at, q, inc), st, fb, fb + fl);
        lemma_fuel_mono(code, b6, fl, fb + fl);
        assert(run_nodes(code, st, fb + fl + 1) == Some(tgt));
    }
}

/// `add_zeroing`/`sub_zeroing`: step `to` by the value of `from`,
/// leaving `from` at 0.
proof fn lemma_xfer_sem(st: TapeSt, from: nat, to: nat, inc: bool)
    requires
        st.head == 0,
        from < st.tape.len(),
        to < st.tape.len(),
        from != to,
    ensures
        runs_to(
            if inc {
                super::bfir::f_add_zeroing(from, to)
            } else {
                super::bfir::f_sub_zeroing(from, to)
            },
            st,
            with_tape(
                st,
                st.tape.update(to as int, stepped(st.tape[to as int], st.tape[from as int], inc)).update(
                    from as int,
                    0,
                ),
            ),
        ),
{
    let s1 = with_head(st, from);
    lemma_moves_right(st, from);
    let s2 = with_tape(
        s1,
        s1.tape.update(to as int, stepped(st.tape[to as int], st.tape[from as int], inc)).update(
            from as int,
            0,
        ),
    );
    lemma_xfer_loop(s1, from, to, inc);
    let s3 = with_head(s2, 0);
    lemma_moves_left(s2, from);
    let frag = (
        if inc {
            super::bfir::f_add_zeroing(from, to)
        } else {
            super::bfir::f_sub_zeroing(from, to)
        }
    );
    assert(frag == super::bfir::f_right(from) + seq![BfNode::Loop(xbody(from, to, inc))]
        + super::bfir::f_left(from));
    lemma_runs_to_concat(
        super::bfir::f_right(from),
        seq![BfNode::Loop(xbody(from, to, inc))],
        st,
        s1,
        s2,
    );
    lemma_runs_to_concat(
        super::bfir::f_right(from) + seq![BfNode::Loop(xbody(from, to, inc))],
        super::bfir::f_left(from),
        st,
        s2,
        s3,
    );
}


/// The body of a restore loop at cell `s`: refill `from` and step `to`
/// once per iteration.
pub open spec fn x2body(s: nat, from: nat, to: nat, inc: bool) -> Seq<BfNode> {
    seq![BfNode::Dec] + super::bfir::f_left(s) + super::bfir::f_right(from) + seq![BfNode::Inc]
        + super::bfir::f_left(from) + super::bfir::f_right(to) + seq![
        if inc {
            BfNode::Inc
        } else {
            BfNode::Dec
        },
    ] + super::bfir::f_left(to) + super::bfir::f_right(s)
}

#[verifier::rlimit(60)]
proof fn lemma_xfer2_loop(st: TapeSt, s: nat, from: nat, to: nat, inc: bool)
    requires
        st.head == s,
        s < st.tape.len(),
        from < st.tape.len(),
        to < st.tape.len(),
        s != from,
        s != to,
        from != to,
    ensures
        runs_to(
            seq![BfNode::Loop(x2body(s, from, to, inc))],
            st,
            with_tape(
                st,
                st.tape.update(
                    from as int,
                    (((st.tape[from as int] + st.tape[s as int]) % 256) as u8),
                ).update(
                    to as int,
                    stepped(st.tape[to as int], st.tape[s as int], inc),
                ).update(s as int, 0),
            ),
        ),
    decreases cellv(st),
{
    let code = seq![BfNode::Loop(x2body(s, from, to, inc))];
    let v = st.tape[s as int];
    let ff = st.tape[from as int];
    let tt = st.tape[to as int];
    if v == 0 {
        vstd::arithmetic::div_mod::lemma_small_mod(ff as nat, 256);
        vstd::arithmetic::div_mod::lemma_small_mod(tt as nat, 256);
        assert(st.tape.update(from as int, (((ff + 0) % 256) as u8)).update(
            to as int,
            stepped(tt, 0, inc),
        ).update(s as int, 0) =~= st.tape);
        assert(code.drop_first() =~= Seq::<BfNode>::empty());
        assert(run_nodes(Seq::<BfNode>::empty(), st, 0) == Some(st));
        assert(run_nodes(code, st, 0) == Some(st));
        assert(with_tape(st, st.tape) == st);
    } else {
        let step = (
            if inc {
                BfNode::Inc
            } else {
                BfNode::Dec
            }
        );
        let b1 = with_tape(st, writev(st, wrap_dec(v)));
        lemma_single(BfNode::Dec, st);
        let b2 = with_head(b1, 0);
        lemma_moves_left(b1, s);
        let b3 = with_head(b2, from);
        lemma_moves_right(b2, from);
        let b4 = with_tape(b3, writev(b3, wrap_inc(cellv(b3))));
        lemma_single(BfNode::Inc, b3);
        assert(step_simple(BfNode::Inc, b3) == b4);
        let b5 = with_head(b4, 0);
        lemma_moves_left(b4, from);
        let b6 = with_head(b5, to);
        lemma_moves_right(b5, to);
        let b7 = with_tape(b6, writev(b6, if inc { wrap_inc(cellv(b6)) } else { wrap_dec(cellv(b6)) }));
        lemma_single(step, b6);
        assert(step_simple(step, b6) == b7);
        let b8 = with_head(b7, 0);
        lemma_moves_left(b7, to);
        let b9 = with_head(b8, s);
        lemma_moves_right(b8, s);
        let p1 = seq![BfNode::Dec];
        let p2 = p1 + super::bfir::f_left(s);
        let p3 = p2 + super::bfir::f_right(from);
        let p4 = p3 + seq![BfNode::Inc];
        let p5 = p4 + super::bfir::f_left(from);
        let p6 = p5 + super::bfir::f_right(to);
        let p7 = p6 + seq![step];
        let p8 = p7 + super::bfir::f_left(to);
        let body = p8 + super::bfir::f_right(s);
        lemma_runs_to_concat(p1, super::bfir::f_left(s), st, b1, b2);
        lemma_runs_to_concat(p2, super::bfir::f_right(from), st, b2, b3);
        lemma_runs_to_concat(p3, seq![BfNode::Inc], st, b3, b4);
        lemma_runs_to_concat(p4, super::bfir::f_left(from), st, b4, b5);
        lemma_runs_to_concat(p5, super::bfir::f_right(to), st, b5, b6);
        lemma_runs_to_concat(p6, seq![step], st, b6, b7);
        lemma_runs_to_concat(p7, super::bfir::f_left(to), st, b7, b8);
        lemma_runs_to_concat(p8, super::bfir::f_right(s), st, b8, b9);
        assert(body == x2body(s, from, to, inc));
        assert(runs_to(x2body(s, from, to, inc), st, b9));
        let wf = wrap_inc(ff);
        let wt = (
            if inc {
                wrap_inc(tt)
            } else {
                wrap_dec(tt)
            }
        );
        assert(b9.tape =~= st.tape.update(s as int, (v - 1) as u8).update(from as int, wf).update(
            to as int,
            wt,
        ));
        assert(b9.head == s);
        assert(cellv(b9) == (v - 1) as u8);
        lemma_xfer2_loop(b9, s, from, to, inc);
        let tgt2 = with_tape(
            b9,
            b9.tape.update(from as int, (((wf + (v - 1)) % 256) as u8)).update(
                to as int,
                stepped(wt, (v - 1) as u8, inc),
            ).update(s as int, 0),
        );
        assert(runs_to(code, b9, tgt2));
        assert((wf + (v - 1)) % 256 == (ff + v) % 256) by {
            vstd::arithmetic::div_mod::lemma_add_mod_noop(ff + 1, v - 1, 256);
            vstd::arithmetic::div_mod::lemma_small_mod((v - 1) as nat, 256);
        }
        assert(stepped(wt, (v - 1) as u8, inc) == stepped(tt, v, inc)) by {
            if inc {
                vstd::arithmetic::div_mod::lemma_add_mod_noop(tt + 1, v - 1, 256);
                vstd::arithmetic::div_mod::lemma_small_mod((v - 1) as nat, 256);
            } else {
                vstd::arithmetic::div_mod::lemma_sub_mod_noop(tt - 1, v - 1, 256);
                vstd::arithmetic::div_mod::lemma_small_mod((v - 1) as nat, 256);
            }
        }
        let tgt = with_tape(
            st,
            st.tape.update(from as int, (((ff + v) % 256) as u8)).update(
                to as int,
                stepped(tt, v, inc),
            ).update(s as int, 0),
        );
        assert(tgt2.tape =~= tgt.tape);
        assert(tgt2 == tgt);
        let fb = choose|f: nat| run_nodes(x2body(s, from, to, inc), st, f) == Some(b9);
        let fl = choose|f: nat| run_nodes(code, b9, f) == Some(tgt);
        lemma_fuel_mono(x2body(s, from, to, inc), st, fb, fb + fl);
        lemma_fuel_mono(code, b9, fl, fb + fl);
        assert(run_nodes(code, st, fb + fl + 1) == Some(tgt));
    }
}

/// Add/sub preservation: `add_preserve` and `sub_preserve` step `to` by
/// the value of `from`, leave `from` unchanged, and leave the scratch
/// cell at zero; the head returns home.
pub proof fn lemma_preserve_sem(st: TapeSt, from: nat, to: nat, scratch: nat, inc: bool)
    requires
        st.head == 0,
        from < st.tape.len(),
        to < st.tape.len(),
        scratch < st.tape.len(),
        from != to,
        from != scratch,
        to != scratch,
    ensures
        runs_to(
            if inc {
                super::bfir::f_add_preserve(from, to, scratch)
            } else {
                super::bfir::f_sub_preserve(from, to, scratch)
            },
            st,
            with_tape(
                st,
                st.tape.update(
                    to as int,
                    stepped(st.tape[to as int], st.tape[from as int], inc),
                ).update(scratch as int, 0),
            ),
        ),
{
    let ff = st.tape[from as int];
    let tt = st.tape[to as int];
    // zero the scratch cell
    let s1 = with_tape(st, st.tape.update(scratch as int, 0));
    lemma_zero_sem(st, scratch);
    // move `from` into the scratch cell
    let s2 = with_tape(
        s1,
        s1.tape.update(scratch as int, stepped(0, ff, true)).update(from as int, 0),
    );
    lemma_xfer_sem(s1, from, scratch, true);
    assert(s1.tape[scratch as int] == 0 && s1.tape[from as int] == ff);
    vstd::arithmetic::div_mod::lemma_small_mod(ff as nat, 256);
    assert(stepped(0, ff, true) == ff);
    // walk to the scratch cell and restore while stepping `to`
    let s3 = with_head(s2, scratch);
    lemma_moves_right(s2, scratch);
    assert(s2.tape[scratch as int] == ff && s2.tape[from as int] == 0 && s2.tape[to as int] == tt);
    let s4 = with_tape(
        s3,
        s3.tape.update(from as int, (((0 + ff) % 256) as u8)).update(
            to as int,
            stepped(tt, ff, inc),
        ).update(scratch as int, 0),
    );
    lemma_xfer2_loop(s3, scratch, from, to, inc);
    let s5 = with_head(s4, 0);
    lemma_moves_left(s4, scratch);
    // assemble the fragment
    let q1 = super::bfir::f_zero(scratch);
    let q2 = q1 + (
        if inc {
            super::bfir::f_add_zeroing(from, scratch)
        } else {
            super::bfir::f_add_zeroing(from, scratch)
        }
    );
    let q3 = q2 + super::bfir::f_right(scratch);
    let q4 = q3 + seq![BfNode::Loop(x2body(scratch, from, to, inc))];
    let frag = q4 + super::bfir::f_left(scratch);
    assert(frag == (
        if inc {
            super::bfir::f_add_preserve(from, to, scratch)
        } else {
            super::bfir::f_sub_preserve(from, to, scratch)
        }
    ));
    lemma_runs_to_concat(q1, super::bfir::f_add_zeroing(from, scratch), st, s1, s2);
    lemma_runs_to_concat(q2, super::bfir::f_right(scratch), st, s2, s3);
    lemma_runs_to_concat(q3, seq![BfNode::Loop(x2body(scratch, from, to, inc))], st, s3, s4);
    lemma_runs_to_concat(q4, super::bfir::f_left(scratch), st, s4, s5);
    let tgt = with_tape(
        st,
        st.tape.update(to as int, stepped(tt, ff, inc)).update(scratch as int, 0),
    );
    assert(s5.tape =~= tgt.tape);
    assert(s5 == tgt);
}


/// `not(a, s)`: cell `a` becomes 1 when it was 0 and 0 otherwise; the
/// scratch cell ends at zero.
#[verifier::rlimit(80)]
pub proof fn lemma_not_sem(st: TapeSt, a: nat, s: nat)
    requires
        st.head == 0,
        a < st.tape.len(),
        s < st.tape.len(),
        a != s,
    ensures
        runs_to(
            super::bfir::f_not(a, s),
            st,
            with_tape(
                st,
                st.tape.update(
                    a as int,
                    if st.tape[a as int] == 0 {
                        1u8
                    } else {
                        0u8
                    },
                ).update(s as int, 0),
            ),
        ),
{
    let av = st.tape[a as int];
    let body1 = super::bfir::f_left(a) + super::bfir::f_right(s) + seq![BfNode::Inc]
        + super::bfir::f_left(s) + super::bfir::f_right(a) + seq![
        BfNode::Loop(seq![BfNode::Dec]),
    ];
    let body2 = super::bfir::f_left(s) + super::bfir::f_right(a) + seq![BfNode::Dec]
        + super::bfir::f_left(a) + super::bfir::f_right(s) + seq![BfNode::Dec];
    // zero the scratch, walk to `a`
    let u1 = with_tape(st, st.tape.update(s as int, 0));
    lemma_zero_sem(st, s);
    let u2 = with_head(u1, a);
    lemma_moves_right(u1, a);
    // the guard loop: one iteration when `a` is nonzero, none otherwise
    let l_end: TapeSt;
    if av == 0 {
        assert(cellv(u2) == 0);
        assert(seq![BfNode::Loop(body1)].drop_first() =~= Seq::<BfNode>::empty());
        assert(run_nodes(Seq::<BfNode>::empty(), u2, 0) == Some(u2));
        assert(run_nodes(seq![BfNode::Loop(body1)], u2, 0) == Some(u2));
        l_end = u2;
    } else {
        // one pass through body1
        let c1 = with_head(u2, 0);
        lemma_moves_left(u2, a);
        let c2 = with_head(c1, s);
        lemma_moves_right(c1, s);
        let c3 = with_tape(c2, writev(c2, wrap_inc(cellv(c2))));
        lemma_single(BfNode::Inc, c2);
        assert(cellv(c2) == 0);
        let c4 = with_head(c3, 0);
        lemma_moves_left(c3, s);
        let c5 = with_head(c4, a);
        lemma_moves_right(c4, a);
        let c6 = with_tape(c5, writev(c5, 0));
        lemma_zero_loop_sem(c5);
        let p1 = super::bfir::f_left(a);
        let p2 = p1 + super::bfir::f_right(s);
        let p3 = p2 + seq![BfNode::Inc];
        let p4 = p3 + super::bfir::f_left(s);
        let p5 = p4 + super::bfir::f_right(a);
        lemma_runs_to_concat(p1, super::bfir::f_right(s), u2, c1, c2);
        lemma_runs_to_concat(p2, seq![BfNode::Inc], u2, c2, c3);
        lemma_runs_to_concat(p3, super::bfir::f_left(s), u2, c3, c4);
        lemma_runs_to_concat(p4, super::bfir::f_right(a), u2, c4, c5);
        lemma_runs_to_concat(p5, seq![BfNode::Loop(seq![BfNode::Dec])], u2, c5, c6);
        assert(p5 + seq![BfNode::Loop(seq![BfNode::Dec])] == body1);
        assert(runs_to(body1, u2, c6));
        assert(cellv(c6) == 0);
        let fb = choose|f: nat| run_nodes(body1, u2, f) == Some(c6);
        assert(seq![BfNode::Loop(body1)].drop_first() =~= Seq::<BfNode>::empty());
        assert(run_nodes(Seq::<BfNode>::empty(), c6, fb) == Some(c6));
        assert(run_nodes(seq![BfNode::Loop(body1)], c6, fb) == Some(c6));
        assert(run_nodes(seq![BfNode::Loop(body1)], u2, fb + 1) == Some(c6));
        l_end = c6;
    }
    assert(runs_to(seq![BfNode::Loop(body1)], u2, l_end));
    assert(l_end.head == a);
    // increment `a`, then walk to the scratch cell
    let d1 = with_tape(l_end, writev(l_end, wrap_inc(cellv(l_end))));
    lemma_single(BfNode::Inc, l_end);
    assert(cellv(l_end) == 0);
    let d2 = with_head(d1, 0);
    lemma_moves_left(d1, a);
    let d3 = with_head(d2, s);
    lemma_moves_right(d2, s);
    // the undo loop: one iteration when the scratch holds 1
    let m_end: TapeSt;
    if av == 0 {
        assert(cellv(d3) == 0);
        assert(seq![BfNode::Loop(body2)].drop_first() =~= Seq::<BfNode>::empty());
        assert(run_nodes(Seq::<BfNode>::empty(), d3, 0) == Some(d3));
        assert(run_nodes(seq![BfNode::Loop(body2)], d3, 0) == Some(d3));
        m_end = d3;
    } else {
        assert(cellv(d3) == 1);
        let e1 = with_head(d3, 0);
        lemma_moves_left(d3, s);
        let e2 = with_head(e1, a);
        lemma_moves_right(e1, a);
        let e3 = with_tape(e2, writev(e2, wrap_dec(cellv(e2))));
        lemma_single(BfNode::Dec, e2);
        assert(cellv(e2) == 1);
        let e4 = with_head(e3, 0);
        lemma_moves_left(e3, a);
        let e5 = with_head(e4, s);
        lemma_moves_right(e4, s);
        let e6 = with_tape(e5, writev(e5, wrap_dec(cellv(e5))));
        lemma_single(BfNode::Dec, e5);
        assert(cellv(e5) == 1);
        let p1 = super::bfir::f_left(s);
        let p2 = p1 + super::bfir::f_right(a);
        let p3 = p2 + seq![BfNode::Dec];
        let p4 = p3 + super::bfir::f_left(a);
        let p5 = p4 + super::bfir::f_right(s);
        lemma_runs_to_concat(p1, super::bfir::f_right(a), d3, e1, e2);
        lemma_runs_to_concat(p2, seq![BfNode::Dec], d3, e2, e3);
        lemma_runs_to_concat(p3, super::bfir::f_left(a), d3, e3, e4);
        lemma_runs_to_concat(p4, super::bfir::f_right(s), d3, e4, e5);
        lemma_runs_to_concat(p5, seq![BfNode::Dec], d3, e5, e6);
        assert(p5 + seq![BfNode::Dec] == body2);
        assert(runs_to(body2, d3, e6));
        assert(cellv(e6) == 0);
        let fb2 = choose|f: nat| run_nodes(body2, d3, f) == Some(e6);
        assert(seq![BfNode::Loop(body2)].drop_first() =~= Seq::<BfNode>::empty());
        assert(run_nodes(Seq::<BfNode>::empty(), e6, fb2) == Some(e6));
        assert(run_nodes(seq![BfNode::Loop(body2)], e6, fb2) == Some(e6));
        assert(run_nodes(seq![BfNode::Loop(body2)], d3, fb2 + 1) == Some(e6));
        m_end = e6;
    }
    assert(runs_to(seq![BfNode::Loop(body2)], d3, m_end));
    // walk home and assemble
    let fin = with_head(m_end, 0);
    lemma_moves_left(m_end, s);
    let q1 = super::bfir::f_zero(s);
    let q2 = q1 + super::bfir::f_right(a);
    let q3 = q2 + seq![BfNode::Loop(body1)];
    let q4 = q3 + seq![BfNode::Inc];
    let q5 = q4 + super::bfir::f_left(a);
    let q6 = q5 + super::bfir::f_right(s);
    let q7 = q6 + seq![BfNode::Loop(body2)];
    let frag = q7 + super::bfir::f_left(s);
    assert(frag == super::bfir::f_not(a, s));
    lemma_runs_to_concat(q1, super::bfir::f_right(a), st, u1, u2);
    lemma_runs_to_concat(q2, seq![BfNode::Loop(body1)], st, u2, l_end);
    lemma_runs_to_concat(q3, seq![BfNode::Inc], st, l_end, d1);
    lemma_runs_to_concat(q4, super::bfir::f_left(a), st, d1, d2);
    lemma_runs_to_concat(q5, super::bfir::f_right(s), st, d2, d3);
    lemma_runs_to_concat(q6, seq![BfNode::Loop(body2)], st, d3, m_end);
    lemma_runs_to_concat(q7, super::bfir::f_left(s), st, m_end, fin);
    let tgt = with_tape(
        st,
        st.tape.update(
            a as int,
            if av == 0 {
                1u8
            } else {
                0u8
            },
        ).update(s as int, 0),
    );
    assert(fin.tape =~= tgt.tape);
    assert(fin == tgt);
}


/// Equality semantics: the `ByteEq` fragment leaves the target cell at
/// 1 exactly when the operand bytes are equal and at 0 otherwise,
/// restores both operands, and leaves the scratch cells at zero.
#[verifier::rlimit(80)]
pub proof fn lemma_byte_eq_sem(st: TapeSt, t: usize, a: usize, b: usize)
    requires
        st.head == 0,
        2 * t < st.tape.len(),
        2 * a < st.tape.len(),
        2 * b < st.tape.len(),
        7 < st.tape.len(),
        t != a,
        t != b,
    ensures
        runs_to(
            super::bfir::f_instr(super::bfir::Instr::ByteEq { tgt: t, arg0: a, arg1: b }),
            st,
            with_tape(
                st,
                st.tape.update(5, 0).update(7, 0).update(
                    2 * t as int,
                    if st.tape[2 * a as int] == st.tape[2 * b as int] {
                        1u8
                    } else {
                        0u8
                    },
                ),
            ),
        ),
{
    let av = st.tape[2 * a as int];
    let bv = st.tape[2 * b as int];
    let ta = 2 * a as nat;
    let tb = 2 * b as nat;
    let tt = 2 * t as nat;
    // scratch 5 := a - b, preserving both operands
    let u1 = with_tape(st, st.tape.update(5, 0));
    lemma_zero_sem(st, 5);
    let u2 = with_tape(u1, u1.tape.update(5, stepped(0, av, true)).update(7, 0));
    lemma_preserve_sem(u1, ta, 5, 7, true);
    vstd::arithmetic::div_mod::lemma_small_mod(av as nat, 256);
    assert(stepped(0, av, true) == av);
    let d = stepped(av, bv, false);
    let u3 = with_tape(u2, u2.tape.update(5, d).update(7, 0));
    lemma_preserve_sem(u2, tb, 5, 7, false);
    assert(u2.tape[5] == av && u2.tape[tb as int] == bv);
    // target := the difference, moved out of the scratch
    let u4 = with_tape(u3, u3.tape.update(tt as int, 0));
    lemma_zero_sem(u3, tt);
    assert(u4.tape[5] == d);
    let u5 = with_tape(u4, u4.tape.update(tt as int, stepped(0, d, true)).update(5, 0));
    lemma_xfer_sem(u4, 5, tt, true);
    vstd::arithmetic::div_mod::lemma_small_mod(d as nat, 256);
    assert(stepped(0, d, true) == d);
    // target := not(target)
    let u6 = with_tape(
        u5,
        u5.tape.update(
            tt as int,
            if d == 0 {
                1u8
            } else {
                0u8
            },
        ).update(7, 0),
    );
    lemma_not_sem(u5, tt, 7);
    assert(u5.tape[tt as int] == d);
    // assemble the fragment
    let q1 = super::bfir::f_zero(5);
    let q2 = q1 + super::bfir::f_add_preserve(ta, 5, 7);
    let q3 = q2 + super::bfir::f_sub_preserve(tb, 5, 7);
    let q4 = q3 + super::bfir::f_zero(tt);
    let q5 = q4 + super::bfir::f_add_zeroing(5, tt);
    let frag = q5 + super::bfir::f_not(tt, 7);
    assert(frag == super::bfir::f_instr(super::bfir::Instr::ByteEq { tgt: t, arg0: a, arg1: b }));
    lemma_runs_to_concat(q1, super::bfir::f_add_preserve(ta, 5, 7), st, u1, u2);
    lemma_runs_to_concat(q2, super::bfir::f_sub_preserve(tb, 5, 7), st, u2, u3);
    lemma_runs_to_concat(q3, super::bfir::f_zero(tt), st, u3, u4);
    lemma_runs_to_concat(q4, super::bfir::f_add_zeroing(5, tt), st, u4, u5);
    lemma_runs_to_concat(q5, super::bfir::f_not(tt, 7), st, u5, u6);
    // the difference is zero exactly when the operands are equal
    assert(d == 0 <==> av == bv) by {
        if av >= bv {
            vstd::arithmetic::div_mod::lemma_small_mod((av - bv) as nat, 256);
        } else {
            assert((av - bv) % 256 == av - bv + 256) by {
                vstd::arithmetic::div_mod::lemma_small_mod((av - bv + 256) as nat, 256);
                vstd::arithmetic::div_mod::lemma_mod_multiples_vanish(1, av - bv, 256);
                assert(256 * 1 + (av - bv) == av - bv + 256);
            }
        }
    }
    let tgt = with_tape(
        st,
        st.tape.update(5, 0).update(7, 0).update(
            tt as int,
            if av == bv {
                1u8
            } else {
                0u8
            },
        ),
    );
    assert(u6.tape =~= tgt.tape);
    assert(u6 == tgt);
}


/// `ByteAdd`/`ByteSub` compute the wrapping sum or difference into the
/// target cell, preserving both operands; the scratch cell ends zero.
#[verifier::rlimit(60)]
pub proof fn lemma_byte_arith_sem(st: TapeSt, t: usize, a: usize, b: usize, inc: bool)
    requires
        st.head == 0,
        2 * t < st.tape.len(),
        2 * a < st.tape.len(),
        2 * b < st.tape.len(),
        5 < st.tape.len(),
        t != a,
        t != b,
    ensures
        runs_to(
            super::bfir::f_instr(
                if inc {
                    super::bfir::Instr::ByteAdd { tgt: t, arg0: a, arg1: b }
                } else {
                    super::bfir::Instr::ByteSub { tgt: t, arg0: a, arg1: b }
                },
            ),
            st,
            with_tape(
                st,
                st.tape.update(5, 0).update(
                    2 * t as int,
                    stepped(
                        stepped(0, st.tape[2 * a as int], true),
                        st.tape[2 * b as int],
                        inc,
                    ),
                ),
            ),
        ),
{
    let ta = 2 * a as nat;
    let tb = 2 * b as nat;
    let tt = 2 * t as nat;
    let av = st.tape[ta as int];
    let bv = st.tape[tb as int];
    let u1 = with_tape(st, st.tape.update(tt as int, 0));
    lemma_zero_sem(st, tt);
    let u2 = with_tape(u1, u1.tape.update(tt as int, stepped(0, av, true)).update(5, 0));
    lemma_preserve_sem(u1, ta, tt, 5, true);
    assert(u1.tape[ta as int] == av && u1.tape[tt as int] == 0);
    let u3 = with_tape(
        u2,
        u2.tape.update(tt as int, stepped(stepped(0, av, true), bv, inc)).update(5, 0),
    );
    lemma_preserve_sem(u2, tb, tt, 5, inc);
    assert(u2.tape[tb as int] == bv && u2.tape[tt as int] == stepped(0, av, true));
    let q1 = super::bfir::f_zero(tt);
    let q2 = q1 + super::bfir::f_add_preserve(ta, tt, 5);
    let frag = q2 + (
        if inc {
            super::bfir::f_add_preserve(tb, tt, 5)
        } else {
            super::bfir::f_sub_preserve(tb, tt, 5)
        }
    );
    assert(frag == super::bfir::f_instr(
        if inc {
            super::bfir::Instr::ByteAdd { tgt: t, arg0: a, arg1: b }
        } else {
            super::bfir::Instr::ByteSub { tgt: t, arg0: a, arg1: b }
        },
    ));
    lemma_runs_to_concat(q1, super::bfir::f_add_preserve(ta, tt, 5), st, u1, u2);
    lemma_runs_to_concat(
        q2,
        if inc {
            super::bfir::f_add_preserve(tb, tt, 5)
        } else {
            super::bfir::f_sub_preserve(tb, tt, 5)
        },
        st,
        u2,
        u3,
    );
    let tgt = with_tape(
        st,
        st.tape.update(5, 0).update(tt as int, stepped(stepped(0, av, true), bv, inc)),
    );
    assert(u3.tape =~= tgt.tape);
    assert(u3 == tgt);
}

/// The `If` fragment: the dispatch register receives the true target
/// when the predicate cell is nonzero and the false target otherwise;
/// the predicate is preserved and the scratch cells end zero.
#[verifier::rlimit(80)]
pub proof fn lemma_if_sem(st: TapeSt, p: usize, t_id: usize, f_id: usize)
    requires
        st.head == 0,
        2 * p < st.tape.len(),
        7 < st.tape.len(),
    ensures
        runs_to(
            super::bfir::f_instr(super::bfir::Instr::If(p, t_id, f_id)),
            st,
            with_tape(
                st,
                st.tape.update(5, 0).update(7, 0).update(
                    1,
                    if st.tape[2 * p as int] == 0 {
                        ((f_id % 256) as u8)
                    } else {
                        ((t_id % 256) as u8)
                    },
                ),
            ),
        ),
{
    let tp = 2 * p as nat;
    let pv = st.tape[tp as int];
    let tb = ((t_id % 256) as u8);
    let fb = ((f_id % 256) as u8);
    let u1 = with_tape(st, st.tape.update(5, 0));
    lemma_set_sem(st, 5, 0);
    let u2 = with_tape(u1, u1.tape.update(5, stepped(0, pv, true)).update(7, 0));
    lemma_preserve_sem(u1, tp, 5, 7, true);
    assert(u1.tape[tp as int] == pv && u1.tape[5] == 0);
    vstd::arithmetic::div_mod::lemma_small_mod(pv as nat, 256);
    assert(stepped(0, pv, true) == pv);
    let u3 = with_tape(u2, u2.tape.update(7, 0));
    lemma_set_sem(u2, 7, 0);
    let u4 = with_tape(u3, u3.tape.update(1, fb));
    lemma_set_sem(u3, 1, fb);
    let u5 = with_head(u4, 5);
    lemma_moves_right(u4, 5);
    let body = super::bfir::f_left(5) + super::bfir::f_set(1, tb) + super::bfir::f_right(5)
        + seq![BfNode::Loop(seq![BfNode::Dec])];
    let m: TapeSt;
    if pv == 0 {
        assert(cellv(u5) == 0);
        assert(seq![BfNode::Loop(body)].drop_first() =~= Seq::<BfNode>::empty());
        assert(run_nodes(Seq::<BfNode>::empty(), u5, 0) == Some(u5));
        assert(run_nodes(seq![BfNode::Loop(body)], u5, 0) == Some(u5));
        m = u5;
    } else {
        assert(cellv(u5) == pv);
        let c1 = with_head(u5, 0);
        lemma_moves_left(u5, 5);
        let c2 = with_tape(c1, c1.tape.update(1, tb));
        lemma_set_sem(c1, 1, tb);
        let c3 = with_head(c2, 5);
        lemma_moves_right(c2, 5);
        let c4 = with_tape(c3, writev(c3, 0));
        lemma_zero_loop_sem(c3);
        let p1 = super::bfir::f_left(5);
        let p2 = p1 + super::bfir::f_set(1, tb);
        let p3 = p2 + super::bfir::f_right(5);
        lemma_runs_to_concat(p1, super::bfir::f_set(1, tb), u5, c1, c2);
        lemma_runs_to_concat(p2, super::bfir::f_right(5), u5, c2, c3);
        lemma_runs_to_concat(p3, seq![BfNode::Loop(seq![BfNode::Dec])], u5, c3, c4);
        assert(p3 + seq![BfNode::Loop(seq![BfNode::Dec])] == body);
        assert(runs_to(body, u5, c4));
        assert(cellv(c4) == 0);
        let fbu = choose|f: nat| run_nodes(body, u5, f) == Some(c4);
        assert(seq![BfNode::Loop(body)].drop_first() =~= Seq::<BfNode>::empty());
        assert(run_nodes(Seq::<BfNode>::empty(), c4, fbu) == Some(c4));
        assert(run_nodes(seq![BfNode::Loop(body)], c4, fbu) == Some(c4));
        assert(run_nodes(seq![BfNode::Loop(body)], u5, fbu + 1) == Some(c4));
        m = c4;
    }
    assert(runs_to(seq![BfNode::Loop(body)], u5, m));
    let fin = with_head(m, 0);
    lemma_moves_left(m, 5);
    let q1 = super::bfir::f_set(5, 0);
    let q2 = q1 + super::bfir::f_add_preserve(tp, 5, 7);
    let q3 = q2 + super::bfir::f_set(7, 0);
    let q4 = q3 + super::bfir::f_set(1, fb);
    let q5 = q4 + super::bfir::f_right(5);
    let q6 = q5 + seq![BfNode::Loop(body)];
    let frag = q6 + super::bfir::f_left(5);
    assert(frag == super::bfir::f_instr(super::bfir::Instr::If(p, t_id, f_id)));
    lemma_runs_to_concat(q1, super::bfir::f_add_preserve(tp, 5, 7), st, u1, u2);
    lemma_runs_to_concat(q2, super::bfir::f_set(7, 0), st, u2, u3);
    lemma_runs_to_concat(q3, super::bfir::f_set(1, fb), st, u3, u4);
    lemma_runs_to_concat(q4, super::bfir::f_right(5), st, u4, u5);
    lemma_runs_to_concat(q5, seq![BfNode::Loop(body)], st, u5, m);
    lemma_runs_to_concat(q6, super::bfir::f_left(5), st, m, fin);
    let tgt = with_tape(
        st,
        st.tape.update(5, 0).update(7, 0).update(
            1,
            if pv == 0 {
                fb
            } else {
                tb
            },
        ),
    );
    assert(fin.tape =~= tgt.tape);
    assert(fin == tgt);
}


/// One primitive applied at cell `off`, head returning home.
proof fn lemma_wrap_one(st: TapeSt, off: nat, x: BfNode)
    requires
        st.head == 0,
        off < st.tape.len(),
        x matches BfNode::Inc || x matches BfNode::Dec || x matches BfNode::Read
            || x matches BfNode::Write,
    ensures
        runs_to(
            super::bfir::f_right(off) + seq![x] + super::bfir::f_left(off),
            st,
            with_head(step_simple(x, with_head(st, off)), 0),
        ),
{
    let s1 = with_head(st, off);
    lemma_moves_right(st, off);
    let s2 = step_simple(x, s1);
    lemma_single(x, s1);
    assert(s2.head == off);
    let s3 = with_head(s2, 0);
    lemma_moves_left(s2, off);
    lemma_runs_to_concat(super::bfir::f_right(off), seq![x], st, s1, s2);
    lemma_runs_to_concat(super::bfir::f_right(off) + seq![x], super::bfir::f_left(off), st, s2, s3);
}

/// The clearing walk of `Memcopy` zeroes even cells only and walks the
/// head forward two cells per byte.
proof fn lemma_mc_clear_sem(st: TapeSt, k: nat)
    requires
        st.head + 2 * k < st.tape.len(),
        st.head % 2 == 0,
    ensures
        exists|r: TapeSt|
            #[trigger] runs_to(super::bfir::mc_clear(k), st, r) && r.head == st.head + 2 * k
                && r.inp == st.inp && r.out == st.out && r.tape.len() == st.tape.len() && (forall|
                j: int,
            |
                0 <= j < st.tape.len() && j % 2 == 1 ==> r.tape[j] == st.tape[j]),
    decreases k,
{
    if k == 0 {
        assert(super::bfir::mc_clear(0).len() == 0);
        assert(run_nodes(super::bfir::mc_clear(0), st, 0) == Some(st));
        assert(runs_to(super::bfir::mc_clear(0), st, st));
    } else {
        lemma_mc_clear_sem(st, (k - 1) as nat);
        let r1 = choose|r: TapeSt|
            #[trigger] runs_to(super::bfir::mc_clear((k - 1) as nat), st, r) && r.head == st.head
                + 2 * (k - 1) && r.inp == st.inp && r.out == st.out && r.tape.len()
                == st.tape.len() && (forall|j: int|
                0 <= j < st.tape.len() && j % 2 == 1 ==> r.tape[j] == st.tape[j]);
        let w1 = with_tape(r1, writev(r1, 0));
        lemma_zero_loop_sem(r1);
        let w2 = step_simple(BfNode::MoveR, w1);
        lemma_single(BfNode::MoveR, w1);
        let w3 = step_simple(BfNode::MoveR, w2);
        lemma_single(BfNode::MoveR, w2);
        assert(w3.head == st.head + 2 * k);
        let tail = seq![BfNode::Loop(seq![BfNode::Dec]), BfNode::MoveR, BfNode::MoveR];
        assert(seq![BfNode::Loop(seq![BfNode::Dec])] + seq![BfNode::MoveR] =~= seq![
            BfNode::Loop(seq![BfNode::Dec]),
            BfNode::MoveR,
        ]);
        assert(seq![BfNode::Loop(seq![BfNode::Dec]), BfNode::MoveR] + seq![BfNode::MoveR] =~= tail);
        lemma_runs_to_concat(seq![BfNode::Loop(seq![BfNode::Dec])], seq![BfNode::MoveR], r1, w1, w2);
        lemma_runs_to_concat(
            seq![BfNode::Loop(seq![BfNode::Dec]), BfNode::MoveR],
            seq![BfNode::MoveR],
            r1,
            w2,
            w3,
        );
        lemma_runs_to_concat(super::bfir::mc_clear((k - 1) as nat), tail, st, r1, w3);
        assert(super::bfir::mc_clear((k - 1) as nat) + tail == super::bfir::mc_clear(k));
        assert(forall|j: int|
            0 <= j < st.tape.len() && j % 2 == 1 ==> w3.tape[j] == st.tape[j]);
        assert(runs_to(super::bfir::mc_clear(k), st, w3));
    }
}

/// The copying walk of `Memcopy` writes even cells and the scratch
/// cell only; the head returns home after each byte.
proof fn lemma_mc_copy_sem(st: TapeSt, from: nat, to: nat, k: nat)
    requires
        st.head == 0,
        from != to,
        2 * (from + k) < st.tape.len(),
        2 * (to + k) < st.tape.len(),
        5 < st.tape.len(),
    ensures
        exists|r: TapeSt|
            #[trigger] runs_to(super::bfir::mc_copy(from, to, k), st, r) && r.head == 0 && r.inp
                == st.inp && r.out == st.out && r.tape.len() == st.tape.len() && (forall|j: int|
                0 <= j < st.tape.len() && j % 2 == 1 && j != 5 ==> r.tape[j] == st.tape[j]) && (
            r.tape[5] == st.tape[5] || r.tape[5] == 0),
    decreases k,
{
    if k == 0 {
        assert(super::bfir::mc_copy(from, to, 0).len() == 0);
        assert(run_nodes(super::bfir::mc_copy(from, to, 0), st, 0) == Some(st));
        assert(runs_to(super::bfir::mc_copy(from, to, 0), st, st));
    } else {
        lemma_mc_copy_sem(st, from, to, (k - 1) as nat);
        let r1 = choose|r: TapeSt|
            #[trigger] runs_to(super::bfir::mc_copy(from, to, (k - 1) as nat), st, r) && r.head
                == 0 && r.inp == st.inp && r.out == st.out && r.tape.len() == st.tape.len() && (
            forall|j: int|
                0 <= j < st.tape.len() && j % 2 == 1 && j != 5 ==> r.tape[j] == st.tape[j]) && (
            r.tape[5] == st.tape[5] || r.tape[5] == 0);
        let dpos = 2 * (to + k - 1) as nat;
        let spos = 2 * (from + k - 1) as nat;
        let w1 = with_tape(r1, r1.tape.update(dpos as int, 0));
        lemma_zero_sem(r1, dpos);
        let w2 = with_tape(
            w1,
            w1.tape.update(dpos as int, stepped(0, w1.tape[spos as int], true)).update(5, 0),
        );
        lemma_preserve_sem(w1, spos, dpos, 5, true);
        lemma_runs_to_concat(
            super::bfir::mc_copy(from, to, (k - 1) as nat),
            super::bfir::f_zero(dpos),
            st,
            r1,
            w1,
        );
        lemma_runs_to_concat(
            super::bfir::mc_copy(from, to, (k - 1) as nat) + super::bfir::f_zero(dpos),
            super::bfir::f_add_preserve(spos, dpos, 5),
            st,
            w1,
            w2,
        );
        assert(super::bfir::mc_copy(from, to, (k - 1) as nat) + super::bfir::f_zero(dpos)
            + super::bfir::f_add_preserve(spos, dpos, 5) == super::bfir::mc_copy(from, to, k));
        assert(runs_to(super::bfir::mc_copy(from, to, k), st, w2));
        assert(forall|j: int|
            0 <= j < st.tape.len() && j % 2 == 1 && j != 5 ==> w2.tape[j] == st.tape[j]);
        assert(w2.tape[5] == 0);
    }
}

/// The scratch cells and the head position every fragment relies on.
pub open spec fn scratch_zero(t: Seq<u8>) -> bool {
    t.len() > 9 && t[3] == 0 && t[5] == 0 && t[7] == 0 && t[9] == 0
}

/// Offsets within range and aliasing the emission does not support.
pub open spec fn instr_wf(i: super::bfir::Instr, len: nat) -> bool {
    match i {
        super::bfir::Instr::ByteAdd { tgt, arg0, arg1 } => 2 * tgt < len && 2 * arg0 < len && 2
            * arg1 < len && tgt != arg0 && tgt != arg1,
        super::bfir::Instr::ByteSub { tgt, arg0, arg1 } => 2 * tgt < len && 2 * arg0 < len && 2
            * arg1 < len && tgt != arg0 && tgt != arg1,
        super::bfir::Instr::ByteEq { tgt, arg0, arg1 } => 2 * tgt < len && 2 * arg0 < len && 2
            * arg1 < len && tgt != arg0 && tgt != arg1,
        super::bfir::Instr::ByteOut(src) => 2 * src < len,
        super::bfir::Instr::ByteIn(tgt) => 2 * tgt < len,
        super::bfir::Instr::ByteIncr(tgt) => 2 * tgt < len,
        super::bfir::Instr::ByteDecr(tgt) => 2 * tgt < len,
        super::bfir::Instr::ByteSet(tgt, _) => 2 * tgt < len,
        super::bfir::Instr::Memcopy { from, to, num } => 2 * (from + num) < len && 2 * (to + num)
            < len && from != to,
        super::bfir::Instr::Exit => true,
        super::bfir::Instr::Goto(_) => true,
        super::bfir::Instr::If(pred, _, _) => 2 * pred < len,
        super::bfir::Instr::Return => false,
    }
}

/// Dispatch safety: every single instruction fragment, run from a state
/// with the head at cell 0 and the scratch cells at zero, reaches a
/// state with the head back at cell 0 and the scratch cells at zero.
#[verifier::rlimit(100)]
pub proof fn lemma_dispatch_safety(st: TapeSt, i: super::bfir::Instr)
    requires
        st.head == 0,
        scratch_zero(st.tape),
        instr_wf(i, st.tape.len()),
    ensures
        exists|r: TapeSt|
            #[trigger] runs_to(super::bfir::f_instr(i), st, r) && r.head == 0 && scratch_zero(
                r.tape,
            ) && r.tape.len() == st.tape.len(),
{
    match i {
        super::bfir::Instr::ByteAdd { tgt, arg0, arg1 } => {
            lemma_byte_arith_sem(st, tgt, arg0, arg1, true);
            let r = with_tape(
                st,
                st.tape.update(5, 0).update(
                    2 * tgt as int,
                    stepped(
                        stepped(0, st.tape[2 * arg0 as int], true),
                        st.tape[2 * arg1 as int],
                        true,
                    ),
                ),
            );
            assert(runs_to(super::bfir::f_instr(i), st, r) && r.head == 0 && scratch_zero(r.tape)
                && r.tape.len() == st.tape.len());
        },
        super::bfir::Instr::ByteSub { tgt, arg0, arg1 } => {
            lemma_byte_arith_sem(st, tgt, arg0, arg1, false);
            let r = with_tape(
                st,
                st.tape.update(5, 0).update(
                    2 * tgt as int,
                    stepped(
                        stepped(0, st.tape[2 * arg0 as int], true),
                        st.tape[2 * arg1 as int],
                        false,
                    ),
                ),
            );
            assert(runs_to(super::bfir::f_instr(i), st, r) && r.head == 0 && scratch_zero(r.tape)
                && r.tape.len() == st.tape.len());
        },
        super::bfir::Instr::ByteEq { tgt, arg0, arg1 } => {
            lemma_byte_eq_sem(st, tgt, arg0, arg1);
            let r = with_tape(
                st,
                st.tape.update(5, 0).update(7, 0).update(
                    2 * tgt as int,
                    if st.tape[2 * arg0 as int] == st.tape[2 * arg1 as int] {
                        1u8
                    } else {
                        0u8
                    },
                ),
            );
            assert(runs_to(super::bfir::f_instr(i), st, r) && r.head == 0 && scratch_zero(r.tape)
                && r.tape.len() == st.tape.len());
        },
        super::bfir::Instr::ByteOut(src) => {
            lemma_wrap_one(st, 2 * src as nat, BfNode::Write);
            let r = with_head(step_simple(BfNode::Write, with_head(st, 2 * src as nat)), 0);
            assert(runs_to(super::bfir::f_instr(i), st, r) && r.head == 0 && scratch_zero(r.tape)
                && r.tape.len() == st.tape.len());
        },
        super::bfir::Instr::ByteIn(tgt) => {
            lemma_wrap_one(st, 2 * tgt as nat, BfNode::Read);
            let r = with_head(step_simple(BfNode::Read, with_head(st, 2 * tgt as nat)), 0);
            assert(runs_to(super::bfir::f_instr(i), st, r) && r.head == 0 && scratch_zero(r.tape)
                && r.tape.len() == st.tape.len());
        },
        super::bfir::Instr::ByteIncr(tgt) => {
            lemma_wrap_one(st, 2 * tgt as nat, BfNode::Inc);
            let r = with_head(step_simple(BfNode::Inc, with_head(st, 2 * tgt as nat)), 0);
            assert(runs_to(super::bfir::f_instr(i), st, r) && r.head == 0 && scratch_zero(r.tape)
                && r.tape.len() == st.tape.len());
        },
        super::bfir::Instr::ByteDecr(tgt) => {
            lemma_wrap_one(st, 2 * tgt as nat, BfNode::Dec);
            let r = with_head(step_simple(BfNode::Dec, with_head(st, 2 * tgt as nat)), 0);
            assert(runs_to(super::bfir::f_instr(i), st, r) && r.head == 0 && scratch_zero(r.tape)
                && r.tape.len() == st.tape.len());
        },
        super::bfir::Instr::ByteSet(tgt, byte) => {
            lemma_set_sem(st, 2 * tgt as nat, byte);
            let r = with_tape(st, st.tape.update(2 * tgt as int, byte));
            assert(runs_to(super::bfir::f_instr(i), st, r) && r.head == 0 && scratch_zero(r.tape)
                && r.tape.len() == st.tape.len());
        },
        super::bfir::Instr::Memcopy { from, to, num } => {
            let s1 = with_head(st, 2 * to as nat);
            lemma_moves_right(st, 2 * to as nat);
            lemma_mc_clear_sem(s1, num as nat);
            let r1 = choose|r: TapeSt|
                #[trigger] runs_to(super::bfir::mc_clear(num as nat), s1, r) && r.head == s1.head
                    + 2 * num && r.inp == s1.inp && r.out == s1.out && r.tape.len()
                    == s1.tape.len() && (forall|j: int|
                    0 <= j < s1.tape.len() && j % 2 == 1 ==> r.tape[j] == s1.tape[j]);
            let r2 = with_head(r1, 0);
            lemma_moves_left(r1, 2 * (to + num) as nat);
            lemma_mc_copy_sem(r2, from as nat, to as nat, num as nat);
            let r3 = choose|r: TapeSt|
                #[trigger] runs_to(super::bfir::mc_copy(from as nat, to as nat, num as nat), r2, r)
                    && r.head == 0 && r.inp == r2.inp && r.out == r2.out && r.tape.len()
                    == r2.tape.len() && (forall|j: int|
                    0 <= j < r2.tape.len() && j % 2 == 1 && j != 5 ==> r.tape[j] == r2.tape[j]) && (
                r.tape[5] == r2.tape[5] || r.tape[5] == 0);
            let q1 = super::bfir::f_right(2 * to as nat);
            let q2 = q1 + super::bfir::mc_clear(num as nat);
            let q3 = q2 + super::bfir::f_left(2 * (to + num) as nat);
            lemma_runs_to_concat(q1, super::bfir::mc_clear(num as nat), st, s1, r1);
            lemma_runs_to_concat(q2, super::bfir::f_left(2 * (to + num) as nat), st, r1, r2);
            lemma_runs_to_concat(
                q3,
                super::bfir::mc_copy(from as nat, to as nat, num as nat),
                st,
                r2,
                r3,
            );
            assert(q3 + super::bfir::mc_copy(from as nat, to as nat, num as nat)
                == super::bfir::f_instr(i));
            assert(runs_to(super::bfir::f_instr(i), st, r3) && r3.head == 0 && scratch_zero(
                r3.tape,
            ) && r3.tape.len() == st.tape.len());
        },
        super::bfir::Instr::Exit => {
            lemma_set_sem(st, 1, 0);
            let r = with_tape(st, st.tape.update(1, 0));
            assert(runs_to(super::bfir::f_instr(i), st, r) && r.head == 0 && scratch_zero(r.tape)
                && r.tape.len() == st.tape.len());
        },
        super::bfir::Instr::Goto(id) => {
            lemma_set_sem(st, 1, ((id % 256) as u8));
            let r = with_tape(st, st.tape.update(1, ((id % 256) as u8)));
            assert(runs_to(super::bfir::f_instr(i), st, r) && r.head == 0 && scratch_zero(r.tape)
                && r.tape.len() == st.tape.len());
        },
        super::bfir::Instr::If(pred, t_id, f_id) => {
            lemma_if_sem(st, pred, t_id, f_id);
            let r = with_tape(
                st,
                st.tape.update(5, 0).update(7, 0).update(
                    1,
                    if st.tape[2 * pred as int] == 0 {
                        ((f_id % 256) as u8)
                    } else {
                        ((t_id % 256) as u8)
                    },
                ),
            );
            assert(runs_to(super::bfir::f_instr(i), st, r) && r.head == 0 && scratch_zero(r.tape)
                && r.tape.len() == st.tape.len());
        },
        super::bfir::Instr::Return => {
            assert(false);
        },
    }
}


/// The instruction list of the echoing block: read a byte into the
/// cell of logical offset `x`, write it back out, and halt.
pub open spec fn echo_instrs(x: usize) -> Seq<super::bfir::Instr> {
    seq![
        super::bfir::Instr::ByteIn(x),
        super::bfir::Instr::ByteOut(x),
        super::bfir::Instr::Exit,
    ]
}

/// The byte the echoing program reads: the first input byte, or the
/// end-of-input substitute 0.
pub open spec fn first_input(inp: Seq<u8>) -> u8 {
    if inp.len() > 0 {
        inp[0]
    } else {
        0
    }
}

pub open spec fn rest_input(inp: Seq<u8>) -> Seq<u8> {
    if inp.len() > 0 {
        inp.drop_first()
    } else {
        inp
    }
}

/// Running the echoing block's dispatcher from a state whose dispatch
/// register holds the block's id: the block matches, reads one byte,
/// writes it out, and leaves the dispatch register at 0.
#[verifier::rlimit(100)]
proof fn lemma_echo_block(st: TapeSt, x: usize)
    requires
        st.head == 0,
        st.tape.len() > 9,
        2 * x < st.tape.len(),
        st.tape[1] == 1,
    ensures
        runs_to(
            super::bfir::f_block(
                super::bfir::BBlockV { id: 1, instrs: echo_instrs(x) },
            ),
            st,
            TapeSt {
                tape: st.tape.update(3, 0).update(5, 1).update(7, 0).update(
                    2 * x as int,
                    first_input(st.inp),
                ).update(1, 0),
                head: 0,
                inp: rest_input(st.inp),
                out: st.out.push(first_input(st.inp)),
            },
        ),
{
    let bv = super::bfir::BBlockV { id: 1, instrs: echo_instrs(x) };
    let fst = first_input(st.inp);
    // the id comparison leaves the match flag at 1
    let c1 = with_tape(st, st.tape.update(3, 0));
    lemma_zero_sem(st, 3);
    let c2 = with_tape(c1, c1.tape.update(5, 0));
    lemma_zero_sem(c1, 5);
    let c3 = with_tape(c2, c2.tape.update(7, 0));
    lemma_zero_sem(c2, 7);
    let c4 = with_tape(c3, c3.tape.update(3, stepped(0, 1, true)).update(5, 0));
    lemma_preserve_sem(c3, 1, 3, 5, true);
    assert(c3.tape[1] == 1 && c3.tape[3] == 0);
    assert(stepped(0, 1, true) == 1) by {
        vstd::arithmetic::div_mod::lemma_small_mod(1, 256);
    }
    let c5 = with_tape(c4, c4.tape.update(5, 1));
    lemma_set_sem(c4, 5, 1);
    let c6 = with_tape(c5, c5.tape.update(3, stepped(1, 1, false)).update(7, 0));
    lemma_preserve_sem(c5, 5, 3, 7, false);
    assert(c5.tape[5] == 1 && c5.tape[3] == 1);
    assert(stepped(1, 1, false) == 0) by {
        vstd::arithmetic::div_mod::lemma_small_mod(0, 256);
    }
    let c7 = with_tape(c6, c6.tape.update(3, 1).update(7, 0));
    lemma_not_sem(c6, 3, 7);
    assert(c6.tape[3] == 0);
    let c8 = with_head(c7, 3);
    lemma_moves_right(c7, 3);
    // the body: consume the register, read, write, halt
    let d1 = with_head(c8, 0);
    lemma_moves_left(c8, 3);
    let d2 = with_tape(d1, d1.tape.update(1, 0));
    lemma_set_sem(d1, 1, 0);
    let d3 = with_head(step_simple(BfNode::Read, with_head(d2, 2 * x as nat)), 0);
    lemma_wrap_one(d2, 2 * x as nat, BfNode::Read);
    assert(d3.tape =~= d2.tape.update(2 * x as int, fst));
    assert(d3.inp == rest_input(st.inp));
    let d4 = with_head(step_simple(BfNode::Write, with_head(d3, 2 * x as nat)), 0);
    lemma_wrap_one(d3, 2 * x as nat, BfNode::Write);
    assert(d3.tape[2 * x as int] == fst);
    assert(d4.out == st.out.push(fst));
    let d5 = with_tape(d4, d4.tape.update(1, 0));
    lemma_set_sem(d4, 1, 0);
    // the instruction list, assembled in emission order
    let i1 = super::bfir::Instr::ByteIn(x);
    let i2 = super::bfir::Instr::ByteOut(x);
    let i3 = super::bfir::Instr::Exit;
    assert(echo_instrs(x).drop_last() =~= seq![i1, i2]);
    assert(seq![i1, i2].drop_last() =~= seq![i1]);
    assert(seq![i1].drop_last() =~= Seq::<super::bfir::Instr>::empty());
    assert(super::bfir::f_instrs(Seq::<super::bfir::Instr>::empty())
        =~= Seq::<BfNode>::empty());
    assert(super::bfir::f_instrs(seq![i1]) =~= Seq::<BfNode>::empty()
        + super::bfir::f_instr(i1));
    assert(Seq::<BfNode>::empty() + super::bfir::f_instr(i1) =~= super::bfir::f_instr(i1));
    assert(super::bfir::f_instrs(seq![i1, i2]) =~= super::bfir::f_instr(i1)
        + super::bfir::f_instr(i2));
    assert(super::bfir::f_instrs(echo_instrs(x)) =~= super::bfir::f_instr(i1)
        + super::bfir::f_instr(i2) + super::bfir::f_instr(i3));
    lemma_runs_to_concat(super::bfir::f_instr(i1), super::bfir::f_instr(i2), d2, d3, d4);
    lemma_runs_to_concat(
        super::bfir::f_instr(i1) + super::bfir::f_instr(i2),
        super::bfir::f_instr(i3),
        d2,
        d4,
        d5,
    );
    assert(runs_to(super::bfir::f_instrs(echo_instrs(x)), d2, d5));
    let d6 = with_head(d5, 3);
    lemma_moves_right(d5, 3);
    let d7 = with_tape(d6, writev(d6, 0));
    lemma_zero_loop_sem(d6);
    // one pass through the matched arm
    let body = super::bfir::f_left(3) + super::bfir::f_set(1, 0) + super::bfir::f_instrs(
        echo_instrs(x),
    ) + super::bfir::f_right(3) + seq![BfNode::Loop(seq![BfNode::Dec])];
    let p1 = super::bfir::f_left(3);
    let p2 = p1 + super::bfir::f_set(1, 0);
    let p3 = p2 + super::bfir::f_instrs(echo_instrs(x));
    let p4 = p3 + super::bfir::f_right(3);
    lemma_runs_to_concat(p1, super::bfir::f_set(1, 0), c8, d1, d2);
    lemma_runs_to_concat(p2, super::bfir::f_instrs(echo_instrs(x)), c8, d2, d5);
    lemma_runs_to_concat(p3, super::bfir::f_right(3), c8, d5, d6);
    lemma_runs_to_concat(p4, seq![BfNode::Loop(seq![BfNode::Dec])], c8, d6, d7);
    assert(p4 + seq![BfNode::Loop(seq![BfNode::Dec])] == body);
    assert(runs_to(body, c8, d7));
    assert(cellv(c8) == 1);
    assert(cellv(d7) == 0);
    let fb = choose|f: nat| run_nodes(body, c8, f) == Some(d7);
    assert(seq![BfNode::Loop(body)].drop_first() =~= Seq::<BfNode>::empty());
    assert(run_nodes(Seq::<BfNode>::empty(), d7, fb) == Some(d7));
    assert(run_nodes(seq![BfNode::Loop(body)], d7, fb) == Some(d7));
    assert(run_nodes(seq![BfNode::Loop(body)], c8, fb + 1) == Some(d7));
    assert(runs_to(seq![BfNode::Loop(body)], c8, d7));
    // the dead trailing zero loop, and home
    let e1 = d7;
    assert(cellv(e1) == 0);
    assert(seq![BfNode::Loop(seq![BfNode::Dec])].drop_first() =~= Seq::<BfNode>::empty());
    assert(run_nodes(Seq::<BfNode>::empty(), e1, 0) == Some(e1));
    assert(run_nodes(seq![BfNode::Loop(seq![BfNode::Dec])], e1, 0) == Some(e1));
    assert(runs_to(seq![BfNode::Loop(seq![BfNode::Dec])], e1, e1));
    let e2 = with_head(e1, 0);
    lemma_moves_left(e1, 3);
    // assemble the dispatcher
    let q1 = super::bfir::f_zero(3);
    let q2 = q1 + super::bfir::f_zero(5);
    let q3 = q2 + super::bfir::f_zero(7);
    let q4 = q3 + super::bfir::f_add_preserve(1, 3, 5);
    let q5 = q4 + super::bfir::f_set(5, 1);
    let q6 = q5 + super::bfir::f_sub_preserve(5, 3, 7);
    let q7 = q6 + super::bfir::f_not(3, 7);
    let q8 = q7 + super::bfir::f_right(3);
    let q9 = q8 + seq![BfNode::Loop(body)];
    let q10 = q9 + seq![BfNode::Loop(seq![BfNode::Dec])];
    let frag = q10 + super::bfir::f_left(3);
    assert((bv.id % 256) as u8 == 1);
    assert(frag == super::bfir::f_block(bv));
    lemma_runs_to_concat(q1, super::bfir::f_zero(5), st, c1, c2);
    lemma_runs_to_concat(q2, super::bfir::f_zero(7), st, c2, c3);
    lemma_runs_to_concat(q3, super::bfir::f_add_preserve(1, 3, 5), st, c3, c4);
    lemma_runs_to_concat(q4, super::bfir::f_set(5, 1), st, c4, c5);
    lemma_runs_to_concat(q5, super::bfir::f_sub_preserve(5, 3, 7), st, c5, c6);
    lemma_runs_to_concat(q6, super::bfir::f_not(3, 7), st, c6, c7);
    lemma_runs_to_concat(q7, super::bfir::f_right(3), st, c7, c8);
    lemma_runs_to_concat(q8, seq![BfNode::Loop(body)], st, c8, d7);
    lemma_runs_to_concat(q9, seq![BfNode::Loop(seq![BfNode::Dec])], st, d7, e1);
    lemma_runs_to_concat(q10, super::bfir::f_left(3), st, e1, e2);
    let tgt = TapeSt {
        tape: st.tape.update(3, 0).update(5, 1).update(7, 0).update(2 * x as int, fst).update(
            1,
            0,
        ),
        head: 0,
        inp: rest_input(st.inp),
        out: st.out.push(fst),
    };
    assert(e2.tape =~= tgt.tape);
    assert(e2 == tgt);
}


/// Out/In transparency: the emitted program whose single block reads a
/// byte and writes it back echoes its input byte to the output, for
/// every input and every starting tape.
#[verifier::rlimit(100)]
pub proof fn lemma_echo_transparency(st: TapeSt, x: usize)
    requires
        st.head == 0,
        st.tape.len() > 9,
        2 * x < st.tape.len(),
    ensures
        runs_to(
            super::bfir::f_program(
                1,
                seq![super::bfir::BBlockV { id: 1, instrs: echo_instrs(x) }],
            ),
            st,
            TapeSt {
                tape: st.tape.update(3, 0).update(5, 1).update(7, 0).update(
                    2 * x as int,
                    first_input(st.inp),
                ).update(1, 0),
                head: 0,
                inp: rest_input(st.inp),
                out: st.out.push(first_input(st.inp)),
            },
        ),
{
    let bs = seq![super::bfir::BBlockV { id: 1, instrs: echo_instrs(x) }];
    let fst = first_input(st.inp);
    // set the dispatch register to the entry id and step onto it
    let g1 = with_tape(st, st.tape.update(1, 1));
    assert((1nat % 256) as u8 == 1);
    lemma_set_sem(st, 1, 1);
    let g2 = with_head(g1, 1);
    lemma_single(BfNode::MoveR, g1);
    assert(step_simple(BfNode::MoveR, g1) == g2);
    assert(runs_to(seq![BfNode::MoveR], g1, g2));
    // one pass of the dispatch loop
    let h1 = with_head(g2, 0);
    lemma_single(BfNode::MoveL, g2);
    assert(step_simple(BfNode::MoveL, g2) == h1);
    assert(runs_to(seq![BfNode::MoveL], g2, h1));
    assert(h1.tape[1] == 1);
    lemma_echo_block(h1, x);
    let h2 = TapeSt {
        tape: h1.tape.update(3, 0).update(5, 1).update(7, 0).update(2 * x as int, fst).update(
            1,
            0,
        ),
        head: 0,
        inp: rest_input(st.inp),
        out: st.out.push(fst),
    };
    assert(runs_to(super::bfir::f_block(bs[0]), h1, h2));
    let h3 = with_head(h2, 1);
    lemma_single(BfNode::MoveR, h2);
    assert(step_simple(BfNode::MoveR, h2) == h3);
    assert(runs_to(seq![BfNode::MoveR], h2, h3));
    // assemble the loop body
    assert(bs.drop_last() =~= Seq::<super::bfir::BBlockV>::empty());
    assert(super::bfir::f_blocks(Seq::<super::bfir::BBlockV>::empty())
        =~= Seq::<BfNode>::empty());
    assert(super::bfir::f_blocks(bs) =~= Seq::<BfNode>::empty() + super::bfir::f_block(bs[0]));
    assert(Seq::<BfNode>::empty() + super::bfir::f_block(bs[0]) =~= super::bfir::f_block(bs[0]));
    let obody = seq![BfNode::MoveL] + super::bfir::f_blocks(bs) + seq![BfNode::MoveR];
    lemma_runs_to_concat(seq![BfNode::MoveL], super::bfir::f_blocks(bs), g2, h1, h2);
    lemma_runs_to_concat(
        seq![BfNode::MoveL] + super::bfir::f_blocks(bs),
        seq![BfNode::MoveR],
        g2,
        h2,
        h3,
    );
    assert(runs_to(obody, g2, h3));
    // the register is consumed, so the loop runs exactly once
    assert(cellv(g2) == 1);
    assert(cellv(h3) == 0);
    let fb = choose|f: nat| run_nodes(obody, g2, f) == Some(h3);
    assert(seq![BfNode::Loop(obody)].drop_first() =~= Seq::<BfNode>::empty());
    assert(run_nodes(Seq::<BfNode>::empty(), h3, fb) == Some(h3));
    assert(run_nodes(seq![BfNode::Loop(obody)], h3, fb) == Some(h3));
    assert(run_nodes(seq![BfNode::Loop(obody)], g2, fb + 1) == Some(h3));
    assert(runs_to(seq![BfNode::Loop(obody)], g2, h3));
    let g3 = with_head(h3, 0);
    lemma_single(BfNode::MoveL, h3);
    assert(step_simple(BfNode::MoveL, h3) == g3);
    assert(runs_to(seq![BfNode::MoveL], h3, g3));
    // assemble the program
    let q1 = super::bfir::f_set(1, 1);
    let q2 = q1 + seq![BfNode::MoveR];
    let q3 = q2 + seq![BfNode::Loop(obody)];
    let frag = q3 + seq![BfNode::MoveL];
    assert(frag == super::bfir::f_program(1, bs));
    lemma_runs_to_concat(q1, seq![BfNode::MoveR], st, g1, g2);
    lemma_runs_to_concat(q2, seq![BfNode::Loop(obody)], st, g2, h3);
    lemma_runs_to_concat(q3, seq![BfNode::MoveL], st, h3, g3);
    let tgt = TapeSt {
        tape: st.tape.update(3, 0).update(5, 1).update(7, 0).update(2 * x as int, fst).update(
            1,
            0,
        ),
        head: 0,
        inp: rest_input(st.inp),
        out: st.out.push(fst),
    };
    assert(g3.tape =~= tgt.tape);
    assert(g3 == tgt);
}


/// A dispatcher whose block id differs from the dispatch register
/// skips the block's body entirely: only the comparison scratch cells
/// change, and no input, output or program cell is touched.
#[verifier::rlimit(100)]
pub proof fn lemma_block_skip(st: TapeSt, b: super::bfir::BBlockV)
    requires
        st.head == 0,
        st.tape.len() > 9,
        st.tape[1] != (b.id % 256) as u8,
    ensures
        runs_to(
            super::bfir::f_block(b),
            st,
            with_tape(
                st,
                st.tape.update(3, 0).update(5, (b.id % 256) as u8).update(7, 0),
            ),
        ),
{
    let idb = (b.id % 256) as u8;
    let rv = st.tape[1];
    // the comparison leaves the match flag at 0
    let c1 = with_tape(st, st.tape.update(3, 0));
    lemma_zero_sem(st, 3);
    let c2 = with_tape(c1, c1.tape.update(5, 0));
    lemma_zero_sem(c1, 5);
    let c3 = with_tape(c2, c2.tape.update(7, 0));
    lemma_zero_sem(c2, 7);
    let c4 = with_tape(c3, c3.tape.update(3, stepped(0, rv, true)).update(5, 0));
    lemma_preserve_sem(c3, 1, 3, 5, true);
    assert(c3.tape[1] == rv && c3.tape[3] == 0);
    vstd::arithmetic::div_mod::lemma_small_mod(rv as nat, 256);
    assert(stepped(0, rv, true) == rv);
    let c5 = with_tape(c4, c4.tape.update(5, idb));
    lemma_set_sem(c4, 5, idb);
    let d = stepped(rv, idb, false);
    let c6 = with_tape(c5, c5.tape.update(3, d).update(7, 0));
    lemma_preserve_sem(c5, 5, 3, 7, false);
    assert(c5.tape[5] == idb && c5.tape[3] == rv);
    // the difference of two distinct bytes is nonzero
    assert(d != 0) by {
        if rv >= idb {
            vstd::arithmetic::div_mod::lemma_small_mod((rv - idb) as nat, 256);
        } else {
            vstd::arithmetic::div_mod::lemma_small_mod((rv - idb + 256) as nat, 256);
            vstd::arithmetic::div_mod::lemma_mod_multiples_vanish(1, rv - idb, 256);
            assert(256 * 1 + (rv - idb) == rv - idb + 256);
        }
    }
    let c7 = with_tape(c6, c6.tape.update(3, 0).update(7, 0));
    lemma_not_sem(c6, 3, 7);
    assert(c6.tape[3] == d);
    let c8 = with_head(c7, 3);
    lemma_moves_right(c7, 3);
    // both guarded loops are skipped
    let body = super::bfir::f_left(3) + super::bfir::f_set(1, 0) + super::bfir::f_instrs(b.instrs)
        + super::bfir::f_right(3) + seq![BfNode::Loop(seq![BfNode::Dec])];
    assert(cellv(c8) == 0);
    assert(seq![BfNode::Loop(body)].drop_first() =~= Seq::<BfNode>::empty());
    assert(run_nodes(Seq::<BfNode>::empty(), c8, 0) == Some(c8));
    assert(run_nodes(seq![BfNode::Loop(body)], c8, 0) == Some(c8));
    assert(runs_to(seq![BfNode::Loop(body)], c8, c8));
    assert(seq![BfNode::Loop(seq![BfNode::Dec])].drop_first() =~= Seq::<BfNode>::empty());
    assert(run_nodes(seq![BfNode::Loop(seq![BfNode::Dec])], c8, 0) == Some(c8));
    assert(runs_to(seq![BfNode::Loop(seq![BfNode::Dec])], c8, c8));
    let c9 = with_head(c8, 0);
    lemma_moves_left(c8, 3);
    // assemble the dispatcher
    let q1 = super::bfir::f_zero(3);
    let q2 = q1 + super::bfir::f_zero(5);
    let q3 = q2 + super::bfir::f_zero(7);
    let q4 = q3 + super::bfir::f_add_preserve(1, 3, 5);
    let q5 = q4 + super::bfir::f_set(5, idb);
    let q6 = q5 + super::bfir::f_sub_preserve(5, 3, 7);
    let q7 = q6 + super::bfir::f_not(3, 7);
    let q8 = q7 + super::bfir::f_right(3);
    let q9 = q8 + seq![BfNode::Loop(body)];
    let q10 = q9 + seq![BfNode::Loop(seq![BfNode::Dec])];
    let frag = q10 + super::bfir::f_left(3);
    assert(frag == super::bfir::f_block(b));
    lemma_runs_to_concat(q1, super::bfir::f_zero(5), st, c1, c2);
    lemma_runs_to_concat(q2, super::bfir::f_zero(7), st, c2, c3);
    lemma_runs_to_concat(q3, super::bfir::f_add_preserve(1, 3, 5), st, c3, c4);
    lemma_runs_to_concat(q4, super::bfir::f_set(5, idb), st, c4, c5);
    lemma_runs_to_concat(q5, super::bfir::f_sub_preserve(5, 3, 7), st, c5, c6);
    lemma_runs_to_concat(q6, super::bfir::f_not(3, 7), st, c6, c7);
    lemma_runs_to_concat(q7, super::bfir::f_right(3), st, c7, c8);
    lemma_runs_to_concat(q8, seq![BfNode::Loop(body)], st, c8, c8);
    lemma_runs_to_concat(q9, seq![BfNode::Loop(seq![BfNode::Dec])], st, c8, c8);
    lemma_runs_to_concat(q10, super::bfir::f_left(3), st, c8, c9);
    let tgt = with_tape(st, st.tape.update(3, 0).update(5, idb).update(7, 0));
    assert(c9.tape =~= tgt.tape);
    assert(c9 == tgt);
}

} // verus!
