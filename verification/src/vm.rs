use vstd::prelude::*;
use vstd::string::StrSliceExecFns;
use vstd::string::StringSliceAdditionalSpecFns;
use crate::Error;

verus! {

/// Runtime errors of the reference interpreter.
#[derive(Debug, PartialEq)]
pub enum VmError {
    Unmatched(char),
}

/// The significant bytes of the primitive alphabet.
pub const B_PLUS: u8 = 43;

pub const B_COMMA: u8 = 44;

pub const B_MINUS: u8 = 45;

pub const B_DOT: u8 = 46;

pub const B_LT: u8 = 60;

pub const B_GT: u8 = 62;

pub const B_OPEN: u8 = 91;

pub const B_CLOSE: u8 = 93;

/// Machine state during execution of a primitive stream: instruction
/// pointer, head position, tape, remaining input, and output so far.
pub struct VmSt {
    pub code_ptr: nat,
    pub head: nat,
    pub tape: Seq<u8>,
    pub inp: Seq<u8>,
    pub out: Seq<u8>,
}

pub enum StepRes {
    Next(VmSt),
    Fail(char),
}

pub enum RunRes {
    Running(VmSt),
    Halted(VmSt),
    Failed(char),
}

pub open spec fn wrap_inc(v: u8) -> u8 {
    if v == 255 {
        0
    } else {
        (v + 1) as u8
    }
}

pub open spec fn wrap_dec(v: u8) -> u8 {
    if v == 0 {
        255
    } else {
        (v - 1) as u8
    }
}

/// The byte under the head; out-of-range reads give 0.
pub open spec fn cell(st: VmSt) -> u8 {
    if st.head < st.tape.len() {
        st.tape[st.head as int]
    } else {
        0
    }
}

/// Write under the head; out-of-range writes are dropped.
pub open spec fn write_cell(st: VmSt, v: u8) -> Seq<u8> {
    if st.head < st.tape.len() {
        st.tape.update(st.head as int, v)
    } else {
        st.tape
    }
}

/// Position of the `]` matching an `[`, scanning forward from `p` with
/// open-bracket balance `bal`.
pub open spec fn fwd_match(code: Seq<u8>, p: int, bal: int) -> Option<int>
    decreases code.len() - p,
{
    if p < 0 || p >= code.len() {
        None
    } else if code[p] == B_OPEN {
        fwd_match(code, p + 1, bal + 1)
    } else if code[p] == B_CLOSE {
        if bal == 1 {
            Some(p)
        } else {
            fwd_match(code, p + 1, bal - 1)
        }
    } else {
        fwd_match(code, p + 1, bal)
    }
}

/// Position of the `[` matching a `]`, scanning backward from `p`.
pub open spec fn bwd_match(code: Seq<u8>, p: int, bal: int) -> Option<int>
    decreases p + 1,
{
    if p < 0 || p >= code.len() {
        None
    } else if code[p] == B_CLOSE {
        bwd_match(code, p - 1, bal + 1)
    } else if code[p] == B_OPEN {
        if bal == 1 {
            Some(p)
        } else {
            bwd_match(code, p - 1, bal - 1)
        }
    } else {
        bwd_match(code, p - 1, bal)
    }
}

/// One step of the machine; the instruction pointer is within the code.
pub open spec fn step1(code: Seq<u8>, st: VmSt) -> StepRes {
    let c = code[st.code_ptr as int];
    if c == B_DOT {
        StepRes::Next(VmSt { code_ptr: st.code_ptr + 1, out: st.out.push(cell(st)), ..st })
    } else if c == B_COMMA {
        let b: u8 = if st.inp.len() > 0 {
            st.inp[0]
        } else {
            0
        };
        StepRes::Next(
            VmSt {
                code_ptr: st.code_ptr + 1,
                tape: write_cell(st, b),
                inp: if st.inp.len() > 0 {
                    st.inp.drop_first()
                } else {
                    st.inp
                },
                ..st
            },
        )
    } else if c == B_LT {
        StepRes::Next(
            VmSt {
                code_ptr: st.code_ptr + 1,
                head: if st.head == 0 {
                    0
                } else {
                    (st.head - 1) as nat
                },
                ..st
            },
        )
    } else if c == B_GT {
        StepRes::Next(
            VmSt {
                code_ptr: st.code_ptr + 1,
                head: if st.head + 1 < st.tape.len() {
                    st.head + 1
                } else {
                    if st.tape.len() == 0 {
                        0
                    } else {
                        (st.tape.len() - 1) as nat
                    }
                },
                ..st
            },
        )
    } else if c == B_PLUS {
        StepRes::Next(
            VmSt { code_ptr: st.code_ptr + 1, tape: write_cell(st, wrap_inc(cell(st))), ..st },
        )
    } else if c == B_MINUS {
        StepRes::Next(
            VmSt { code_ptr: st.code_ptr + 1, tape: write_cell(st, wrap_dec(cell(st))), ..st },
        )
    } else if c == B_OPEN {
        if cell(st) == 0 {
            match fwd_match(code, st.code_ptr as int + 1, 1) {
                Some(p) => StepRes::Next(VmSt { code_ptr: (p + 1) as nat, ..st }),
                None => StepRes::Fail('['),
            }
        } else {
            StepRes::Next(VmSt { code_ptr: st.code_ptr + 1, ..st })
        }
    } else if c == B_CLOSE {
        if cell(st) != 0 {
            match bwd_match(code, st.code_ptr as int - 1, 1) {
                Some(p) => StepRes::Next(VmSt { code_ptr: (p + 1) as nat, ..st }),
                None => StepRes::Fail(']'),
            }
        } else {
            StepRes::Next(VmSt { code_ptr: st.code_ptr + 1, ..st })
        }
    } else {
        StepRes::Next(VmSt { code_ptr: st.code_ptr + 1, ..st })
    }
}

/// Run `n` steps, or until the stream is exhausted or a scan fails.
pub open spec fn vm_run(code: Seq<u8>, st: VmSt, n: nat) -> RunRes
    decreases n,
{
    if n == 0 {
        RunRes::Running(st)
    } else if st.code_ptr >= code.len() {
        RunRes::Halted(st)
    } else {
        match step1(code, st) {
            StepRes::Next(st2) => vm_run(code, st2, (n - 1) as nat),
            StepRes::Fail(c) => RunRes::Failed(c),
        }
    }
}

proof fn lemma_vm_run_compose(code: Seq<u8>, st: VmSt, m: nat, k: nat)
    ensures
        vm_run(code, st, m + k) == (match vm_run(code, st, m) {
            RunRes::Running(s) => vm_run(code, s, k),
            RunRes::Halted(s) => RunRes::Halted(s),
            RunRes::Failed(c) => RunRes::Failed(c),
        }),
    decreases m,
{
    if m == 0 {
    } else if st.code_ptr >= code.len() {
        if k > 0 {
            assert(vm_run(code, st, m + k) == RunRes::Halted(st));
        }
    } else {
        match step1(code, st) {
            StepRes::Next(st2) => {
                lemma_vm_run_compose(code, st2, (m - 1) as nat, k);
                assert(m + k - 1 == (m - 1) as nat + k);
            },
            StepRes::Fail(_) => {},
        }
    }
}

/// The interpreter halts on this code, input and starting tape, with
/// this output and final tape.
pub open spec fn exec_halts(code: Seq<u8>, tape0: Seq<u8>, inp: Seq<u8>, out: Seq<u8>, tape1: Seq<u8>) -> bool {
    exists|n: nat|
        (#[trigger] vm_run(code, VmSt { code_ptr: 0, head: 0, tape: tape0, inp: inp, out: Seq::<u8>::empty() }, n))
            matches RunRes::Halted(fin) && fin.out == out && fin.tape == tape1
}

/// The interpreter fails with an unmatched bracket `c`.
pub open spec fn exec_fails(code: Seq<u8>, tape0: Seq<u8>, inp: Seq<u8>, c: char) -> bool {
    exists|n: nat|
        (#[trigger] vm_run(code, VmSt { code_ptr: 0, head: 0, tape: tape0, inp: inp, out: Seq::<u8>::empty() }, n))
            == RunRes::Failed(c)
}

/// The reference machine: a fixed-size tape of bytes.
pub struct Vm {
    tape: Vec<u8>,
}

impl View for Vm {
    type V = Seq<u8>;

    closed spec fn view(&self) -> Seq<u8> {
        self.tape@
    }
}

impl Vm {
    /// A machine with 10000 zeroed cells.
    #[verifier::loop_isolation(false)]
    pub fn new() -> (r: Self)
        ensures
            r@ =~= Seq::<u8>::new(10000, |i: int| 0u8),
            r@.len() == 10000,
    {
        let mut t: Vec<u8> = Vec::new();
        let mut i: usize = 0;
        while i < 10000
            invariant
                i <= 10000,
                t@.len() == i,
                forall|j: int| 0 <= j < i ==> t@[j] == 0u8,
            decreases 10000 - i,
        {
            t.push(0);
            i = i + 1;
        }
        Vm { tape: t }
    }

    /// Read a cell; out-of-range reads give 0.
    pub fn get(&self, offset: usize) -> (r: u8)
        ensures
            r == (if offset < self@.len() {
                self@[offset as int]
            } else {
                0u8
            }),
    {
        if offset < self.tape.len() {
            self.tape[offset]
        } else {
            0
        }
    }

    /// Write a cell; out-of-range writes are dropped.
    pub fn set(&mut self, offset: usize, val: u8)
        ensures
            final(self)@ == (if offset < old(self)@.len() {
                old(self)@.update(offset as int, val)
            } else {
                old(self)@
            }),
    {
        if offset < self.tape.len() {
            self.tape.set(offset, val);
        }
    }

    /// Wrapping add into a cell; out-of-range writes are dropped.
    pub fn incr(&mut self, offset: usize, incr: u8)
        ensures
            final(self)@ == (if offset < old(self)@.len() {
                old(self)@.update(offset as int, old(self)@[offset as int].wrapping_add(incr))
            } else {
                old(self)@
            }),
    {
        if offset < self.tape.len() {
            let v = self.tape[offset].wrapping_add(incr);
            self.tape.set(offset, v);
        }
    }

    /// Wrapping subtract from a cell; out-of-range writes are dropped.
    pub fn decr(&mut self, offset: usize, decr: u8)
        ensures
            final(self)@ == (if offset < old(self)@.len() {
                old(self)@.update(offset as int, old(self)@[offset as int].wrapping_sub(decr))
            } else {
                old(self)@
            }),
    {
        if offset < self.tape.len() {
            let v = self.tape[offset].wrapping_sub(decr);
            self.tape.set(offset, v);
        }
    }
}

/// Forward scan for the matching `]`.
#[verifier::loop_isolation(false)]
fn scan_fwd(code: &Vec<u8>, start: usize) -> (r: Option<usize>)
    requires
        start <= code@.len(),
    ensures
        match r {
            Some(p) => fwd_match(code@, start as int, 1) == Some(p as int) && p < code@.len(),
            None => fwd_match(code@, start as int, 1) is None,
        },
{
    let n = code.len();
    let mut p: usize = start;
    let mut bal: u128 = 1;
    while p < n
        invariant
            n == code@.len(),
            start <= p <= n,
            1 <= bal,
            bal <= 1 + p - start,
            fwd_match(code@, start as int, 1) == fwd_match(code@, p as int, bal as int),
        decreases n - p,
    {
        let c = code[p];
        if c == B_OPEN {
            bal = bal + 1;
        } else if c == B_CLOSE {
            if bal == 1 {
                return Some(p);
            }
            bal = bal - 1;
        }
        p = p + 1;
    }
    None
}

/// Backward scan for the matching `[`, starting just before `cp`.
#[verifier::loop_isolation(false)]
fn scan_bwd(code: &Vec<u8>, cp: usize) -> (r: Option<usize>)
    requires
        cp <= code@.len(),
    ensures
        match r {
            Some(p) => bwd_match(code@, cp as int - 1, 1) == Some(p as int) && p < code@.len(),
            None => bwd_match(code@, cp as int - 1, 1) is None,
        },
{
    if cp == 0 {
        return None;
    }
    let mut p: usize = cp - 1;
    let mut bal: u128 = 1;
    loop
        invariant
            p < code@.len(),
            cp <= code@.len(),
            p <= cp - 1,
            1 <= bal,
            bal <= 1 + (cp - 1 - p),
            bwd_match(code@, cp as int - 1, 1) == bwd_match(code@, p as int, bal as int),
        decreases p,
    {
        let ghost bal0 = bal;
        let c = code[p];
        if c == B_CLOSE {
            bal = bal + 1;
        } else if c == B_OPEN {
            if bal == 1 {
                return Some(p);
            }
            bal = bal - 1;
        }
        if p == 0 {
            proof {
                assert(bwd_match(code@, -1, bal0 as int + 1) is None);
                assert(bwd_match(code@, -1, bal0 as int - 1) is None);
                assert(bwd_match(code@, -1, bal0 as int) is None);
                assert(bwd_match(code@, 0, bal0 as int) is None);
            }
            return None;
        }
        p = p - 1;
    }
}

impl Vm {
    /// Execute a primitive stream against the tape for at most
    /// `max_steps` machine steps, reading from `input` and collecting
    /// the output. `Ok(Some(out))` means the stream was exhausted;
    /// `Ok(None)` means the budget ran out first; the result is exactly
    /// what the step-indexed machine semantics gives.
    #[verifier::loop_isolation(false)]
    pub fn exec(&mut self, code: &str, input: &[u8], max_steps: usize) -> (r: Result<Option<Vec<u8>>, Error>)
        ensures
            match r {
                Ok(Some(out)) => exec_halts(code.spec_bytes(), old(self)@, input@, out@, final(self)@),
                Ok(None) => vm_run(
                    code.spec_bytes(),
                    VmSt {
                        code_ptr: 0,
                        head: 0,
                        tape: old(self)@,
                        inp: input@,
                        out: Seq::<u8>::empty(),
                    },
                    max_steps as nat,
                ) is Running,
                Err(e) => final(self)@.len() == old(self)@.len()
                    && (e matches Error::VmError(VmError::Unmatched(c))
                        && exec_fails(code.spec_bytes(), old(self)@, input@, c)),
            },
    {
        let code_b: Vec<u8> = code.as_bytes_vec();
        let n = code_b.len();
        let mut tape_ptr: usize = 0;
        let mut code_ptr: usize = 0;
        let mut out: Vec<u8> = Vec::new();
        let mut inp_pos: usize = 0;
        let ghost init = VmSt {
            code_ptr: 0,
            head: 0,
            tape: old(self)@,
            inp: input@,
            out: Seq::<u8>::empty(),
        };
        let mut left: usize = max_steps;
        let ghost mut steps: nat = 0;
        proof {
            assert(input@.skip(0) =~= input@);
            assert(vm_run(code_b@, init, 0) == RunRes::Running(init));
        }
        while code_ptr < n && left > 0
            invariant
                steps + left == max_steps,
                n == code_b@.len(),
                code_b@ == code.spec_bytes(),
                inp_pos <= input@.len(),
                self@.len() == old(self)@.len(),
                tape_ptr < self@.len() || tape_ptr == 0,
                vm_run(code_b@, init, steps) == RunRes::Running(
                    VmSt {
                        code_ptr: code_ptr as nat,
                        head: tape_ptr as nat,
                        tape: self@,
                        inp: input@.skip(inp_pos as int),
                        out: out@,
                    },
                ),
            decreases left,
        {
            let ghost cur = VmSt {
                code_ptr: code_ptr as nat,
                head: tape_ptr as nat,
                tape: self@,
                inp: input@.skip(inp_pos as int),
                out: out@,
            };
            let c = code_b[code_ptr];
            let mut next_cp: usize = code_ptr + 1;
            if c == B_DOT {
                let b = self.get(tape_ptr);
                out.push(b);
            } else if c == B_COMMA {
                let b: u8 = if inp_pos < input.len() {
                    let x = input[inp_pos];
                    inp_pos = inp_pos + 1;
                    x
                } else {
                    0
                };
                self.set(tape_ptr, b);
                proof {
                    if cur.inp.len() > 0 {
                        assert(input@.skip(inp_pos as int) =~= cur.inp.drop_first());
                        assert(cur.inp[0] == b);
                    } else {
                        assert(input@.skip(inp_pos as int) =~= cur.inp);
                    }
                }
            } else if c == B_LT {
                if tape_ptr > 0 {
                    tape_ptr = tape_ptr - 1;
                }
            } else if c == B_GT {
                let tl = self.tape_len();
                if tl == 0 {
                    tape_ptr = 0;
                } else if tape_ptr < tl - 1 {
                    tape_ptr = tape_ptr + 1;
                } else {
                    tape_ptr = tl - 1;
                }
            } else if c == B_PLUS {
                self.incr(tape_ptr, 1);
                proof {
                    if cur.head < cur.tape.len() {
                        assert(cur.tape[cur.head as int].wrapping_add(1) == wrap_inc(cell(cur)));
                    }
                }
            } else if c == B_MINUS {
                self.decr(tape_ptr, 1);
                proof {
                    if cur.head < cur.tape.len() {
                        assert(cur.tape[cur.head as int].wrapping_sub(1) == wrap_dec(cell(cur)));
                    }
                }
            } else if c == B_OPEN {
                if self.get(tape_ptr) == 0 {
                    match scan_fwd(&code_b, code_ptr + 1) {
                        Some(p) => {
                            next_cp = p + 1;
                        },
                        None => {
                            proof {
                                lemma_vm_run_compose(code_b@, init, steps, 1);
                                assert(vm_run(code_b@, init, steps + 1) == RunRes::Failed('['));
                            }
                            return Err(Error::VmError(VmError::Unmatched('[')));
                        },
                    }
                }
            } else if c == B_CLOSE {
                if self.get(tape_ptr) != 0 {
                    match scan_bwd(&code_b, code_ptr) {
                        Some(p) => {
                            next_cp = p + 1;
                        },
                        None => {
                            proof {
                                lemma_vm_run_compose(code_b@, init, steps, 1);
                                assert(vm_run(code_b@, init, steps + 1) == RunRes::Failed(']'));
                            }
                            return Err(Error::VmError(VmError::Unmatched(']')));
                        },
                    }
                }
            } else {
                // any other byte is commentary
            }
            code_ptr = next_cp;
            left = left - 1;
            proof {
                let nxt = VmSt {
                    code_ptr: code_ptr as nat,
                    head: tape_ptr as nat,
                    tape: self@,
                    inp: input@.skip(inp_pos as int),
                    out: out@,
                };
                assert(step1(code_b@, cur) == StepRes::Next(nxt));
                lemma_vm_run_compose(code_b@, init, steps, 1);
                assert(vm_run(code_b@, nxt, 0) == RunRes::Running(nxt));
                assert(vm_run(code_b@, cur, 1) == RunRes::Running(nxt));
                steps = steps + 1;
                assert(vm_run(code_b@, init, steps) == RunRes::Running(nxt));
            }
        }
        if code_ptr < n {
            return Ok(None);
        }
        proof {
            lemma_vm_run_compose(code_b@, init, steps, 1);
            assert(vm_run(code_b@, init, steps + 1) matches RunRes::Halted(fin) && fin.out == out@
                && fin.tape == self@);
        }
        Ok(Some(out))
    }

    /// Length of the tape.
    pub fn tape_len(&self) -> (r: usize)
        ensures
            r == self@.len(),
    {
        self.tape.len()
    }
}

} // verus!
