use vstd::prelude::*;
use super::{Value, ValueV, OpKind};
use super::hir::{OpV, BranchV, BlockV, FuncV, ProgV, assoc_find, op_generated};
use super::hir;
use crate::Error;

verus! {

/// Errors of the HIR-to-LIR lowering.
#[derive(Debug, PartialEq)]
pub enum LirError {
    LocalReassigned(String),
    NoSuchLocal(String),
    UnsupportedOp,
}

/// Offset-based program: an entry block id and id-keyed blocks.
#[derive(Debug)]
pub struct Program {
    pub entry_id: usize,
    pub blocks: Vec<(usize, Block)>,
}

/// Offset-based block: ops then exactly one branch.
#[derive(Debug)]
pub struct Block {
    pub ops: Vec<Op>,
    pub branch: Branch,
}

/// Offset-based ops. `Call` is recognized by the grammar but its lowering
/// is not defined.
#[derive(Debug)]
pub enum Op {
    Unary(usize, OpKind, usize),
    Binary(usize, OpKind, usize, usize),
    Decl(usize, Value),
    In(usize),
    Out(usize),
    Incr(usize),
    Decr(usize),
    Memcopy { from: usize, to: usize, num: usize },
    Call {},
}

#[derive(Debug, Clone, Copy)]
pub enum Branch {
    Exit,
    Return(usize),
    Goto(usize),
    If(usize, usize, usize),
}

/// Mathematical view of a lowered op.
pub enum LOpV {
    Unary(nat, OpKind, nat),
    Binary(nat, OpKind, nat, nat),
    Decl(nat, ValueV),
    In(nat),
    Out(nat),
    Incr(nat),
    Decr(nat),
    Memcopy { from: nat, to: nat, num: nat },
    Call,
}

pub enum LBranchV {
    Exit,
    Return(nat),
    Goto(nat),
    If(nat, nat, nat),
}

pub struct LBlockV {
    pub ops: Seq<LOpV>,
    pub branch: LBranchV,
}

pub struct LProgV {
    pub entry_id: nat,
    pub blocks: Seq<(nat, LBlockV)>,
}

impl View for Op {
    type V = LOpV;

    open spec fn view(&self) -> LOpV {
        match self {
            Op::Unary(t, k, a) => LOpV::Unary(*t as nat, *k, *a as nat),
            Op::Binary(t, k, a, b) => LOpV::Binary(*t as nat, *k, *a as nat, *b as nat),
            Op::Decl(t, v) => LOpV::Decl(*t as nat, v.spec_val()),
            Op::In(t) => LOpV::In(*t as nat),
            Op::Out(s) => LOpV::Out(*s as nat),
            Op::Incr(t) => LOpV::Incr(*t as nat),
            Op::Decr(t) => LOpV::Decr(*t as nat),
            Op::Memcopy { from, to, num } => LOpV::Memcopy {
                from: *from as nat,
                to: *to as nat,
                num: *num as nat,
            },
            Op::Call {} => LOpV::Call,
        }
    }
}

impl View for Branch {
    type V = LBranchV;

    open spec fn view(&self) -> LBranchV {
        match self {
            Branch::Exit => LBranchV::Exit,
            Branch::Return(n) => LBranchV::Return(*n as nat),
            Branch::Goto(n) => LBranchV::Goto(*n as nat),
            Branch::If(p, t, f) => LBranchV::If(*p as nat, *t as nat, *f as nat),
        }
    }
}

impl View for Block {
    type V = LBlockV;

    open spec fn view(&self) -> LBlockV {
        LBlockV { ops: self.ops@.map_values(|o: Op| o@), branch: self.branch@ }
    }
}

impl View for Program {
    type V = LProgV;

    open spec fn view(&self) -> LProgV {
        LProgV {
            entry_id: self.entry_id as nat,
            blocks: self.blocks@.map_values(|p: (usize, Block)| (p.0 as nat, p.1@)),
        }
    }
}

// ------------------------------------------------------------------
// Frame layout: the ascending allocator over output, input, and each
// newly introduced local, in block order then op order.
// ------------------------------------------------------------------

/// A frame accumulator: name-to-offset bindings plus the next free offset.
pub open spec fn frame_put(acc: (Seq<(Seq<char>, nat)>, nat), o: OpV) -> (Seq<(Seq<char>, nat)>, nat) {
    match op_generated(o) {
        Some(l) => if assoc_find(acc.0, l.name) is Some {
            acc
        } else {
            (acc.0.push((l.name, acc.1)), acc.1 + l.ty.spec_size())
        },
        None => acc,
    }
}

pub open spec fn frame_ops(acc: (Seq<(Seq<char>, nat)>, nat), ops: Seq<OpV>) -> (Seq<(Seq<char>, nat)>, nat)
    decreases ops.len(),
{
    if ops.len() == 0 {
        acc
    } else {
        frame_ops(frame_put(acc, ops[0]), ops.drop_first())
    }
}

pub open spec fn frame_blocks(acc: (Seq<(Seq<char>, nat)>, nat), blocks: Seq<(Seq<char>, BlockV)>) -> (Seq<(Seq<char>, nat)>, nat)
    decreases blocks.len(),
{
    if blocks.len() == 0 {
        acc
    } else {
        frame_blocks(frame_ops(acc, blocks[0].1.ops), blocks.drop_first())
    }
}

/// The frame of a function: the return slot comes first, then the input
/// parameter, then each newly introduced local.
pub open spec fn func_frame(f: FuncV) -> (Seq<(Seq<char>, nat)>, nat) {
    frame_blocks(
        (
            seq![(f.input.name, f.output.spec_size())],
            f.output.spec_size() + f.input.ty.spec_size(),
        ),
        f.blocks,
    )
}

proof fn lemma_frame_ops_split(acc: (Seq<(Seq<char>, nat)>, nat), a: Seq<OpV>, b: Seq<OpV>)
    ensures
        frame_ops(acc, a + b) == frame_ops(frame_ops(acc, a), b),
    decreases a.len(),
{
    if a.len() == 0 {
        assert(a + b =~= b);
    } else {
        assert((a + b).drop_first() =~= a.drop_first() + b);
        lemma_frame_ops_split(frame_put(acc, a[0]), a.drop_first(), b);
    }
}

proof fn lemma_frame_ops_snoc(acc: (Seq<(Seq<char>, nat)>, nat), ops: Seq<OpV>, i: int)
    requires
        0 <= i < ops.len(),
    ensures
        frame_ops(acc, ops.take(i + 1)) == frame_put(frame_ops(acc, ops.take(i)), ops[i]),
{
    assert(ops.take(i + 1) =~= ops.take(i) + seq![ops[i]]);
    lemma_frame_ops_split(acc, ops.take(i), seq![ops[i]]);
    assert(seq![ops[i]].drop_first() =~= Seq::<OpV>::empty());
    let mid = frame_put(frame_ops(acc, ops.take(i)), ops[i]);
    assert(frame_ops(mid, Seq::<OpV>::empty()) == mid);
    assert(frame_ops(frame_ops(acc, ops.take(i)), seq![ops[i]]) == mid);
}

proof fn lemma_frame_blocks_split(acc: (Seq<(Seq<char>, nat)>, nat), a: Seq<(Seq<char>, BlockV)>, b: Seq<(Seq<char>, BlockV)>)
    ensures
        frame_blocks(acc, a + b) == frame_blocks(frame_blocks(acc, a), b),
    decreases a.len(),
{
    if a.len() == 0 {
        assert(a + b =~= b);
    } else {
        assert((a + b).drop_first() =~= a.drop_first() + b);
        lemma_frame_blocks_split(frame_ops(acc, a[0].1.ops), a.drop_first(), b);
    }
}

proof fn lemma_frame_blocks_snoc(acc: (Seq<(Seq<char>, nat)>, nat), blocks: Seq<(Seq<char>, BlockV)>, i: int)
    requires
        0 <= i < blocks.len(),
    ensures
        frame_blocks(acc, blocks.take(i + 1)) == frame_ops(frame_blocks(acc, blocks.take(i)), blocks[i].1.ops),
{
    assert(blocks.take(i + 1) =~= blocks.take(i) + seq![blocks[i]]);
    lemma_frame_blocks_split(acc, blocks.take(i), seq![blocks[i]]);
    assert(seq![blocks[i]].drop_first() =~= Seq::<(Seq<char>, BlockV)>::empty());
    let mid = frame_ops(frame_blocks(acc, blocks.take(i)), blocks[i].1.ops);
    assert(frame_blocks(mid, Seq::<(Seq<char>, BlockV)>::empty()) == mid);
    assert(frame_blocks(frame_blocks(acc, blocks.take(i)), seq![blocks[i]]) == mid);
}

/// The allocator only moves forward, and bindings only accumulate.
proof fn lemma_frame_ops_mono(acc: (Seq<(Seq<char>, nat)>, nat), ops: Seq<OpV>)
    ensures
        acc.1 <= frame_ops(acc, ops).1,
        acc.0.len() <= frame_ops(acc, ops).0.len(),
        frame_ops(acc, ops).0.take(acc.0.len() as int) == acc.0,
    decreases ops.len(),
{
    if ops.len() == 0 {
        assert(frame_ops(acc, ops).0.take(acc.0.len() as int) =~= acc.0);
    } else {
        let acc1 = frame_put(acc, ops[0]);
        lemma_frame_ops_mono(acc1, ops.drop_first());
        assert(acc1.0.take(acc.0.len() as int) =~= acc.0);
        assert(frame_ops(acc, ops).0.take(acc.0.len() as int)
            =~= frame_ops(acc1, ops.drop_first()).0.take(acc1.0.len() as int).take(acc.0.len() as int));
    }
}

proof fn lemma_frame_blocks_mono(acc: (Seq<(Seq<char>, nat)>, nat), blocks: Seq<(Seq<char>, BlockV)>)
    ensures
        acc.1 <= frame_blocks(acc, blocks).1,
        acc.0.len() <= frame_blocks(acc, blocks).0.len(),
        frame_blocks(acc, blocks).0.take(acc.0.len() as int) == acc.0,
    decreases blocks.len(),
{
    if blocks.len() == 0 {
        assert(frame_blocks(acc, blocks).0.take(acc.0.len() as int) =~= acc.0);
    } else {
        let acc1 = frame_ops(acc, blocks[0].1.ops);
        lemma_frame_ops_mono(acc, blocks[0].1.ops);
        lemma_frame_blocks_mono(acc1, blocks.drop_first());
        assert(acc1.0.take(acc.0.len() as int) =~= acc.0);
        assert(frame_blocks(acc, blocks).0.take(acc.0.len() as int)
            =~= frame_blocks(acc1, blocks.drop_first()).0.take(acc1.0.len() as int).take(acc.0.len() as int));
    }
}

// ------------------------------------------------------------------
// Lowering of ops, branches, blocks and whole programs.
// ------------------------------------------------------------------

/// Offset of a bound name in a frame.
pub open spec fn off_of(fb: Seq<(Seq<char>, nat)>, n: Seq<char>) -> nat {
    assoc_find(fb, n).unwrap()
}

/// Index of the first key equal to `k`, or -1 when absent.
pub open spec fn key_index(ks: Seq<Seq<char>>, k: Seq<char>) -> int
    decreases ks.len(),
{
    if ks.len() == 0 {
        -1
    } else if ks[0] == k {
        0
    } else if key_index(ks.drop_first(), k) == -1 {
        -1
    } else {
        1 + key_index(ks.drop_first(), k)
    }
}

pub open spec fn block_keys(f: FuncV) -> Seq<Seq<char>> {
    f.blocks.map_values(|p: (Seq<char>, BlockV)| p.0)
}

/// Every op except `Call` has a defined lowering.
pub open spec fn op_supported(o: OpV) -> bool {
    !(o matches OpV::Call(_, _, _))
}

/// The locals an op mentions.
pub open spec fn op_locals(o: OpV) -> Seq<hir::LocalV> {
    match o {
        OpV::Unary(t, _, a) => seq![t, a],
        OpV::Binary(t, _, a, b) => seq![t, a, b],
        OpV::Decl(t, _) => seq![t],
        OpV::In(t) => seq![t],
        OpV::Out(s) => seq![s],
        OpV::Incr(t) => seq![t],
        OpV::Decr(t) => seq![t],
        OpV::Call(t, _, a) => seq![t, a],
    }
}

pub open spec fn op_bound(fb: Seq<(Seq<char>, nat)>, o: OpV) -> bool {
    forall|i: int| 0 <= i < op_locals(o).len() ==> assoc_find(fb, op_locals(o)[i].name) is Some
}

pub open spec fn lower_op(fb: Seq<(Seq<char>, nat)>, o: OpV) -> LOpV {
    match o {
        OpV::Unary(t, k, a) => LOpV::Unary(off_of(fb, t.name), k, off_of(fb, a.name)),
        OpV::Binary(t, k, a, b) => LOpV::Binary(off_of(fb, t.name), k, off_of(fb, a.name), off_of(fb, b.name)),
        OpV::Decl(t, v) => LOpV::Decl(off_of(fb, t.name), v),
        OpV::In(t) => LOpV::In(off_of(fb, t.name)),
        OpV::Out(s) => LOpV::Out(off_of(fb, s.name)),
        OpV::Incr(t) => LOpV::Incr(off_of(fb, t.name)),
        OpV::Decr(t) => LOpV::Decr(off_of(fb, t.name)),
        OpV::Call(_, _, _) => LOpV::Call,
    }
}

/// Does the branch's local (return value or predicate) resolve?
pub open spec fn branch_bound(fb: Seq<(Seq<char>, nat)>, br: BranchV) -> bool {
    match br {
        BranchV::ReturnVal(l) => assoc_find(fb, l.name) is Some,
        BranchV::If { predicate, .. } => assoc_find(fb, predicate.name) is Some,
        _ => true,
    }
}

/// Do the branch's block-name targets name blocks of the same function?
pub open spec fn branch_targets_ok(f: FuncV, br: BranchV) -> bool {
    match br {
        BranchV::Goto(n) => key_index(block_keys(f), n) >= 0,
        BranchV::If { if_true, if_false, .. } =>
            key_index(block_keys(f), if_true) >= 0 && key_index(block_keys(f), if_false) >= 0,
        _ => true,
    }
}

/// The op a `ReturnVal` branch appends: copy the returned local into the
/// return slot at offset 0.
pub open spec fn branch_extra(fb: Seq<(Seq<char>, nat)>, br: BranchV) -> Seq<LOpV> {
    match br {
        BranchV::ReturnVal(l) => seq![LOpV::Memcopy {
            from: off_of(fb, l.name),
            to: 0,
            num: l.ty.spec_size(),
        }],
        _ => Seq::<LOpV>::empty(),
    }
}

pub open spec fn lower_branch(f: FuncV, base: nat, fb: Seq<(Seq<char>, nat)>, fsize: nat, br: BranchV) -> LBranchV {
    match br {
        BranchV::Exit => LBranchV::Exit,
        BranchV::ReturnVal(_) => LBranchV::Return(fsize),
        BranchV::ReturnNone => LBranchV::Return(fsize),
        BranchV::Goto(n) => LBranchV::Goto((base + key_index(block_keys(f), n)) as nat),
        BranchV::If { predicate, if_true, if_false } => LBranchV::If(
            off_of(fb, predicate.name),
            (base + key_index(block_keys(f), if_true)) as nat,
            (base + key_index(block_keys(f), if_false)) as nat,
        ),
    }
}

pub open spec fn lower_block(f: FuncV, base: nat, fb: Seq<(Seq<char>, nat)>, fsize: nat, b: BlockV) -> LBlockV {
    LBlockV {
        ops: b.ops.map_values(|o: OpV| lower_op(fb, o)) + branch_extra(fb, b.branch),
        branch: lower_branch(f, base, fb, fsize, b.branch),
    }
}

pub open spec fn block_lowerable(fb: Seq<(Seq<char>, nat)>, b: BlockV) -> bool {
    (forall|i: int| 0 <= i < b.ops.len() ==> op_supported(#[trigger] b.ops[i]) && op_bound(fb, b.ops[i]))
        && branch_bound(fb, b.branch)
}

pub open spec fn func_lowerable(f: FuncV) -> bool {
    forall|bi: int| 0 <= bi < f.blocks.len() ==> block_lowerable(func_frame(f).0, #[trigger] f.blocks[bi].1)
}

pub open spec fn prog_lowerable(p: ProgV) -> bool {
    forall|fi: int| 0 <= fi < p.funcs.len() ==> func_lowerable(#[trigger] p.funcs[fi].1)
}

/// Number of blocks in the functions before index `fi`.
pub open spec fn blocks_before(funcs: Seq<(Seq<char>, FuncV)>, fi: int) -> nat
    decreases fi,
{
    if fi <= 0 {
        0
    } else {
        blocks_before(funcs, fi - 1) + funcs[fi - 1].1.blocks.len()
    }
}

/// The lowered blocks of one function: ids `base`, `base + 1`, ... in
/// block order.
pub open spec fn func_blocks_lowered(f: FuncV, base: nat) -> Seq<(nat, LBlockV)> {
    Seq::new(
        f.blocks.len(),
        |bi: int| ((base + bi) as nat, lower_block(f, base, func_frame(f).0, func_frame(f).1, f.blocks[bi].1)),
    )
}

/// All lowered blocks of the functions from index `fi` on.
pub open spec fn lower_funcs_from(funcs: Seq<(Seq<char>, FuncV)>, fi: int) -> Seq<(nat, LBlockV)>
    decreases funcs.len() - fi,
{
    if fi < 0 || fi >= funcs.len() {
        Seq::<(nat, LBlockV)>::empty()
    } else {
        func_blocks_lowered(funcs[fi].1, 1 + blocks_before(funcs, fi)) + lower_funcs_from(funcs, fi + 1)
    }
}

/// The entry block is the block named "entry" of the function named "main".
pub open spec fn spec_entry_id(p: ProgV) -> nat {
    let mf = key_index(p.funcs.map_values(|q: (Seq<char>, FuncV)| q.0), "main"@);
    let eb = key_index(block_keys(p.funcs[mf].1), "entry"@);
    (1 + blocks_before(p.funcs, mf) + eb) as nat
}

/// The whole lowering, as a mathematical function.
pub open spec fn spec_lower(p: ProgV) -> LProgV {
    LProgV { entry_id: spec_entry_id(p), blocks: lower_funcs_from(p.funcs, 0) }
}

/// Inputs the lowering accepts without panicking: an entry block exists,
/// every branch target resolves, and counters fit the machine word.
pub open spec fn lowering_inputs_ok(p: ProgV) -> bool {
    &&& key_index(p.funcs.map_values(|q: (Seq<char>, FuncV)| q.0), "main"@) >= 0
    &&& key_index(
        block_keys(p.funcs[key_index(p.funcs.map_values(|q: (Seq<char>, FuncV)| q.0), "main"@)].1),
        "entry"@,
    ) >= 0
    &&& forall|fi: int, bi: int|
        0 <= fi < p.funcs.len() && 0 <= bi < p.funcs[fi].1.blocks.len()
            ==> branch_targets_ok(p.funcs[fi].1, #[trigger] p.funcs[fi].1.blocks[bi].1.branch)
    &&& forall|fi: int| 0 <= fi < p.funcs.len() ==> func_frame(#[trigger] p.funcs[fi].1).1 <= usize::MAX
    &&& 1 + blocks_before(p.funcs, p.funcs.len() as int) <= usize::MAX
    &&& forall|fi: int, bi: int|
        0 <= fi < p.funcs.len() && 0 <= bi < p.funcs[fi].1.blocks.len()
            ==> ((#[trigger] p.funcs[fi].1.blocks[bi].1.branch) matches BranchV::ReturnVal(l)
                ==> l.ty.spec_size() <= usize::MAX)
}

/// Witnesses for the two lowering errors.
pub open spec fn block_has_call(b: BlockV) -> bool {
    exists|i: int| 0 <= i < b.ops.len() && (#[trigger] b.ops[i]) matches OpV::Call(_, _, _)
}

pub open spec fn prog_has_call(p: ProgV) -> bool {
    exists|fi: int, bi: int|
        0 <= fi < p.funcs.len() && 0 <= bi < p.funcs[fi].1.blocks.len()
            && block_has_call(#[trigger] p.funcs[fi].1.blocks[bi].1)
}

pub open spec fn block_unbound(fb: Seq<(Seq<char>, nat)>, b: BlockV, n: Seq<char>) -> bool {
    ||| exists|i: int, j: int|
        0 <= i < b.ops.len() && 0 <= j < op_locals(b.ops[i]).len()
            && (#[trigger] op_locals(b.ops[i])[j]).name == n && assoc_find(fb, n) is None
    ||| (b.branch matches BranchV::ReturnVal(l) && l.name == n && assoc_find(fb, n) is None)
    ||| (b.branch matches BranchV::If { predicate, .. } && predicate.name == n
        && assoc_find(fb, n) is None)
}

pub open spec fn prog_unbound(p: ProgV, n: Seq<char>) -> bool {
    exists|fi: int, bi: int|
        0 <= fi < p.funcs.len() && 0 <= bi < p.funcs[fi].1.blocks.len()
            && block_unbound(func_frame(p.funcs[fi].1).0, #[trigger] p.funcs[fi].1.blocks[bi].1, n)
}


// ------------------------------------------------------------------
// Executable lowering.
// ------------------------------------------------------------------

/// View of an executable frame table.
pub open spec fn fbv(s: Seq<(String, usize)>) -> Seq<(Seq<char>, nat)> {
    s.map_values(|p: (String, usize)| (p.0@, p.1 as nat))
}

#[verifier::loop_isolation(false)]
fn find_off(fb: &Vec<(String, usize)>, k: &String) -> (r: Option<usize>)
    ensures
        match r {
            Some(o) => assoc_find(fbv(fb@), k@) == Some(o as nat),
            None => assoc_find(fbv(fb@), k@) is None,
        },
{
    let mut i: usize = 0;
    while i < fb.len()
        invariant
            i <= fb@.len(),
            forall|j: int| 0 <= j < i ==> fbv(fb@)[j].0 != k@,
        decreases fb@.len() - i,
    {
        if fb[i].0 == *k {
            proof {
                hir::lemma_assoc_find_at(fbv(fb@), k@, i as int);
            }
            return Some(fb[i].1);
        }
        i = i + 1;
    }
    proof {
        hir::lemma_assoc_find_none(fbv(fb@), k@);
    }
    None
}

proof fn lemma_key_index_at(ks: Seq<Seq<char>>, k: Seq<char>, i: int)
    requires
        0 <= i < ks.len(),
        ks[i] == k,
        forall|j: int| 0 <= j < i ==> ks[j] != k,
    ensures
        key_index(ks, k) == i,
    decreases ks.len(),
{
    if i > 0 {
        lemma_key_index_at(ks.drop_first(), k, i - 1);
    }
}

proof fn lemma_key_index_none(ks: Seq<Seq<char>>, k: Seq<char>)
    requires
        forall|j: int| 0 <= j < ks.len() ==> ks[j] != k,
    ensures
        key_index(ks, k) == -1,
    decreases ks.len(),
{
    if ks.len() > 0 {
        lemma_key_index_none(ks.drop_first(), k);
    }
}

#[verifier::loop_isolation(false)]
fn find_key_index<V>(s: &Vec<(String, V)>, k: &str) -> (r: Option<usize>)
    ensures
        ({
            let ks = s@.map_values(|p: (String, V)| p.0@);
            match r {
                Some(i) => i < s@.len() && key_index(ks, k@) == i as int,
                None => key_index(ks, k@) == -1,
            }
        }),
{
    let ghost ks = s@.map_values(|p: (String, V)| p.0@);
    let key: String = k.to_owned();
    let mut i: usize = 0;
    while i < s.len()
        invariant
            i <= s@.len(),
            forall|j: int| 0 <= j < i ==> ks[j] != k@,
        decreases s@.len() - i,
    {
        if s[i].0 == key {
            proof {
                lemma_key_index_at(ks, k@, i as int);
            }
            return Some(i);
        }
        i = i + 1;
    }
    proof {
        lemma_key_index_none(ks, k@);
    }
    None
}

proof fn lemma_blocks_before_mono(funcs: Seq<(Seq<char>, FuncV)>, i: int, j: int)
    requires
        0 <= i <= j,
    ensures
        blocks_before(funcs, i) <= blocks_before(funcs, j),
    decreases j - i,
{
    if i < j {
        lemma_blocks_before_mono(funcs, i, j - 1);
    }
}

/// A function's local-to-offset table together with its frame size.
pub struct FrameTable {
    pub locals: Vec<(String, usize)>,
    pub size: usize,
}

/// The frame table of one function, with its final frame size.
#[verifier::loop_isolation(false)]
fn build_frame(f: &hir::Function) -> (r: FrameTable)
    requires
        func_frame(f@).1 <= usize::MAX,
    ensures
        fbv(r.locals@) == func_frame(f@).0,
        r.size as nat == func_frame(f@).1,
{
    let ghost fv = f@;
    let ghost acc0 = (
        seq![(fv.input.name, fv.output.spec_size())],
        fv.output.spec_size() + fv.input.ty.spec_size(),
    );
    proof {
        lemma_frame_blocks_mono(acc0, fv.blocks);
    }
    let out_size = f.output.size_of();
    let in_size = f.input.1.size_of();
    let mut fb: Vec<(String, usize)> = Vec::new();
    fb.push((f.input.0.clone(), out_size));
    let mut counter: usize = out_size + in_size;
    proof {
        assert(fbv(fb@) =~= acc0.0);
    }
    let nb = f.blocks.len();
    let mut bi: usize = 0;
    while bi < nb
        invariant
            nb == f.blocks@.len(),
            bi <= nb,
            fbv(fb@) == frame_blocks(acc0, fv.blocks.take(bi as int)).0,
            counter as nat == frame_blocks(acc0, fv.blocks.take(bi as int)).1,
        decreases nb - bi,
    {
        let ghost accb = frame_blocks(acc0, fv.blocks.take(bi as int));
        let ghost opsv = fv.blocks[bi as int].1.ops;
        proof {
            lemma_frame_blocks_snoc(acc0, fv.blocks, bi as int);
            // the whole frame extends what this block adds
            assert(fv.blocks =~= fv.blocks.take(bi as int + 1) + fv.blocks.skip(bi as int + 1));
            lemma_frame_blocks_split(acc0, fv.blocks.take(bi as int + 1), fv.blocks.skip(bi as int + 1));
            lemma_frame_blocks_mono(frame_blocks(acc0, fv.blocks.take(bi as int + 1)), fv.blocks.skip(bi as int + 1));
        }
        let no = f.blocks[bi].1.ops.len();
        let mut oi: usize = 0;
        while oi < no
            invariant
                no == opsv.len(),
                bi < nb,
                oi <= no,
                fbv(fb@) == frame_ops(accb, opsv.take(oi as int)).0,
                counter as nat == frame_ops(accb, opsv.take(oi as int)).1,
            decreases no - oi,
        {
            proof {
                lemma_frame_ops_snoc(accb, opsv, oi as int);
                assert(opsv =~= opsv.take(oi as int + 1) + opsv.skip(oi as int + 1));
                lemma_frame_ops_split(accb, opsv.take(oi as int + 1), opsv.skip(oi as int + 1));
                lemma_frame_ops_mono(frame_ops(accb, opsv.take(oi as int + 1)), opsv.skip(oi as int + 1));
                assert(frame_ops(accb, opsv) == frame_blocks(acc0, fv.blocks.take(bi as int + 1)));
                assert(frame_ops(accb, opsv.take(oi as int + 1)).1 <= func_frame(fv).1);
            }
            match f.blocks[bi].1.ops[oi].generated_local() {
                Some(local) => {
                    match find_off(&fb, &local.0) {
                        Some(_) => {
                            proof {
                                assert((fbv(fb@), counter as nat) == frame_ops(accb, opsv.take(oi as int + 1)));
                            }
                        },
                        None => {
                            fb.push((local.0.clone(), counter));
                            let sz = local.1.size_of();
                            counter = counter + sz;
                            proof {
                                assert(fbv(fb@) =~= frame_ops(accb, opsv.take(oi as int)).0.push((local@.name, frame_ops(accb, opsv.take(oi as int)).1)));
                                assert((fbv(fb@), counter as nat) == frame_ops(accb, opsv.take(oi as int + 1)));
                            }
                        },
                    }
                },
                None => {
                    proof {
                        assert((fbv(fb@), counter as nat) == frame_ops(accb, opsv.take(oi as int + 1)));
                    }
                },
            }
            oi = oi + 1;
        }
        proof {
            assert(opsv.take(opsv.len() as int) =~= opsv);
            assert((fbv(fb@), counter as nat) == frame_blocks(acc0, fv.blocks.take(bi as int + 1)));
        }
        bi = bi + 1;
    }
    proof {
        assert(fv.blocks.take(fv.blocks.len() as int) =~= fv.blocks);
    }
    FrameTable { locals: fb, size: counter }
}


/// A name the op mentions that is not bound in the frame.
pub open spec fn op_unbound_name(fb: Seq<(Seq<char>, nat)>, o: OpV, n: Seq<char>) -> bool {
    exists|j: int|
        0 <= j < op_locals(o).len() && (#[trigger] op_locals(o)[j]).name == n
            && assoc_find(fb, n) is None
}

fn lower_local(fb: &Vec<(String, usize)>, l: &hir::Local) -> (r: Result<usize, Error>)
    ensures
        match r {
            Ok(o) => assoc_find(fbv(fb@), l@.name) == Some(o as nat),
            Err(e) => assoc_find(fbv(fb@), l@.name) is None
                && (e matches Error::Lir(LirError::NoSuchLocal(n)) && n@ == l@.name),
        },
{
    match find_off(fb, &l.0) {
        Some(o) => Ok(o),
        None => Err(Error::Lir(LirError::NoSuchLocal(l.0.clone()))),
    }
}

/// Lower one op by substituting frame offsets for names.
fn lower_op_exec(fb: &Vec<(String, usize)>, op: &hir::Op) -> (r: Result<Op, Error>)
    ensures
        match r {
            Ok(o) => op_supported(op@) && op_bound(fbv(fb@), op@)
                && o@ == lower_op(fbv(fb@), op@),
            Err(e) => !(op_supported(op@) && op_bound(fbv(fb@), op@))
                && match e {
                    Error::Lir(LirError::UnsupportedOp) => op@ matches OpV::Call(_, _, _),
                    Error::Lir(LirError::NoSuchLocal(n)) => op_unbound_name(fbv(fb@), op@, n@),
                    _ => false,
                },
        },
{
    let ghost fbg = fbv(fb@);
    match op {
        hir::Op::Unary(t, k, a) => {
            let to = match lower_local(fb, t) {
                Ok(o) => o,
                Err(e) => {
                    proof {
                        assert(op_locals(op@)[0] == t@);
                    }
                    return Err(e);
                },
            };
            let ao = match lower_local(fb, a) {
                Ok(o) => o,
                Err(e) => {
                    proof {
                        assert(op_locals(op@)[1] == a@);
                    }
                    return Err(e);
                },
            };
            proof {
                assert(forall|i: int| 0 <= i < 2 ==> assoc_find(fbg, op_locals(op@)[i].name) is Some);
            }
            Ok(Op::Unary(to, *k, ao))
        },
        hir::Op::Binary(t, k, a, b) => {
            let to = match lower_local(fb, t) {
                Ok(o) => o,
                Err(e) => {
                    proof {
                        assert(op_locals(op@)[0] == t@);
                    }
                    return Err(e);
                },
            };
            let ao = match lower_local(fb, a) {
                Ok(o) => o,
                Err(e) => {
                    proof {
                        assert(op_locals(op@)[1] == a@);
                    }
                    return Err(e);
                },
            };
            let bo = match lower_local(fb, b) {
                Ok(o) => o,
                Err(e) => {
                    proof {
                        assert(op_locals(op@)[2] == b@);
                    }
                    return Err(e);
                },
            };
            proof {
                assert(forall|i: int| 0 <= i < 3 ==> assoc_find(fbg, op_locals(op@)[i].name) is Some);
            }
            Ok(Op::Binary(to, *k, ao, bo))
        },
        hir::Op::Decl(t, v) => {
            let to = match lower_local(fb, t) {
                Ok(o) => o,
                Err(e) => {
                    proof {
                        assert(op_locals(op@)[0] == t@);
                    }
                    return Err(e);
                },
            };
            Ok(Op::Decl(to, v.duplicate()))
        },
        hir::Op::In(t) => {
            let to = match lower_local(fb, t) {
                Ok(o) => o,
                Err(e) => {
                    proof {
                        assert(op_locals(op@)[0] == t@);
                    }
                    return Err(e);
                },
            };
            Ok(Op::In(to))
        },
        hir::Op::Out(sl) => {
            let so = match lower_local(fb, sl) {
                Ok(o) => o,
                Err(e) => {
                    proof {
                        assert(op_locals(op@)[0] == sl@);
                    }
                    return Err(e);
                },
            };
            Ok(Op::Out(so))
        },
        hir::Op::Incr(t) => {
            let to = match lower_local(fb, t) {
                Ok(o) => o,
                Err(e) => {
                    proof {
                        assert(op_locals(op@)[0] == t@);
                    }
                    return Err(e);
                },
            };
            Ok(Op::Incr(to))
        },
        hir::Op::Decr(t) => {
            let to = match lower_local(fb, t) {
                Ok(o) => o,
                Err(e) => {
                    proof {
                        assert(op_locals(op@)[0] == t@);
                    }
                    return Err(e);
                },
            };
            Ok(Op::Decr(to))
        },
        hir::Op::Call(_, _, _) => Err(Error::Lir(LirError::UnsupportedOp)),
    }
}

/// Lower one block: ops in order, a `ReturnVal` branch appends the copy
/// into the return slot, and the branch itself is resolved to ids.
#[verifier::loop_isolation(false)]
fn lower_block_exec(f: &hir::Function, base: usize, fb: &Vec<(String, usize)>, fsize: usize, b: &hir::Block) -> (r: Result<Block, Error>)
    requires
        fbv(fb@) == func_frame(f@).0,
        fsize as nat == func_frame(f@).1,
        branch_targets_ok(f@, b@.branch),
        base + f@.blocks.len() <= usize::MAX,
        (b@.branch matches BranchV::ReturnVal(l) ==> l.ty.spec_size() <= usize::MAX),
    ensures
        match r {
            Ok(lb) => block_lowerable(func_frame(f@).0, b@)
                && lb@ == lower_block(f@, base as nat, func_frame(f@).0, func_frame(f@).1, b@),
            Err(e) => !block_lowerable(func_frame(f@).0, b@)
                && match e {
                    Error::Lir(LirError::UnsupportedOp) => block_has_call(b@),
                    Error::Lir(LirError::NoSuchLocal(n)) => block_unbound(func_frame(f@).0, b@, n@),
                    _ => false,
                },
        },
{
    let ghost fbg = func_frame(f@).0;
    let ghost bv = b@;
    let mut lops: Vec<Op> = Vec::new();
    let no = b.ops.len();
    let mut oi: usize = 0;
    while oi < no
        invariant
            no == b.ops@.len(),
            oi <= no,
            lops@.len() == oi,
            forall|j: int| 0 <= j < oi ==> op_supported(#[trigger] bv.ops[j]) && op_bound(fbg, bv.ops[j]),
            forall|j: int| 0 <= j < oi ==> (#[trigger] lops@[j])@ == lower_op(fbg, bv.ops[j]),
        decreases no - oi,
    {
        match lower_op_exec(fb, &b.ops[oi]) {
            Ok(o) => {
                lops.push(o);
            },
            Err(e) => {
                proof {
                    assert(bv.ops[oi as int] == b.ops@[oi as int]@);
                    assert(!block_lowerable(fbg, bv));
                }
                return Err(e);
            },
        }
        oi = oi + 1;
    }
    let branch: Branch = match &b.branch {
        hir::Branch::Exit => Branch::Exit,
        hir::Branch::ReturnNone => Branch::Return(fsize),
        hir::Branch::ReturnVal(l) => {
            match lower_local(fb, l) {
                Ok(off) => {
                    let num = l.1.size_of();
                    lops.push(Op::Memcopy { from: off, to: 0, num });
                    Branch::Return(fsize)
                },
                Err(e) => {
                    proof {
                        assert(!branch_bound(fbg, bv.branch));
                        assert(!block_lowerable(fbg, bv));
                    }
                    return Err(e);
                },
            }
        },
        hir::Branch::Goto(name) => {
            match find_key_index(&f.blocks, name.as_str()) {
                Some(bix) => {
                    proof {
                        assert(f.blocks@.map_values(|p: (String, hir::Block)| p.0@)
                            =~= block_keys(f@));
                    }
                    Branch::Goto(base + bix)
                },
                None => {
                    proof {
                        assert(f.blocks@.map_values(|p: (String, hir::Block)| p.0@)
                            =~= block_keys(f@));
                        assert(false);
                    }
                    Branch::Exit
                },
            }
        },
        hir::Branch::If { predicate, if_true, if_false } => {
            let po = match lower_local(fb, predicate) {
                Ok(o) => o,
                Err(e) => {
                    proof {
                        assert(!branch_bound(fbg, bv.branch));
                        assert(!block_lowerable(fbg, bv));
                    }
                    return Err(e);
                },
            };
            proof {
                assert(f.blocks@.map_values(|p: (String, hir::Block)| p.0@)
                    =~= block_keys(f@));
            }
            let ti = match find_key_index(&f.blocks, if_true.as_str()) {
                Some(i) => i,
                None => {
                    proof {
                        assert(false);
                    }
                    0
                },
            };
            let fi = match find_key_index(&f.blocks, if_false.as_str()) {
                Some(i) => i,
                None => {
                    proof {
                        assert(false);
                    }
                    0
                },
            };
            Branch::If(po, base + ti, base + fi)
        },
    };
    let out = Block { ops: lops, branch };
    proof {
        let lb = lower_block(f@, base as nat, fbg, func_frame(f@).1, bv);
        assert(bv.ops.map_values(|o: OpV| lower_op(fbg, o)).len() == no);
        assert(out@.ops =~= bv.ops.map_values(|o: OpV| lower_op(fbg, o)) + branch_extra(fbg, bv.branch));
        assert(out@ == lb);
    }
    Ok(out)
}


impl Program {
    /// Lower a HIR program: assign block ids in order, assign frame
    /// offsets, and resolve names to offsets and ids.
    #[verifier::loop_isolation(false)]
    pub fn from_hir(hir_prog: &hir::Program) -> (r: Result<Self, Error>)
        requires
            lowering_inputs_ok(hir_prog@),
        ensures
            match r {
                Ok(lp) => prog_lowerable(hir_prog@) && lp@.entry_id == spec_entry_id(hir_prog@)
                    && lp@.blocks =~= spec_lower(hir_prog@).blocks,
                Err(e) => !prog_lowerable(hir_prog@)
                    && match e {
                        Error::Lir(LirError::UnsupportedOp) => prog_has_call(hir_prog@),
                        Error::Lir(LirError::NoSuchLocal(n)) => prog_unbound(hir_prog@, n@),
                        _ => false,
                    },
            },
    {
        let ghost pv = hir_prog@;
        proof {
            assert(hir_prog.funcs@.map_values(|p: (String, hir::Function)| p.0@)
                =~= pv.funcs.map_values(|q: (Seq<char>, FuncV)| q.0));
        }
        let mf = match find_key_index(&hir_prog.funcs, "main") {
            Some(i) => i,
            None => {
                proof {
                    assert(false);
                }
                0
            },
        };
        proof {
            assert(pv.funcs[mf as int].1 == hir_prog.funcs@[mf as int].1@);
            assert(hir_prog.funcs@[mf as int].1.blocks@.map_values(|p: (String, hir::Block)| p.0@)
                =~= block_keys(pv.funcs[mf as int].1));
        }
        let eb = match find_key_index(&hir_prog.funcs[mf].1.blocks, "entry") {
            Some(i) => i,
            None => {
                proof {
                    assert(false);
                }
                0
            },
        };
        // the id base of the "main" function
        let n = hir_prog.funcs.len();
        let mut base_mf: usize = 1;
        let mut fi: usize = 0;
        proof {
            lemma_blocks_before_mono(pv.funcs, mf as int, pv.funcs.len() as int);
        }
        while fi < mf
            invariant
                mf < n,
                n == hir_prog.funcs@.len(),
                fi <= mf,
                base_mf as nat == 1 + blocks_before(pv.funcs, fi as int),
            decreases mf - fi,
        {
            proof {
                lemma_blocks_before_mono(pv.funcs, fi as int + 1, mf as int);
            }
            base_mf = base_mf + hir_prog.funcs[fi].1.blocks.len();
            fi = fi + 1;
        }
        proof {
            assert(blocks_before(pv.funcs, mf as int + 1)
                == blocks_before(pv.funcs, mf as int) + pv.funcs[mf as int].1.blocks.len());
            lemma_blocks_before_mono(pv.funcs, mf as int + 1, pv.funcs.len() as int);
        }
        let entry_id: usize = base_mf + eb;
        proof {
            assert(entry_id as nat == spec_entry_id(pv));
        }

        // lower every block of every function, in order
        let mut blocks_out: Vec<(usize, Block)> = Vec::new();
        let mut base: usize = 1;
        let mut fi2: usize = 0;
        while fi2 < n
            invariant
                n == hir_prog.funcs@.len(),
                fi2 <= n,
                base as nat == 1 + blocks_before(pv.funcs, fi2 as int),
                blocks_out@.map_values(|p: (usize, Block)| (p.0 as nat, p.1@))
                    + lower_funcs_from(pv.funcs, fi2 as int) =~= lower_funcs_from(pv.funcs, 0),
                forall|j: int| 0 <= j < fi2 ==> func_lowerable(#[trigger] pv.funcs[j].1),
            decreases n - fi2,
        {
            let ghost fv = pv.funcs[fi2 as int].1;
            proof {
                assert(fv == hir_prog.funcs@[fi2 as int].1@);
                lemma_blocks_before_mono(pv.funcs, fi2 as int + 1, pv.funcs.len() as int);
            }
            let frame = build_frame(&hir_prog.funcs[fi2].1);
            let nb = hir_prog.funcs[fi2].1.blocks.len();
            let mut bi: usize = 0;
            while bi < nb
                invariant
                    n == hir_prog.funcs@.len(),
                    fi2 < n,
                    fv == pv.funcs[fi2 as int].1,
                    nb == fv.blocks.len(),
                    bi <= nb,
                    base as nat == 1 + blocks_before(pv.funcs, fi2 as int),
                    base + nb <= usize::MAX,
                    fbv(frame.locals@) == func_frame(fv).0,
                    frame.size as nat == func_frame(fv).1,
                    blocks_out@.map_values(|p: (usize, Block)| (p.0 as nat, p.1@))
                        + func_blocks_lowered(fv, base as nat).skip(bi as int)
                        + lower_funcs_from(pv.funcs, fi2 as int + 1) =~= lower_funcs_from(pv.funcs, 0),
                    forall|j: int| 0 <= j < bi ==> block_lowerable(func_frame(fv).0, #[trigger] fv.blocks[j].1),
                decreases nb - bi,
            {
                let ghost bv = fv.blocks[bi as int].1;
                proof {
                    assert(bv == hir_prog.funcs@[fi2 as int].1.blocks@[bi as int].1@);
                }
                match lower_block_exec(&hir_prog.funcs[fi2].1, base, &frame.locals, frame.size, &hir_prog.funcs[fi2].1.blocks[bi].1) {
                    Ok(lb) => {
                        blocks_out.push((base + bi, lb));
                        proof {
                            assert(func_blocks_lowered(fv, base as nat).skip(bi as int)
                                =~= seq![func_blocks_lowered(fv, base as nat)[bi as int]]
                                    + func_blocks_lowered(fv, base as nat).skip(bi as int + 1));
                            assert(blocks_out@.map_values(|p: (usize, Block)| (p.0 as nat, p.1@))
                                =~= blocks_out@.map_values(|p: (usize, Block)| (p.0 as nat, p.1@)));
                        }
                    },
                    Err(e) => {
                        proof {
                            assert(!func_lowerable(fv));
                            assert(!prog_lowerable(pv));
                            match &e {
                                Error::Lir(LirError::UnsupportedOp) => {
                                    assert(block_has_call(bv));
                                    assert(prog_has_call(pv));
                                },
                                Error::Lir(LirError::NoSuchLocal(nm)) => {
                                    assert(block_unbound(func_frame(fv).0, bv, nm@));
                                    assert(prog_unbound(pv, nm@));
                                },
                                _ => {},
                            }
                        }
                        return Err(e);
                    },
                }
                bi = bi + 1;
            }
            proof {
                assert(func_blocks_lowered(fv, base as nat).skip(nb as int)
                    =~= Seq::<(nat, LBlockV)>::empty());
            }
            base = base + nb;
            fi2 = fi2 + 1;
        }
        proof {
            assert(lower_funcs_from(pv.funcs, n as int) =~= Seq::<(nat, LBlockV)>::empty());
            assert(blocks_out@.map_values(|p: (usize, Block)| (p.0 as nat, p.1@))
                =~= lower_funcs_from(pv.funcs, 0));
        }
        Ok(Program { entry_id, blocks: blocks_out })
    }
}


// ------------------------------------------------------------------
// Frame monotonicity.
// ------------------------------------------------------------------

/// A well-formed frame accumulator: offsets strictly increase in binding
/// order, names are distinct, and every offset lies below the counter.
pub open spec fn frame_wf(acc: (Seq<(Seq<char>, nat)>, nat)) -> bool {
    &&& forall|i: int, j: int|
        0 <= i < j < acc.0.len() ==> (#[trigger] acc.0[i]).1 < (#[trigger] acc.0[j]).1
    &&& forall|i: int, j: int|
        0 <= i < j < acc.0.len() ==> (#[trigger] acc.0[i]).0 != (#[trigger] acc.0[j]).0
    &&& forall|i: int| 0 <= i < acc.0.len() ==> (#[trigger] acc.0[i]).1 < acc.1
}

/// Every local an op generates has a positive size.
pub open spec fn ops_positive(ops: Seq<OpV>) -> bool {
    forall|i: int|
        0 <= i < ops.len() ==> (match op_generated(#[trigger] ops[i]) {
            Some(l) => l.ty.spec_size() > 0,
            None => true,
        })
}

pub open spec fn positive_locals(f: FuncV) -> bool {
    &&& f.input.ty.spec_size() > 0
    &&& forall|bi: int| 0 <= bi < f.blocks.len() ==> ops_positive((#[trigger] f.blocks[bi]).1.ops)
}

proof fn lemma_assoc_find_none_keys<V>(s: Seq<(Seq<char>, V)>, k: Seq<char>)
    requires
        assoc_find(s, k) is None,
    ensures
        forall|j: int| 0 <= j < s.len() ==> (#[trigger] s[j]).0 != k,
    decreases s.len(),
{
    if s.len() > 0 {
        assert(s[0].0 != k);
        lemma_assoc_find_none_keys(s.drop_first(), k);
        assert forall|j: int| 1 <= j < s.len() implies (#[trigger] s[j]).0 != k by {
            assert(s.drop_first()[j - 1] == s[j]);
        }
    }
}

proof fn lemma_frame_put_wf(acc: (Seq<(Seq<char>, nat)>, nat), o: OpV)
    requires
        frame_wf(acc),
        match op_generated(o) {
            Some(l) => l.ty.spec_size() > 0,
            None => true,
        },
    ensures
        frame_wf(frame_put(acc, o)),
{
    match op_generated(o) {
        Some(l) => {
            if assoc_find(acc.0, l.name) is None {
                lemma_assoc_find_none_keys(acc.0, l.name);
            }
        },
        None => {},
    }
}

proof fn lemma_frame_ops_wf(acc: (Seq<(Seq<char>, nat)>, nat), ops: Seq<OpV>)
    requires
        frame_wf(acc),
        ops_positive(ops),
    ensures
        frame_wf(frame_ops(acc, ops)),
    decreases ops.len(),
{
    if ops.len() > 0 {
        lemma_frame_put_wf(acc, ops[0]);
        assert(forall|i: int| 0 <= i < ops.drop_first().len() ==> ops.drop_first()[i] == ops[i + 1]);
        lemma_frame_ops_wf(frame_put(acc, ops[0]), ops.drop_first());
    }
}

proof fn lemma_frame_blocks_wf(acc: (Seq<(Seq<char>, nat)>, nat), blocks: Seq<(Seq<char>, BlockV)>)
    requires
        frame_wf(acc),
        forall|bi: int| 0 <= bi < blocks.len() ==> ops_positive((#[trigger] blocks[bi]).1.ops),
    ensures
        frame_wf(frame_blocks(acc, blocks)),
    decreases blocks.len(),
{
    if blocks.len() > 0 {
        lemma_frame_ops_wf(acc, blocks[0].1.ops);
        assert(forall|i: int| 0 <= i < blocks.drop_first().len() ==> blocks.drop_first()[i] == blocks[i + 1]);
        lemma_frame_blocks_wf(frame_ops(acc, blocks[0].1.ops), blocks.drop_first());
    }
}

/// Frame monotonicity: when every local of a function has a positive
/// size, the assigned offsets strictly increase with allocation order,
/// no two distinct locals share an offset, and every offset lies below
/// the frame size.
pub proof fn lemma_frame_monotonicity(f: FuncV)
    requires
        positive_locals(f),
    ensures
        forall|i: int, j: int|
            0 <= i < j < func_frame(f).0.len()
                ==> (#[trigger] func_frame(f).0[i]).1 < (#[trigger] func_frame(f).0[j]).1,
        forall|i: int, j: int|
            0 <= i < j < func_frame(f).0.len()
                ==> (#[trigger] func_frame(f).0[i]).0 != (#[trigger] func_frame(f).0[j]).0,
        forall|i: int|
            0 <= i < func_frame(f).0.len()
                ==> (#[trigger] func_frame(f).0[i]).1 < func_frame(f).1,
{
    let acc0 = (
        seq![(f.input.name, f.output.spec_size())],
        f.output.spec_size() + f.input.ty.spec_size(),
    );
    assert(frame_wf(acc0));
    lemma_frame_blocks_wf(acc0, f.blocks);
}

} // verus!
