use vstd::prelude::*;
use super::{Type, Value, ValueV, OpKind};
use super::lir;
use crate::Error;

verus! {

/// Mathematical view of a named local: the name's characters and its type.
pub struct LocalV {
    pub name: Seq<char>,
    pub ty: Type,
}

/// Mathematical view of an op.
pub enum OpV {
    Unary(LocalV, OpKind, LocalV),
    Binary(LocalV, OpKind, LocalV, LocalV),
    Decl(LocalV, ValueV),
    In(LocalV),
    Out(LocalV),
    Incr(LocalV),
    Decr(LocalV),
    Call(LocalV, Seq<char>, LocalV),
}

/// Mathematical view of a branch.
pub enum BranchV {
    ReturnVal(LocalV),
    ReturnNone,
    Exit,
    Goto(Seq<char>),
    If { predicate: LocalV, if_true: Seq<char>, if_false: Seq<char> },
}

pub struct BlockV {
    pub ops: Seq<OpV>,
    pub branch: BranchV,
}

pub struct FuncV {
    pub output: Type,
    pub input: LocalV,
    pub blocks: Seq<(Seq<char>, BlockV)>,
}

pub struct ProgV {
    pub funcs: Seq<(Seq<char>, FuncV)>,
}

/// A named, typed local.
#[derive(Debug)]
pub struct Local(pub String, pub Type);

impl View for Local {
    type V = LocalV;

    open spec fn view(&self) -> LocalV {
        LocalV { name: self.0@, ty: self.1 }
    }
}

#[derive(Debug)]
pub enum Op {
    Unary(Local, OpKind, Local),
    Binary(Local, OpKind, Local, Local),
    Decl(Local, Value),
    In(Local),
    Out(Local),
    Incr(Local),
    Decr(Local),
    Call(Local, String, Local),
}

impl View for Op {
    type V = OpV;

    open spec fn view(&self) -> OpV {
        match self {
            Op::Unary(t, k, a) => OpV::Unary(t@, *k, a@),
            Op::Binary(t, k, a, b) => OpV::Binary(t@, *k, a@, b@),
            Op::Decl(t, v) => OpV::Decl(t@, v.spec_val()),
            Op::In(t) => OpV::In(t@),
            Op::Out(s) => OpV::Out(s@),
            Op::Incr(t) => OpV::Incr(t@),
            Op::Decr(t) => OpV::Decr(t@),
            Op::Call(t, f, a) => OpV::Call(t@, f@, a@),
        }
    }
}

#[derive(Debug)]
pub enum Branch {
    ReturnVal(Local),
    ReturnNone,
    Exit,
    Goto(String),
    If { predicate: Local, if_true: String, if_false: String },
}

impl View for Branch {
    type V = BranchV;

    open spec fn view(&self) -> BranchV {
        match self {
            Branch::ReturnVal(l) => BranchV::ReturnVal(l@),
            Branch::ReturnNone => BranchV::ReturnNone,
            Branch::Exit => BranchV::Exit,
            Branch::Goto(n) => BranchV::Goto(n@),
            Branch::If { predicate, if_true, if_false } => BranchV::If {
                predicate: predicate@,
                if_true: if_true@,
                if_false: if_false@,
            },
        }
    }
}

/// A straight-line sequence of ops terminated by exactly one branch.
#[derive(Debug)]
pub struct Block {
    pub ops: Vec<Op>,
    pub branch: Branch,
}

impl View for Block {
    type V = BlockV;

    open spec fn view(&self) -> BlockV {
        BlockV { ops: self.ops@.map_values(|o: Op| o@), branch: self.branch@ }
    }
}

/// A function: an output type, one named input parameter, and named blocks.
#[derive(Debug)]
pub struct Function {
    pub output: Type,
    pub input: (String, Type),
    pub blocks: Vec<(String, Block)>,
}

impl View for Function {
    type V = FuncV;

    open spec fn view(&self) -> FuncV {
        FuncV {
            output: self.output,
            input: LocalV { name: self.input.0@, ty: self.input.1 },
            blocks: self.blocks@.map_values(|p: (String, Block)| (p.0@, p.1@)),
        }
    }
}

/// A program: a name-keyed table of functions, in insertion order.
#[derive(Debug)]
pub struct Program {
    pub funcs: Vec<(String, Function)>,
}

impl View for Program {
    type V = ProgV;

    open spec fn view(&self) -> ProgV {
        ProgV { funcs: self.funcs@.map_values(|p: (String, Function)| (p.0@, p.1@)) }
    }
}

/// Name-keyed update: replace the first entry with key `k`, or append a new
/// entry at the end.
pub open spec fn assoc_put<V>(s: Seq<(Seq<char>, V)>, k: Seq<char>, v: V) -> Seq<(Seq<char>, V)>
    decreases s.len(),
{
    if s.len() == 0 {
        seq![(k, v)]
    } else if s[0].0 == k {
        seq![(k, v)] + s.drop_first()
    } else {
        seq![s[0]] + assoc_put(s.drop_first(), k, v)
    }
}

/// First entry with key `k`, if any.
pub open spec fn assoc_find<V>(s: Seq<(Seq<char>, V)>, k: Seq<char>) -> Option<V>
    decreases s.len(),
{
    if s.len() == 0 {
        None
    } else if s[0].0 == k {
        Some(s[0].1)
    } else {
        assoc_find(s.drop_first(), k)
    }
}

/// Index of the first entry with key `k`, or -1 when absent.
pub open spec fn assoc_index_of<V>(s: Seq<(Seq<char>, V)>, k: Seq<char>) -> int
    decreases s.len(),
{
    if s.len() == 0 {
        -1
    } else if s[0].0 == k {
        0
    } else if assoc_index_of(s.drop_first(), k) == -1 {
        -1
    } else {
        1 + assoc_index_of(s.drop_first(), k)
    }
}

/// A linear scan that stops at the first match agrees with `assoc_find`.
pub proof fn lemma_assoc_find_at<V>(s: Seq<(Seq<char>, V)>, k: Seq<char>, i: int)
    requires
        0 <= i < s.len(),
        s[i].0 == k,
        forall|j: int| 0 <= j < i ==> s[j].0 != k,
    ensures
        assoc_find(s, k) == Some(s[i].1),
    decreases s.len(),
{
    if i > 0 {
        lemma_assoc_find_at(s.drop_first(), k, i - 1);
    }
}

pub proof fn lemma_assoc_find_none<V>(s: Seq<(Seq<char>, V)>, k: Seq<char>)
    requires
        forall|j: int| 0 <= j < s.len() ==> s[j].0 != k,
    ensures
        assoc_find(s, k) is None,
    decreases s.len(),
{
    if s.len() > 0 {
        lemma_assoc_find_none(s.drop_first(), k);
    }
}

impl Program {
    pub fn new() -> (r: Self)
        ensures
            r@.funcs =~= Seq::<(Seq<char>, FuncV)>::empty(),
    {
        Self { funcs: Vec::new() }
    }

    #[verifier::loop_isolation(false)]
    pub fn with_function(self, name: &str, func: Function) -> (r: Self)
        ensures
            r@.funcs =~= assoc_put(self@.funcs, name@, func@),
    {
        let mut this = self;
        let key: String = name.to_owned();
        let n = this.funcs.len();
        let mut i: usize = 0;
        while i < n
            invariant
                n == this.funcs.len(),
                i <= n,
                this == self,
                forall|j: int| 0 <= j < i ==> self@.funcs[j].0 != name@,
            decreases n - i,
        {
            if this.funcs[i].0 == key {
                this.funcs.set(i, (key, func));
                proof {
                    lemma_assoc_put_found(self@.funcs, name@, func@, i as int);
                }
                return this;
            }
            i = i + 1;
        }
        this.funcs.push((key, func));
        proof {
            lemma_assoc_put_absent(self@.funcs, name@, func@);
        }
        this
    }

    /// Lower this program to LIR.
    pub fn to_lir(&self) -> (r: Result<lir::Program, Error>)
        requires
            lir::lowering_inputs_ok(self@),
        ensures
            match r {
                Ok(lp) => lir::prog_lowerable(self@) && lp@.entry_id == lir::spec_entry_id(self@)
                    && lp@.blocks =~= lir::spec_lower(self@).blocks,
                Err(e) => !lir::prog_lowerable(self@)
                    && match e {
                        Error::Lir(lir::LirError::UnsupportedOp) => lir::prog_has_call(self@),
                        Error::Lir(lir::LirError::NoSuchLocal(n)) => lir::prog_unbound(self@, n@),
                        _ => false,
                    },
            },
    {
        lir::Program::from_hir(self)
    }

    pub fn functions(&self) -> (r: &Vec<(String, Function)>)
        ensures
            r@.map_values(|p: (String, Function)| (p.0@, p.1@)) == self@.funcs,
    {
        &self.funcs
    }
}

/// When no entry has the key, `assoc_put` appends.
proof fn lemma_assoc_put_absent<V>(s: Seq<(Seq<char>, V)>, k: Seq<char>, v: V)
    requires
        forall|j: int| 0 <= j < s.len() ==> s[j].0 != k,
    ensures
        assoc_put(s, k, v) =~= s + seq![(k, v)],
    decreases s.len(),
{
    if s.len() > 0 {
        lemma_assoc_put_absent(s.drop_first(), k, v);
        assert(forall|j: int| 0 <= j < s.drop_first().len() ==> s.drop_first()[j] == s[j + 1]);
    }
}

/// When the first matching entry is at index `i`, `assoc_put` replaces it.
proof fn lemma_assoc_put_found<V>(s: Seq<(Seq<char>, V)>, k: Seq<char>, v: V, i: int)
    requires
        0 <= i < s.len(),
        s[i].0 == k,
        forall|j: int| 0 <= j < i ==> s[j].0 != k,
    ensures
        assoc_put(s, k, v) =~= s.update(i, (k, v)),
    decreases s.len(),
{
    if i == 0 {
        assert(assoc_put(s, k, v) =~= seq![(k, v)] + s.drop_first());
    } else {
        lemma_assoc_put_found(s.drop_first(), k, v, i - 1);
        assert(assoc_put(s, k, v) =~= seq![s[0]] + s.drop_first().update(i - 1, (k, v)));
    }
}

impl Function {
    pub fn new(output: Type, input: (&str, Type)) -> (r: Self)
        ensures
            r@.output == output,
            r@.input == (LocalV { name: input.0@, ty: input.1 }),
            r@.blocks =~= Seq::<(Seq<char>, BlockV)>::empty(),
    {
        Self {
            output,
            input: (input.0.to_owned(), input.1),
            blocks: Vec::new(),
        }
    }

    #[verifier::loop_isolation(false)]
    pub fn with_block(self, name: &str, block: Block) -> (r: Self)
        ensures
            r@.output == self@.output,
            r@.input == self@.input,
            r@.blocks =~= assoc_put(self@.blocks, name@, block@),
    {
        let mut this = self;
        let key: String = name.to_owned();
        let n = this.blocks.len();
        let mut i: usize = 0;
        while i < n
            invariant
                n == this.blocks.len(),
                i <= n,
                this == self,
                forall|j: int| 0 <= j < i ==> self@.blocks[j].0 != name@,
            decreases n - i,
        {
            if this.blocks[i].0 == key {
                this.blocks.set(i, (key, block));
                proof {
                    lemma_assoc_put_found(self@.blocks, name@, block@, i as int);
                }
                return this;
            }
            i = i + 1;
        }
        this.blocks.push((key, block));
        proof {
            lemma_assoc_put_absent(self@.blocks, name@, block@);
        }
        this
    }

    pub fn blocks(&self) -> (r: &Vec<(String, Block)>)
        ensures
            r@.map_values(|p: (String, Block)| (p.0@, p.1@)) == self@.blocks,
    {
        &self.blocks
    }
}

impl Block {
    pub fn new(branch: Branch) -> (r: Self)
        ensures
            r@.ops =~= Seq::<OpV>::empty(),
            r@.branch == branch@,
    {
        Self { ops: Vec::new(), branch }
    }

    pub fn with_op(self, op: Op) -> (r: Self)
        ensures
            r@.ops =~= self@.ops.push(op@),
            r@.branch == self@.branch,
    {
        let mut this = self;
        this.ops.push(op);
        this
    }
}

/// The target local an op introduces, if any; `Out` introduces none.
pub open spec fn op_generated(o: OpV) -> Option<LocalV> {
    match o {
        OpV::Unary(t, _, _) => Some(t),
        OpV::Binary(t, _, _, _) => Some(t),
        OpV::Decl(t, _) => Some(t),
        OpV::In(t) => Some(t),
        OpV::Out(_) => None,
        OpV::Incr(t) => Some(t),
        OpV::Decr(t) => Some(t),
        OpV::Call(t, _, _) => Some(t),
    }
}

impl Op {
    pub fn byte_decl(tgt: &str, val: Value) -> (r: Self)
        ensures
            r@ == OpV::Decl(LocalV { name: tgt@, ty: Type::Byte }, val.spec_val()),
    {
        Op::Decl(Local(tgt.to_owned(), Type::Byte), val)
    }

    pub fn byte_add(tgt: &str, arg0: &str, arg1: &str) -> (r: Self)
        ensures
            r@ == OpV::Binary(
                LocalV { name: tgt@, ty: Type::Byte },
                OpKind::ByteAdd,
                LocalV { name: arg0@, ty: Type::Byte },
                LocalV { name: arg1@, ty: Type::Byte },
            ),
    {
        Op::Binary(
            Local(tgt.to_owned(), Type::Byte),
            OpKind::ByteAdd,
            Local(arg0.to_owned(), Type::Byte),
            Local(arg1.to_owned(), Type::Byte),
        )
    }

    pub fn byte_sub(tgt: &str, arg0: &str, arg1: &str) -> (r: Self)
        ensures
            r@ == OpV::Binary(
                LocalV { name: tgt@, ty: Type::Byte },
                OpKind::ByteSub,
                LocalV { name: arg0@, ty: Type::Byte },
                LocalV { name: arg1@, ty: Type::Byte },
            ),
    {
        Op::Binary(
            Local(tgt.to_owned(), Type::Byte),
            OpKind::ByteSub,
            Local(arg0.to_owned(), Type::Byte),
            Local(arg1.to_owned(), Type::Byte),
        )
    }

    pub fn byte_incr(tgt: &str) -> (r: Self)
        ensures
            r@ == OpV::Incr(LocalV { name: tgt@, ty: Type::Byte }),
    {
        Op::Incr(Local(tgt.to_owned(), Type::Byte))
    }

    pub fn byte_decr(tgt: &str) -> (r: Self)
        ensures
            r@ == OpV::Decr(LocalV { name: tgt@, ty: Type::Byte }),
    {
        Op::Decr(Local(tgt.to_owned(), Type::Byte))
    }

    pub fn byte_eq(tgt: &str, arg0: &str, arg1: &str) -> (r: Self)
        ensures
            r@ == OpV::Binary(
                LocalV { name: tgt@, ty: Type::Byte },
                OpKind::ByteEq,
                LocalV { name: arg0@, ty: Type::Byte },
                LocalV { name: arg1@, ty: Type::Byte },
            ),
    {
        Op::Binary(
            Local(tgt.to_owned(), Type::Byte),
            OpKind::ByteEq,
            Local(arg0.to_owned(), Type::Byte),
            Local(arg1.to_owned(), Type::Byte),
        )
    }

    pub fn byte_out(arg: &str) -> (r: Self)
        ensures
            r@ == OpV::Out(LocalV { name: arg@, ty: Type::Byte }),
    {
        Op::Out(Local(arg.to_owned(), Type::Byte))
    }

    pub fn byte_in(arg: &str) -> (r: Self)
        ensures
            r@ == OpV::In(LocalV { name: arg@, ty: Type::Byte }),
    {
        Op::In(Local(arg.to_owned(), Type::Byte))
    }

    pub fn generated_local(&self) -> (r: Option<&Local>)
        ensures
            match r {
                Some(l) => op_generated(self@) == Some(l@),
                None => op_generated(self@) is None,
            },
    {
        match self {
            Op::Unary(tgt, _, _) => Some(tgt),
            Op::Binary(tgt, _, _, _) => Some(tgt),
            Op::Decl(tgt, _) => Some(tgt),
            Op::In(tgt) => Some(tgt),
            Op::Out(_) => None,
            Op::Incr(tgt) => Some(tgt),
            Op::Decr(tgt) => Some(tgt),
            Op::Call(tgt, _, _) => Some(tgt),
        }
    }
}

impl Branch {
    pub fn byte_return(arg: &str) -> (r: Self)
        ensures
            r@ == BranchV::ReturnVal(LocalV { name: arg@, ty: Type::Byte }),
    {
        Branch::ReturnVal(Local(arg.to_owned(), Type::Byte))
    }

    pub fn if_not_zero(predicate: &str, if_true: &str, if_false: &str) -> (r: Self)
        ensures
            r@ == (BranchV::If {
                predicate: LocalV { name: predicate@, ty: Type::Byte },
                if_true: if_true@,
                if_false: if_false@,
            }),
    {
        Branch::If {
            predicate: Local(predicate.to_owned(), Type::Byte),
            if_true: if_true.to_owned(),
            if_false: if_false.to_owned(),
        }
    }
}

} // verus!
