use vstd::prelude::*;

pub mod hir;
pub mod lir;

verus! {

/// Monotone counter for block identifiers.
pub struct IdGenerator(pub usize);

impl IdGenerator {
    pub fn next(&mut self) -> (r: usize)
        requires
            old(self).0 < usize::MAX,
        ensures
            r == old(self).0,
            final(self).0 == old(self).0 + 1,
    {
        let old_val = self.0;
        self.0 = self.0 + 1;
        old_val
    }
}

/// Ascending frame-offset allocator: hands out the current offset and
/// advances it by the size of the allocated local.
pub struct OffsetGenerator(pub usize);

impl OffsetGenerator {
    pub fn next(&mut self, sz: usize) -> (r: usize)
        requires
            old(self).0 + sz <= usize::MAX,
        ensures
            r == old(self).0,
            final(self).0 == old(self).0 + sz,
    {
        let old_val = self.0;
        self.0 = self.0 + sz;
        old_val
    }
}

/// The closed set of types a local can have.
#[derive(Debug, PartialEq)]
pub enum Type {
    Empty,
    Byte,
    Boolean,
    Array(Box<Type>, usize),
    Struct(Vec<Type>),
}

/// Values mirror the type grammar; an `Array` value is one element value
/// repeated a number of times.
#[derive(Debug, PartialEq)]
pub enum Value {
    Empty,
    Byte(u8),
    Boolean(bool),
    Array(Box<Value>, usize),
    Struct(Vec<Value>),
}

/// Operator kinds for `Unary` and `Binary` ops.
#[derive(Copy, Clone, Debug)]
pub enum OpKind {
    ByteCopy,
    ByteAdd,
    ByteSub,
    ByteEq,
}

impl Type {
    /// Size of a type in bytes, as a mathematical value.
    pub open spec fn spec_size(self) -> nat
        decreases self,
    {
        match self {
            Type::Empty => 0,
            Type::Byte => 1,
            Type::Boolean => 1,
            Type::Array(t, n) => (*t).spec_size() * (n as nat),
            Type::Struct(ts) => sum_type_sizes(ts@),
        }
    }

    #[verifier::loop_isolation(false)]
    pub fn size_of(&self) -> (r: usize)
        requires
            self.spec_size() <= usize::MAX,
        ensures
            r == self.spec_size(),
        decreases *self,
    {
        match self {
            Type::Empty => 0,
            Type::Byte => 1,
            Type::Boolean => 1,
            Type::Array(t, n) => {
                if *n == 0 {
                    0
                } else {
                    proof {
                        lemma_mul_le_factor(t.spec_size(), *n as nat);
                    }
                    let elem = t.size_of();
                    elem * *n
                }
            },
            Type::Struct(ts) => {
                let mut total: usize = 0;
                let mut i: usize = 0;
                proof {
                    lemma_sum_type_sizes_take(ts@, ts@.len() as int);
                }
                while i < ts.len()
                    invariant
                        i <= ts.len(),
                        sum_type_sizes(ts@) <= usize::MAX,
                        total == sum_type_sizes(ts@.take(i as int)),
                    decreases ts.len() - i,
                {
                    proof {
                        lemma_sum_type_sizes_take_succ(ts@, i as int);
                        lemma_sum_type_sizes_take_le(ts@, i as int + 1, ts@.len() as int);
                        assert(ts@.take(ts@.len() as int) =~= ts@);
                        let tsv = *ts;
                        assert(*self == Type::Struct(tsv));
                        assert(decreases_to!(Type::Struct(tsv) => tsv));
                        assert(decreases_to!(tsv => tsv@));
                        assert(decreases_to!(tsv@ => tsv@[i as int]));
                    }
                    let sz = ts[i].size_of();
                    total = total + sz;
                    i = i + 1;
                }
                proof {
                    assert(ts@.take(ts@.len() as int) =~= ts@);
                }
                total
            },
        }
    }
}

/// Sum of the sizes of a sequence of types.
pub open spec fn sum_type_sizes(ts: Seq<Type>) -> nat
    decreases ts,
{
    if ts.len() == 0 {
        0
    } else {
        ts[0].spec_size() + sum_type_sizes(ts.drop_first())
    }
}

proof fn lemma_mul_le_factor(a: nat, n: nat)
    requires
        n >= 1,
    ensures
        a <= a * n,
{
    assert(a <= a * n) by (nonlinear_arith)
        requires n >= 1;
}

proof fn lemma_sum_type_sizes_take(ts: Seq<Type>, k: int)
    requires
        0 <= k <= ts.len(),
    ensures
        sum_type_sizes(ts.take(k)) <= sum_type_sizes(ts),
    decreases ts.len(),
{
    if ts.len() == 0 {
        assert(ts.take(k) =~= ts);
    } else if k == 0 {
        assert(ts.take(0) =~= Seq::<Type>::empty());
    } else {
        assert(ts.take(k).drop_first() =~= ts.drop_first().take(k - 1));
        lemma_sum_type_sizes_take(ts.drop_first(), k - 1);
    }
}

/// Appending one more type to a prefix adds its size to the prefix sum.
proof fn lemma_sum_type_sizes_take_succ(ts: Seq<Type>, k: int)
    requires
        0 <= k < ts.len(),
    ensures
        sum_type_sizes(ts.take(k + 1)) == sum_type_sizes(ts.take(k)) + ts[k].spec_size(),
    decreases ts.len(),
{
    if k == 0 {
        assert(ts.take(1).drop_first() =~= Seq::<Type>::empty());
        assert(ts.take(0) =~= Seq::<Type>::empty());
    } else {
        assert(ts.take(k + 1).drop_first() =~= ts.drop_first().take(k));
        assert(ts.take(k).drop_first() =~= ts.drop_first().take(k - 1));
        lemma_sum_type_sizes_take_succ(ts.drop_first(), k - 1);
    }
}

proof fn lemma_sum_type_sizes_take_le(ts: Seq<Type>, j: int, k: int)
    requires
        0 <= j <= k <= ts.len(),
    ensures
        sum_type_sizes(ts.take(j)) <= sum_type_sizes(ts.take(k)),
    decreases k - j,
{
    if j < k {
        lemma_sum_type_sizes_take_succ(ts, j);
        lemma_sum_type_sizes_take_le(ts, j + 1, k);
    }
}

/// Mathematical view of a value: the same grammar with ghost sequences.
pub enum ValueV {
    Empty,
    Byte(u8),
    Boolean(bool),
    Array(Box<ValueV>, nat),
    Struct(Seq<ValueV>),
}

impl Value {
    /// The mathematical view of this value.
    pub open spec fn spec_val(self) -> ValueV
        decreases self,
    {
        match self {
            Value::Empty => ValueV::Empty,
            Value::Byte(b) => ValueV::Byte(b),
            Value::Boolean(b) => ValueV::Boolean(b),
            Value::Array(v, n) => ValueV::Array(Box::new((*v).spec_val()), n as nat),
            Value::Struct(vs) => ValueV::Struct(value_views(vs@)),
        }
    }
}

/// Views of each value in a sequence.
pub open spec fn value_views(vs: Seq<Value>) -> Seq<ValueV>
    decreases vs,
{
    if vs.len() == 0 {
        Seq::<ValueV>::empty()
    } else {
        seq![vs[0].spec_val()] + value_views(vs.drop_first())
    }
}

pub proof fn lemma_value_views_elems(vs: Seq<Value>)
    ensures
        value_views(vs).len() == vs.len(),
        forall|i: int| 0 <= i < vs.len() ==> value_views(vs)[i] == vs[i].spec_val(),
    decreases vs,
{
    if vs.len() > 0 {
        lemma_value_views_elems(vs.drop_first());
        assert(forall|i: int| 0 <= i < vs.drop_first().len() ==> vs.drop_first()[i] == vs[i + 1]);
    }
}

impl ValueV {
    /// Serialized bytes of a value: concatenation of per-component
    /// serializations; a boolean is one byte, 0 or 1.
    pub open spec fn spec_bytes(self) -> Seq<u8>
        decreases self,
    {
        match self {
            ValueV::Empty => Seq::<u8>::empty(),
            ValueV::Byte(b) => seq![b],
            ValueV::Boolean(b) => seq![if b { 1u8 } else { 0u8 }],
            ValueV::Array(v, n) => repeat_bytes((*v).spec_bytes(), n),
            ValueV::Struct(vs) => concat_value_bytes(vs),
        }
    }
}

impl Value {
    #[verifier::loop_isolation(false)]
    pub fn to_bytes(&self) -> (r: Vec<u8>)
        ensures
            r@ == self.spec_val().spec_bytes(),
        decreases *self,
    {
        match self {
            Value::Empty => Vec::new(),
            Value::Byte(b) => {
                let mut v: Vec<u8> = Vec::new();
                v.push(*b);
                proof {
                    assert(v@ =~= self.spec_val().spec_bytes());
                }
                v
            },
            Value::Boolean(b) => {
                let mut v: Vec<u8> = Vec::new();
                v.push(if *b { 1 } else { 0 });
                proof {
                    assert(v@ =~= self.spec_val().spec_bytes());
                }
                v
            },
            Value::Array(val, n) => {
                let elem = val.to_bytes();
                let mut v: Vec<u8> = Vec::new();
                let mut i: usize = 0;
                while i < *n
                    invariant
                        i <= *n,
                        elem@ == (**val).spec_val().spec_bytes(),
                        v@ == repeat_bytes(elem@, i as nat),
                    decreases *n - i,
                {
                    let mut j: usize = 0;
                    while j < elem.len()
                        invariant
                            j <= elem@.len(),
                            v@ == repeat_bytes(elem@, i as nat) + elem@.take(j as int),
                        decreases elem@.len() - j,
                    {
                        v.push(elem[j]);
                        proof {
                            assert(elem@.take(j + 1) =~= elem@.take(j as int).push(elem@[j as int]));
                            assert(v@ =~= repeat_bytes(elem@, i as nat) + elem@.take(j + 1));
                        }
                        j = j + 1;
                    }
                    proof {
                        assert(elem@.take(elem@.len() as int) =~= elem@);
                        assert(v@ =~= repeat_bytes(elem@, (i + 1) as nat));
                    }
                    i = i + 1;
                }
                v
            },
            Value::Struct(items) => {
                let mut v: Vec<u8> = Vec::new();
                let mut i: usize = 0;
                proof {
                    lemma_value_views_elems(items@);
                }
                while i < items.len()
                    invariant
                        i <= items@.len(),
                        v@ == concat_value_bytes(value_views(items@).take(i as int)),
                    decreases items@.len() - i,
                {
                    proof {
                        lemma_concat_value_bytes_take_succ(value_views(items@), i as int);
                        let itv = *items;
                        assert(*self == Value::Struct(itv));
                        assert(decreases_to!(Value::Struct(itv) => itv));
                        assert(decreases_to!(itv => itv@));
                        assert(decreases_to!(itv@ => itv@[i as int]));
                    }
                    let mut part = items[i].to_bytes();
                    v.append(&mut part);
                    i = i + 1;
                }
                proof {
                    assert(value_views(items@).take(value_views(items@).len() as int)
                        =~= value_views(items@));
                }
                v
            },
        }
    }

    /// Structural deep copy, proved to have the same view as the original.
    #[verifier::loop_isolation(false)]
    pub fn duplicate(&self) -> (r: Value)
        ensures
            r.spec_val() == self.spec_val(),
        decreases *self,
    {
        match self {
            Value::Empty => Value::Empty,
            Value::Byte(b) => Value::Byte(*b),
            Value::Boolean(b) => Value::Boolean(*b),
            Value::Array(v, n) => {
                proof {
                    let vv = *v;
                    assert(*self == Value::Array(vv, *n));
                    assert(decreases_to!(Value::Array(vv, *n) => vv));
                }
                Value::Array(Box::new(v.duplicate()), *n)
            },
            Value::Struct(items) => {
                let mut copies: Vec<Value> = Vec::new();
                let mut i: usize = 0;
                proof {
                    lemma_value_views_elems(items@);
                }
                while i < items.len()
                    invariant
                        i <= items@.len(),
                        copies@.len() == i,
                        forall|j: int| 0 <= j < i ==> copies@[j].spec_val() == items@[j].spec_val(),
                    decreases items@.len() - i,
                {
                    proof {
                        let itv = *items;
                        assert(*self == Value::Struct(itv));
                        assert(decreases_to!(Value::Struct(itv) => itv));
                        assert(decreases_to!(itv => itv@));
                        assert(decreases_to!(itv@ => itv@[i as int]));
                    }
                    copies.push(items[i].duplicate());
                    i = i + 1;
                }
                proof {
                    lemma_value_views_elems(copies@);
                    assert(value_views(copies@) =~= value_views(items@));
                }
                Value::Struct(copies)
            },
        }
    }
}

/// `n` copies of the byte sequence `b`, concatenated.
pub open spec fn repeat_bytes(b: Seq<u8>, n: nat) -> Seq<u8>
    decreases n,
{
    if n == 0 {
        Seq::<u8>::empty()
    } else {
        repeat_bytes(b, (n - 1) as nat) + b
    }
}

/// Concatenation of the serializations of a sequence of values.
pub open spec fn concat_value_bytes(vs: Seq<ValueV>) -> Seq<u8>
    decreases vs,
{
    if vs.len() == 0 {
        Seq::<u8>::empty()
    } else {
        vs[0].spec_bytes() + concat_value_bytes(vs.drop_first())
    }
}

proof fn lemma_concat_value_bytes_take_succ(vs: Seq<ValueV>, k: int)
    requires
        0 <= k < vs.len(),
    ensures
        concat_value_bytes(vs.take(k + 1)) == concat_value_bytes(vs.take(k)) + vs[k].spec_bytes(),
    decreases vs.len(),
{
    if k == 0 {
        assert(vs.take(1).drop_first() =~= Seq::<ValueV>::empty());
        assert(vs.take(0) =~= Seq::<ValueV>::empty());
        assert(concat_value_bytes(vs.take(1)) =~= concat_value_bytes(vs.take(0)) + vs[0].spec_bytes());
    } else {
        assert(vs.take(k + 1).drop_first() =~= vs.drop_first().take(k));
        assert(vs.take(k).drop_first() =~= vs.drop_first().take(k - 1));
        lemma_concat_value_bytes_take_succ(vs.drop_first(), k - 1);
        assert(concat_value_bytes(vs.take(k + 1)) =~= concat_value_bytes(vs.take(k)) + vs[k].spec_bytes());
    }
}

/// Does value `v` belong to type `t`?
pub open spec fn value_has_type(v: ValueV, t: Type) -> bool
    decreases v,
{
    match (v, t) {
        (ValueV::Empty, Type::Empty) => true,
        (ValueV::Byte(_), Type::Byte) => true,
        (ValueV::Boolean(_), Type::Boolean) => true,
        (ValueV::Array(val, n), Type::Array(ty, m)) => n == m as nat && value_has_type(*val, *ty),
        (ValueV::Struct(vs), Type::Struct(ts)) => values_have_types(vs, ts@),
        _ => false,
    }
}

pub open spec fn values_have_types(vs: Seq<ValueV>, ts: Seq<Type>) -> bool
    decreases vs,
{
    if vs.len() != ts.len() {
        false
    } else if vs.len() == 0 {
        true
    } else {
        value_has_type(vs[0], ts[0]) && values_have_types(vs.drop_first(), ts.drop_first())
    }
}

proof fn lemma_repeat_bytes_len(b: Seq<u8>, n: nat)
    ensures
        repeat_bytes(b, n).len() == n * b.len(),
    decreases n,
{
    if n == 0 {
        assert(repeat_bytes(b, 0).len() == 0);
    } else {
        lemma_repeat_bytes_len(b, (n - 1) as nat);
        assert(repeat_bytes(b, n) == repeat_bytes(b, (n - 1) as nat) + b);
        assert(repeat_bytes(b, n).len() == (n - 1) * b.len() + b.len());
        assert((n - 1) * b.len() + b.len() == n * b.len()) by (nonlinear_arith)
            requires n >= 1;
    }
}

/// Size preservation: a value of type `t` serializes to exactly
/// `t.spec_size()` bytes.
pub proof fn lemma_to_bytes_len(v: ValueV, t: Type)
    requires
        value_has_type(v, t),
    ensures
        v.spec_bytes().len() == t.spec_size(),
    decreases v,
{
    match (v, t) {
        (ValueV::Array(val, n), Type::Array(ty, m)) => {
            lemma_to_bytes_len(*val, *ty);
            lemma_repeat_bytes_len((*val).spec_bytes(), n);
            assert(n * (*ty).spec_size() == (*ty).spec_size() * n) by (nonlinear_arith);
        },
        (ValueV::Struct(vs), Type::Struct(ts)) => {
            lemma_concat_bytes_len(vs, ts@);
        },
        _ => {},
    }
}

proof fn lemma_concat_bytes_len(vs: Seq<ValueV>, ts: Seq<Type>)
    requires
        values_have_types(vs, ts),
    ensures
        concat_value_bytes(vs).len() == sum_type_sizes(ts),
    decreases vs,
{
    if vs.len() == 0 {
    } else {
        lemma_to_bytes_len(vs[0], ts[0]);
        lemma_concat_bytes_len(vs.drop_first(), ts.drop_first());
    }
}

/// Round trip: an array of `n` copies of `Byte(b)` serializes to `n`
/// copies of the byte `b`.
pub proof fn lemma_array_byte_serialization(v: ValueV, b: u8, n: nat)
    requires
        v matches ValueV::Array(inner, m) && *inner == ValueV::Byte(b) && m == n,
    ensures
        v.spec_bytes() =~= Seq::<u8>::new(n, |i: int| b),
{
    match v {
        ValueV::Array(inner, m) => {
            assert((*inner).spec_bytes() =~= seq![b]);
            lemma_repeat_single(b, n);
            assert(v.spec_bytes() == repeat_bytes(seq![b], n));
        },
        _ => {},
    }
}

proof fn lemma_repeat_single(b: u8, n: nat)
    ensures
        repeat_bytes(seq![b], n) =~= Seq::<u8>::new(n, |i: int| b),
    decreases n,
{
    if n > 0 {
        lemma_repeat_single(b, (n - 1) as nat);
    }
}

} // verus!
