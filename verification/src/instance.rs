//! A value of an expanded struct: its data bytes, with the methods that
//! the expansion gave it, called by name.
use vstd::prelude::*;
use vstd::arithmetic::power2::pow2;
use crate::ast::{Expansion, FieldType, Method, MethodKind, ValueType};
use crate::misc::bytes_eq;
use crate::plan::{GetExpr, SetStmt};

verus! {

/// What a getter returns and a setter takes.
#[derive(Debug, PartialEq, Eq)]
pub enum Value {
    Bool(bool),
    Int(u128),
    Bools(Vec<bool>),
    Ints(Vec<u128>),
}

/// Why a struct could not be made or a method not called.
#[derive(Clone, Copy, Debug, PartialEq, Eq, Structural)]
pub enum CallError {
    /// The struct has no data bytes, and so no `new`.
    NoConstructor,
    /// The data bytes are not as many as the struct holds.
    WrongLength,
    /// A plan of a method reads or writes outside the data, or is malformed.
    BadPlan,
    /// No method of that name and kind.
    NoSuchMethod,
    /// The value does not have the setter's type.
    WrongType,
}

/// A method's plans are well formed, stay below byte `n`, and are as many
/// as its type has values.
pub open spec fn method_ok(m: Method, n: nat) -> bool {
    match m.kind {
        MethodKind::Getter { ty, exprs } => {
            &&& exprs@.len() == values_of(ty)
            &&& forall|e: int| 0 <= e < exprs@.len() ==> (#[trigger] exprs@[e]).wf() && exprs@[e].reads_below(n)
        },
        MethodKind::Setter { ty, stmts } => {
            &&& stmts@.len() == values_of(ty)
            &&& forall|e: int| 0 <= e < stmts@.len() ==> (#[trigger] stmts@[e]).wf() && stmts@[e].writes_below(n)
        },
        MethodKind::New { byte_length } => true,
    }
}

/// How many values a type has: one, or the length of the array.
pub open spec fn values_of(ty: FieldType) -> nat {
    match ty {
        FieldType::Single(_) => 1,
        FieldType::Array(_, n) => n as nat,
    }
}

/// `m` is a getter (or, with `getter` false, a setter) named `name`.
pub open spec fn named(m: Method, name: Seq<u8>, getter: bool) -> bool {
    &&& m.name@ == name
    &&& if getter { m.kind is Getter } else { m.kind is Setter }
}

/// The first method from `k` on that is a getter (or setter) named `name`.
pub open spec fn first_named(items: Seq<Method>, name: Seq<u8>, getter: bool, k: int) -> Option<int>
    decreases items.len() - k,
{
    if k < 0 || k >= items.len() {
        None
    } else if named(items[k], name, getter) {
        Some(k)
    } else {
        first_named(items, name, getter, k + 1)
    }
}

/// `x` fits in type `t`.
pub open spec fn fits(t: ValueType, x: u128) -> bool {
    x < pow2(t.width())
}

/// `v` is what getter `m` returns from `data`: `bool` values for a `bool`
/// type (set when the bit is 1), numbers for the other types.
pub open spec fn getter_returns(m: Method, data: Seq<u8>, v: Value) -> bool {
    m.kind matches MethodKind::Getter { ty, exprs } && match ty {
        FieldType::Single(t) => if t == ValueType::Bool {
            v == Value::Bool(exprs@[0].value_in(data) != 0)
        } else {
            v matches Value::Int(x) && x as nat == exprs@[0].value_in(data)
        },
        FieldType::Array(t, _) => if t == ValueType::Bool {
            v matches Value::Bools(bs) && bs@.len() == exprs@.len() && forall|i: int|
                0 <= i < bs@.len() ==> #[trigger] bs@[i] == (exprs@[i].value_in(data) != 0)
        } else {
            v matches Value::Ints(xs) && xs@.len() == exprs@.len() && forall|i: int|
                0 <= i < xs@.len() ==> #[trigger] xs@[i] as nat == exprs@[i].value_in(data)
        },
    }
}

/// The numbers a setter of type `ty` writes for `v`, one per value of the
/// type (1 and 0 for `true` and `false`); `None` when `v` is not of the type.
pub open spec fn setter_words(ty: FieldType, v: Value) -> Option<Seq<u128>> {
    match ty {
        FieldType::Single(t) => if t == ValueType::Bool {
            match v {
                Value::Bool(b) => Some(seq![if b { 1u128 } else { 0u128 }]),
                _ => None,
            }
        } else {
            match v {
                Value::Int(x) => if fits(t, x) { Some(seq![x]) } else { None },
                _ => None,
            }
        },
        FieldType::Array(t, n) => if t == ValueType::Bool {
            match v {
                Value::Bools(bs) => if bs@.len() == n {
                    Some(bs@.map_values(|b: bool| if b { 1u128 } else { 0u128 }))
                } else {
                    None
                },
                _ => None,
            }
        } else {
            match v {
                Value::Ints(xs) => if xs@.len() == n && forall|i: int| 0 <= i < n ==> fits(t, #[trigger] xs@[i]) {
                    Some(xs@)
                } else {
                    None
                },
                _ => None,
            }
        },
    }
}

/// The data after each plan writes its number, the first plan first.
pub open spec fn apply_all(stmts: Seq<SetStmt>, words: Seq<u128>, data: Seq<u8>) -> Seq<u8>
    decreases stmts.len(),
{
    if stmts.len() == 0 || words.len() == 0 {
        data
    } else {
        stmts.last().applied(apply_all(stmts.drop_last(), words.drop_last(), data), words.last())
    }
}

/// Every method's plans suit data of `n` bytes.
pub open spec fn all_methods_ok(items: Seq<Method>, n: nat) -> bool {
    forall|k: int| 0 <= k < items.len() ==> method_ok(#[trigger] items[k], n)
}

/// The methods of an expansion, in the order of its block.
pub open spec fn expansion_items(x: Expansion) -> Seq<Method> {
    match x.methods {
        Some(block) => block.items@,
        None => Seq::empty(),
    }
}

/// A value of an expanded struct.
#[derive(Debug)]
pub struct Bitfield {
    pub methods: Vec<Method>,
    pub data: Vec<u8>,
}

impl Bitfield {
    /// Every method's plans suit the data.
    pub open spec fn wf(&self) -> bool {
        forall|k: int| 0 <= k < self.methods@.len() ==> method_ok(#[trigger] self.methods@[k], self.data@.len())
    }
}


/// Whether every getter plan is well formed and reads below byte `n`.
fn exprs_ok(exprs: &[GetExpr], n: usize) -> (r: bool)
    ensures
        r == forall|e: int| 0 <= e < exprs@.len() ==> (#[trigger] exprs@[e]).wf() && exprs@[e].reads_below(n as nat),
{
    let mut i: usize = 0;
    while i < exprs.len()
        invariant
            0 <= i <= exprs@.len(),
            forall|e: int| 0 <= e < i ==> (#[trigger] exprs@[e]).wf() && exprs@[e].reads_below(n as nat),
        decreases exprs@.len() - i,
    {
        if !exprs[i].fits_data(n) {
            assert(exprs@[i as int] == exprs[i as int]);
            return false;
        }
        i += 1;
    }
    true
}

/// Whether every setter plan is well formed and writes below byte `n`.
fn stmts_ok(stmts: &[SetStmt], n: usize) -> (r: bool)
    ensures
        r == forall|e: int| 0 <= e < stmts@.len() ==> (#[trigger] stmts@[e]).wf() && stmts@[e].writes_below(n as nat),
{
    let mut i: usize = 0;
    while i < stmts.len()
        invariant
            0 <= i <= stmts@.len(),
            forall|e: int| 0 <= e < i ==> (#[trigger] stmts@[e]).wf() && stmts@[e].writes_below(n as nat),
        decreases stmts@.len() - i,
    {
        if !stmts[i].fits_data(n) {
            assert(stmts@[i as int] == stmts[i as int]);
            return false;
        }
        i += 1;
    }
    true
}

/// Whether a method's plans suit data of `n` bytes.
fn method_fits(m: &Method, n: usize) -> (r: bool)
    ensures
        r == method_ok(*m, n as nat),
{
    match &m.kind {
        MethodKind::Getter { ty, exprs } => {
            let count: usize = match ty {
                FieldType::Single(_) => 1,
                FieldType::Array(_, c) => *c,
            };
            exprs.len() == count && exprs_ok(exprs.as_slice(), n)
        },
        MethodKind::Setter { ty, stmts } => {
            let count: usize = match ty {
                FieldType::Single(_) => 1,
                FieldType::Array(_, c) => *c,
            };
            stmts.len() == count && stmts_ok(stmts.as_slice(), n)
        },
        MethodKind::New { byte_length } => true,
    }
}

/// Whether every method's plans suit data of `n` bytes.
fn methods_fit(methods: &[Method], n: usize) -> (r: bool)
    ensures
        r == forall|k: int| 0 <= k < methods@.len() ==> method_ok(#[trigger] methods@[k], n as nat),
{
    let mut k: usize = 0;
    while k < methods.len()
        invariant
            0 <= k <= methods@.len(),
            forall|j: int| 0 <= j < k ==> method_ok(#[trigger] methods@[j], n as nat),
        decreases methods@.len() - k,
    {
        if !method_fits(&methods[k], n) {
            return false;
        }
        k += 1;
    }
    true
}

/// The first getter (or setter) named `name`.
fn find_method(items: &[Method], name: &[u8], getter: bool) -> (r: Option<usize>)
    ensures
        match r {
            Some(k) => first_named(items@, name@, getter, 0) == Some(k as int) && k < items@.len() && named(
                items@[k as int],
                name@,
                getter,
            ),
            None => first_named(items@, name@, getter, 0) is None,
        },
{
    let mut k: usize = 0;
    while k < items.len()
        invariant
            0 <= k <= items@.len(),
            first_named(items@, name@, getter, k as int) == first_named(items@, name@, getter, 0),
        decreases items@.len() - k,
    {
        let m = &items[k];
        let kind_ok = match &m.kind {
            MethodKind::Getter { .. } => getter,
            MethodKind::Setter { .. } => !getter,
            MethodKind::New { .. } => false,
        };
        if kind_ok && bytes_eq(m.name.as_slice(), name) {
            return Some(k);
        }
        k += 1;
    }
    None
}

/// Whether `x` fits in type `t`.
fn fits_type(t: ValueType, x: u128) -> (r: bool)
    ensures
        r == fits(t, x),
{
    proof {
        vstd::arithmetic::power2::lemma2_to64();
        crate::plan::lemma_pow2_128();
    }
    match t {
        ValueType::Bool => x < 2,
        ValueType::U8 => x < 0x100,
        ValueType::U16 => x < 0x1_0000,
        ValueType::U32 => x < 0x1_0000_0000,
        ValueType::U64 => x < 0x1_0000_0000_0000_0000,
        ValueType::U128 => true,
    }
}

/// Whether every number fits in type `t`.
fn all_fit(t: ValueType, xs: &[u128]) -> (r: bool)
    ensures
        r == forall|k: int| 0 <= k < xs@.len() ==> fits(t, #[trigger] xs@[k]),
{
    let mut i: usize = 0;
    while i < xs.len()
        invariant
            0 <= i <= xs@.len(),
            forall|k: int| 0 <= k < i ==> fits(t, #[trigger] xs@[k]),
        decreases xs@.len() - i,
    {
        if !fits_type(t, xs[i]) {
            return false;
        }
        i += 1;
    }
    true
}

/// The numbers a setter of type `ty` writes for `v`.
fn words_for(ty: FieldType, v: Value) -> (r: Option<Vec<u128>>)
    ensures
        match r {
            Some(w) => setter_words(ty, v) == Some(w@),
            None => setter_words(ty, v) is None,
        },
{
    match ty {
        FieldType::Single(t) => {
            if t == ValueType::Bool {
                match v {
                    Value::Bool(b) => {
                        let mut w: Vec<u128> = Vec::new();
                        w.push(if b { 1 } else { 0 });
                        assert(w@ =~= seq![if b { 1u128 } else { 0u128 }]);
                        Some(w)
                    },
                    _ => None,
                }
            } else {
                match v {
                    Value::Int(x) => if fits_type(t, x) {
                        let mut w: Vec<u128> = Vec::new();
                        w.push(x);
                        assert(w@ =~= seq![x]);
                        Some(w)
                    } else {
                        None
                    },
                    _ => None,
                }
            }
        },
        FieldType::Array(t, n) => {
            if t == ValueType::Bool {
                match v {
                    Value::Bools(bs) => {
                        if bs.len() != n {
                            return None;
                        }
                        let mut w: Vec<u128> = Vec::new();
                        let mut i: usize = 0;
                        while i < bs.len()
                            invariant
                                0 <= i <= bs@.len(),
                                w@ =~= bs@.take(i as int).map_values(|b: bool| if b { 1u128 } else { 0u128 }),
                            decreases bs@.len() - i,
                        {
                            w.push(if bs[i] { 1 } else { 0 });
                            i += 1;
                            assert(w@ =~= bs@.take(i as int).map_values(|b: bool| if b { 1u128 } else { 0u128 }));
                        }
                        assert(bs@.take(bs@.len() as int) =~= bs@);
                        Some(w)
                    },
                    _ => None,
                }
            } else {
                match v {
                    Value::Ints(xs) => {
                        if xs.len() != n || !all_fit(t, xs.as_slice()) {
                            return None;
                        }
                        Some(xs)
                    },
                    _ => None,
                }
            }
        },
    }
}

proof fn lemma_applied_len(s: SetStmt, data: Seq<u8>, v: u128)
    requires
        s.writes_below(data.len()),
    ensures
        s.applied(data, v).len() == data.len(),
{
    match s {
        SetStmt::Bit { index, mask } => {},
        SetStmt::Chunks { chunks } => {
            crate::plan::lemma_apply_chunks_len(chunks@, data, v);
        },
    }
}

impl Bitfield {
    /// `Name::new(data)`: the struct of an expansion over its data bytes.
    pub fn new(x: Expansion, data: Vec<u8>) -> (r: Result<Bitfield, CallError>)
        ensures
            match r {
                Err(CallError::NoConstructor) => x.decl.byte_length == 0,
                Err(CallError::WrongLength) => x.decl.byte_length != 0 && data@.len() != x.decl.byte_length,
                Err(CallError::BadPlan) => {
                    &&& x.decl.byte_length != 0
                    &&& data@.len() == x.decl.byte_length
                    &&& !all_methods_ok(expansion_items(x), data@.len())
                },
                Err(_) => false,
                Ok(b) => {
                    &&& x.decl.byte_length != 0
                    &&& data@.len() == x.decl.byte_length
                    &&& all_methods_ok(expansion_items(x), data@.len())
                    &&& b.data == data
                    &&& b.methods@ == expansion_items(x)
                    &&& b.wf()
                },
            },
    {
        if x.decl.byte_length == 0 {
            return Err(CallError::NoConstructor);
        }
        if data.len() != x.decl.byte_length {
            return Err(CallError::WrongLength);
        }
        let methods = match x.methods {
            Some(block) => block.items,
            None => Vec::new(),
        };
        assert(methods@ =~= expansion_items(x));
        if !methods_fit(methods.as_slice(), data.len()) {
            return Err(CallError::BadPlan);
        }
        Ok(Bitfield { methods, data })
    }

    /// The data bytes.
    pub fn data(&self) -> (r: &[u8])
        ensures
            r@ == self.data@,
    {
        self.data.as_slice()
    }

    /// Replaces the data bytes, as many as before.
    pub fn set_data(&mut self, data: Vec<u8>) -> (r: Result<(), CallError>)
        requires
            old(self).wf(),
        ensures
            final(self).wf(),
            final(self).methods == old(self).methods,
            r is Ok <==> data@.len() == old(self).data@.len(),
            r is Ok ==> final(self).data == data,
            r is Err ==> r == Err::<(), CallError>(CallError::WrongLength) && final(self).data == old(self).data,
    {
        if data.len() != self.data.len() {
            return Err(CallError::WrongLength);
        }
        self.data = data;
        Ok(())
    }

    /// Calls the getter named `name`: `None` when there is none.
    pub fn get(&self, name: &[u8]) -> (r: Option<Value>)
        requires
            self.wf(),
        ensures
            match first_named(self.methods@, name@, true, 0) {
                None => r is None,
                Some(k) => r matches Some(v) && getter_returns(self.methods@[k], self.data@, v),
            },
    {
        let k = match find_method(self.methods.as_slice(), name, true) {
            Some(k) => k,
            None => {
                return None;
            },
        };
        let m = &self.methods[k];
        assert(method_ok(self.methods@[k as int], self.data@.len()));
        match &m.kind {
            MethodKind::Getter { ty, exprs } => {
                match ty {
                    FieldType::Single(t) => {
                        let v = exprs[0].eval(self.data.as_slice());
                        if *t == ValueType::Bool {
                            Some(Value::Bool(v != 0))
                        } else {
                            Some(Value::Int(v))
                        }
                    },
                    FieldType::Array(t, _) => {
                        if *t == ValueType::Bool {
                            let mut bs: Vec<bool> = Vec::new();
                            let mut i: usize = 0;
                            while i < exprs.len()
                                invariant
                                    0 <= i <= exprs@.len(),
                                    forall|e: int| 0 <= e < exprs@.len() ==> (#[trigger] exprs@[e]).wf() && exprs@[e].reads_below(self.data@.len()),
                                    bs@.len() == i,
                                    forall|e: int| 0 <= e < i ==> #[trigger] bs@[e] == (exprs@[e].value_in(self.data@) != 0),
                                decreases exprs@.len() - i,
                            {
                                let v = exprs[i].eval(self.data.as_slice());
                                bs.push(v != 0);
                                i += 1;
                            }
                            Some(Value::Bools(bs))
                        } else {
                            let mut xs: Vec<u128> = Vec::new();
                            let mut i: usize = 0;
                            while i < exprs.len()
                                invariant
                                    0 <= i <= exprs@.len(),
                                    forall|e: int| 0 <= e < exprs@.len() ==> (#[trigger] exprs@[e]).wf() && exprs@[e].reads_below(self.data@.len()),
                                    xs@.len() == i,
                                    forall|e: int| 0 <= e < i ==> #[trigger] xs@[e] as nat == exprs@[e].value_in(self.data@),
                                decreases exprs@.len() - i,
                            {
                                let v = exprs[i].eval(self.data.as_slice());
                                xs.push(v);
                                i += 1;
                            }
                            Some(Value::Ints(xs))
                        }
                    },
                }
            },
            _ => None,
        }
    }

    /// Calls the setter named `name` with `value`.
    pub fn set(&mut self, name: &[u8], value: Value) -> (r: Result<(), CallError>)
        requires
            old(self).wf(),
        ensures
            final(self).wf(),
            final(self).methods == old(self).methods,
            match first_named(old(self).methods@, name@, false, 0) {
                None => r == Err::<(), CallError>(CallError::NoSuchMethod) && final(self).data == old(self).data,
                Some(k) => match old(self).methods@[k].kind {
                    MethodKind::Setter { ty, stmts } => match setter_words(ty, value) {
                        None => r == Err::<(), CallError>(CallError::WrongType) && final(self).data == old(self).data,
                        Some(w) => r is Ok && final(self).data@ == apply_all(stmts@, w, old(self).data@),
                    },
                    _ => false,
                },
            },
    {
        let k = match find_method(self.methods.as_slice(), name, false) {
            Some(k) => k,
            None => {
                return Err(CallError::NoSuchMethod);
            },
        };
        assert(method_ok(self.methods@[k as int], self.data@.len()));
        let ghost old_data = self.data@;
        let ghost n = self.data@.len();
        match &self.methods[k].kind {
            MethodKind::Setter { ty, stmts } => {
                let words = match words_for(*ty, value) {
                    Some(w) => w,
                    None => {
                        return Err(CallError::WrongType);
                    },
                };
                assert(words@.len() == stmts@.len()) by {
                    match ty {
                        FieldType::Single(t) => {},
                        FieldType::Array(t, c) => {},
                    }
                }
                let mut i: usize = 0;
                assert(stmts@.take(0) =~= Seq::<SetStmt>::empty());
                while i < stmts.len()
                    invariant
                        self.methods == old(self).methods,
                        0 <= i <= stmts@.len(),
                        words@.len() == stmts@.len(),
                        forall|e: int| 0 <= e < stmts@.len() ==> (#[trigger] stmts@[e]).wf() && stmts@[e].writes_below(n),
                        self.data@.len() == n,
                        self.data@ == apply_all(stmts@.take(i as int), words@.take(i as int), old_data),
                    decreases stmts@.len() - i,
                {
                    proof {
                        assert(stmts@.take(i + 1).drop_last() =~= stmts@.take(i as int));
                        assert(words@.take(i + 1).drop_last() =~= words@.take(i as int));
                        lemma_applied_len(stmts@[i as int], self.data@, words@[i as int]);
                    }
                    stmts[i].apply(&mut self.data, words[i]);
                    i += 1;
                }
                assert(stmts@.take(stmts@.len() as int) =~= stmts@);
                assert(words@.take(words@.len() as int) =~= words@);
                Ok(())
            },
            _ => Err(CallError::NoSuchMethod),
        }
    }
}

/// A setter takes only values of its type: a number must be below 2 to the
/// width of the value type, for a single value and for every element of an
/// array, and an array must have the declared count. A value that is taken
/// is written as it is.
pub proof fn law_setter_takes_only_its_type(ty: FieldType, v: Value)
    ensures
        setter_words(ty, v) matches Some(w) ==> match (ty, v) {
            (FieldType::Single(t), Value::Int(x)) => t != ValueType::Bool && (x as nat) < pow2(t.width()) && w == seq![x],
            (FieldType::Single(t), Value::Bool(b)) => t == ValueType::Bool,
            (FieldType::Array(t, n), Value::Ints(xs)) => {
                &&& t != ValueType::Bool
                &&& xs@.len() == n
                &&& forall|i: int| 0 <= i < n ==> (#[trigger] xs@[i] as nat) < pow2(t.width())
                &&& w == xs@
            },
            (FieldType::Array(t, n), Value::Bools(bs)) => t == ValueType::Bool && bs@.len() == n,
            _ => false,
        },
        match (ty, v) {
            (FieldType::Single(t), Value::Int(x)) => t != ValueType::Bool ==> (setter_words(ty, v) is Some <==> (x as nat) < pow2(t.width())),
            (FieldType::Array(t, n), Value::Ints(xs)) => t != ValueType::Bool ==> (setter_words(ty, v) is Some <==> (
                xs@.len() == n && forall|i: int| 0 <= i < n ==> (#[trigger] xs@[i] as nat) < pow2(t.width()))),
            _ => true,
        },
{
}

} // verus!
