//! Fields of a bitfield struct: their sizes, the types of their values, and
//! the plans of the getter and setter that each of them gets.
use vstd::prelude::*;
use vstd::arithmetic::power2::pow2;
use crate::ast::{Attribute, FieldType, ImplBlock, Method, MethodKind, ValueType, attrs_view};
use crate::misc::{concat_bytes, copy_bytes, make_maybe_pub, pub_word, set_attrs_method};
use crate::bits::{bit_at, bits_value, value_bit, field_prefix_written, holds_field, lemma_bits_value_concat, lemma_chunk_value};
use crate::plan::{GetChunk, GetExpr, SetChunk, SetStmt, chunks_value, chunks_width, apply_chunks, lemma_apply_chunks_len, lemma_set_chunk_step};

verus! {

/// The declared size of a field: one value of `length` bits, or `count`
/// values of `element_length` bits each.
#[derive(Clone, Copy, Debug, PartialEq, Eq, Structural)]
pub enum FieldSize {
    Array { count: usize, element_length: u8 },
    Scalar { length: u8 },
}

impl FieldSize {
    /// Number of bits the field occupies.
    pub open spec fn bits(self) -> nat {
        match self {
            FieldSize::Array { count, element_length } => (count * element_length) as nat,
            FieldSize::Scalar { length } => length as nat,
        }
    }

    /// Values of 1 to 128 bits; an array may have any number of them.
    pub open spec fn lengths_ok(self) -> bool {
        match self {
            FieldSize::Array { count, element_length } => 1 <= element_length <= 128,
            FieldSize::Scalar { length } => 1 <= length <= 128,
        }
    }

    /// Sizes that a declaration can give: values of 1 to 128 bits, and at
    /// least one element in an array.
    pub open spec fn wf(self) -> bool {
        match self {
            FieldSize::Array { count, element_length } => 1 <= element_length <= 128 && count >= 1,
            FieldSize::Scalar { length } => 1 <= length <= 128,
        }
    }
}

/// One field of a bitfield declaration.
#[derive(Debug)]
pub struct Field {
    pub name: Vec<u8>,
    pub is_pub: bool,
    pub attrs: Vec<Attribute>,
    pub size: FieldSize,
}

impl Field {
    /// Number of bits the field occupies in the data bytes.
    pub fn bit_len(&self) -> (r: u64)
        requires
            self.size.bits() <= u64::MAX,
        ensures
            r == self.size.bits(),
    {
        match self.size {
            FieldSize::Array { count, element_length } => (count as u64) * (element_length as u64),
            FieldSize::Scalar { length } => length as u64,
        }
    }
}


/// The number of bytes that hold bits `0 .. bits`.
pub open spec fn bytes_for(bits: int) -> int {
    (bits + 7) / 8
}

impl Field {
    /// The plan of a getter for the `length` bits at bit `start`: one bit
    /// test when `length` is 1, otherwise one chunk per byte that the bits
    /// touch, from the first to the last.
    pub fn gen_single_value_get_expr(start: u64, length: u8) -> (r: GetExpr)
        requires
            1 <= length <= 128,
            start + length <= u64::MAX,
            bytes_for(start + length) <= usize::MAX,
        ensures
            reads_field(r, start as int, length as nat),
    {
        if length == 1 {
            let byte_shift = (7 - start % 8) as u8;
            let index = (start / 8) as usize;
            let r = GetExpr::Bit { index, shift: byte_shift };
            assert forall|data: Seq<u8>| 8 * data.len() >= start + length implies #[trigger] r.value_in(data)
                == bits_value(data, start as int, length as nat) by {
                let b = data[index as int];
                assert((b & (1u8 << byte_shift) != 0u8) == ((b >> byte_shift) & 1u8 == 1u8)) by (bit_vector)
                    requires byte_shift < 8;
                assert(bits_value(data, start as int, 0) == 0);
            }
            r
        } else {
            let mut chunks: Vec<GetChunk> = Vec::new();
            let mut bits_to_get: u8 = length;
            let mut bit_offset: u64 = start;
            while bits_to_get > 0
                invariant
                    1 <= length <= 128,
                    start + length <= u64::MAX,
                    bytes_for(start + length) <= usize::MAX,
                    bits_to_get <= length,
                    bit_offset == start + (length - bits_to_get),
                    forall|k: int| 0 <= k < chunks@.len() ==> (#[trigger] chunks@[k]).wf(),
                    forall|k: int| 0 <= k < chunks@.len() ==> (#[trigger] chunks@[k]).index < bytes_for(start + length),
                    forall|k: int| 0 <= k < chunks@.len() ==> (#[trigger] chunks@[k]).index >= start / 8,
                    chunks_width(chunks@) == length - bits_to_get,
                    forall|data: Seq<u8>| 8 * data.len() >= start + length ==> #[trigger] chunks_value(chunks@, data)
                        == bits_value(data, start as int, (length - bits_to_get) as nat),
                decreases bits_to_get,
            {
                let o = (bit_offset % 8) as u8;
                let can_get = if bits_to_get < 8 - o { bits_to_get } else { 8 - o };
                let index = (bit_offset / 8) as usize;
                let mask = 0xFFu8 >> (8 - can_get);
                let byte_shift = 8 - can_get - o;
                let c = GetChunk { index, byte_shift, mask, width: can_get };
                let ghost old_chunks = chunks@;
                let ghost done = (length - bits_to_get) as nat;
                chunks.push(c);
                proof {
                    assert(chunks@.drop_last() =~= old_chunks);
                    assert forall|data: Seq<u8>| 8 * data.len() >= start + length implies #[trigger] chunks_value(chunks@, data)
                        == bits_value(data, start as int, done + can_get as nat) by {
                        lemma_chunk_value(data, bit_offset as int, can_get as nat);
                        lemma_bits_value_concat(data, start as int, done, can_get as nat);
                        assert(chunks_value(old_chunks, data) == bits_value(data, start as int, done));
                        assert(chunks@.last() == c);
                        assert(index as int == bit_offset as int / 8);
                        assert(o as int == bit_offset as int % 8);
                        assert(c.value(data) == bits_value(data, bit_offset as int, can_get as nat));
                        assert(chunks_value(chunks@, data) == chunks_value(old_chunks, data) * pow2(can_get as nat) + c.value(data));
                    }
                }
                bits_to_get = bits_to_get - can_get;
                bit_offset = bit_offset + can_get as u64;
            }
            GetExpr::Chunks { chunks }
        }
    }
}


impl Field {
    /// The plan of a setter for the `length` bits at bit `start`, whose value
    /// has a type of `type_length` bits: one masked bit when `length` is 1,
    /// otherwise one chunk per byte that the bits touch. Each chunk shifts the
    /// value so that its bits land under the chunk's mask.
    pub fn gen_single_value_set_stmt(type_length: u8, start: u64, length: u8) -> (r: SetStmt)
        requires
            1 <= length <= 128,
            length == 1 || (8 <= type_length <= 128 && type_length % 8 == 0 && length <= type_length),
            start + length <= u64::MAX,
            bytes_for(start + length) <= usize::MAX,
        ensures
            writes_field(r, start as int, length as nat),
    {
        if length == 1 {
            let s = (7 - start % 8) as u8;
            let mask = 1u8 << s;
            let index = (start / 8) as usize;
            let r = SetStmt::Bit { index, mask };
            assert forall|data: Seq<u8>, v: u128| 8 * data.len() >= start + length implies holds_field(
                data,
                #[trigger] r.applied(data, v),
                start as int,
                length as nat,
                v,
            ) by {
                let nd = r.applied(data, v);
                let b = data[index as int];
                assert forall|i: int| 0 <= i < 8 * data.len() implies #[trigger] bit_at(nd, i) == if start <= i < start + 1 {
                    value_bit(v, start + 1 - 1 - i)
                } else {
                    bit_at(data, i)
                } by {
                    if i / 8 == index {
                        let t = (7 - i % 8) as u8;
                        assert(((b | (1u8 << s)) >> t) & 1u8 == if t == s { 1u8 } else { (b >> t) & 1u8 }) by (bit_vector)
                            requires s < 8, t < 8;
                        assert(((b & !(1u8 << s)) >> t) & 1u8 == if t == s { 0u8 } else { (b >> t) & 1u8 }) by (bit_vector)
                            requires s < 8, t < 8;
                        assert((v >> 0u128) & 1u128 == v & 1u128) by (bit_vector);
                    }
                }
            }
            r
        } else {
            let mut chunks: Vec<SetChunk> = Vec::new();
            let mut bits_to_set: u8 = length;
            let mut bit_offset: u64 = start;
            let mut value_shift: isize = (start % 8) as isize - (type_length - length) as isize + 8 * (
            type_length / 8 - 1) as isize;
            proof {
                assert forall|data: Seq<u8>, v: u128| 8 * data.len() >= start + length implies field_prefix_written(
                    data,
                    #[trigger] apply_chunks(chunks@, data, v),
                    start as int,
                    length as nat,
                    0,
                    v,
                ) by {
                    assert(apply_chunks(chunks@, data, v) == data);
                }
            }
            while bits_to_set > 0
                invariant
                    1 <= length <= 128,
                    start + length <= u64::MAX,
                    bytes_for(start + length) <= usize::MAX,
                    bits_to_set <= length,
                    bit_offset == start + (length - bits_to_set),
                    bits_to_set > 0 ==> value_shift == length - 8 + bit_offset % 8 - (length - bits_to_set),
                    forall|k: int| 0 <= k < chunks@.len() ==> (#[trigger] chunks@[k]).wf(),
                    forall|k: int| 0 <= k < chunks@.len() ==> (#[trigger] chunks@[k]).index < bytes_for(start + length),
                    forall|k: int| 0 <= k < chunks@.len() ==> (#[trigger] chunks@[k]).index >= start / 8,
                    forall|k: int| 0 <= k < chunks@.len() ==> -7 <= (#[trigger] chunks@[k]).value_shift <= length - 1,
                    forall|data: Seq<u8>, v: u128| 8 * data.len() >= start + length ==> field_prefix_written(
                        data,
                        #[trigger] apply_chunks(chunks@, data, v),
                        start as int,
                        length as nat,
                        (length - bits_to_set) as nat,
                        v,
                    ),
                decreases bits_to_set,
            {
                let o = (bit_offset % 8) as u8;
                let can_set = if bits_to_set < 8 - o { bits_to_set } else { 8 - o };
                let index = (bit_offset / 8) as usize;
                let mask = (0xFFu8 >> (8 - can_set)) << (8 - can_set - o);
                let c = SetChunk { index, mask, value_shift };
                let ghost old_chunks = chunks@;
                let ghost done = (length - bits_to_set) as nat;
                chunks.push(c);
                proof {
                    assert(chunks@.drop_last() =~= old_chunks);
                    assert(chunks@.last() == c);
                    assert forall|data: Seq<u8>, v: u128| 8 * data.len() >= start + length implies field_prefix_written(
                        data,
                        #[trigger] apply_chunks(chunks@, data, v),
                        start as int,
                        length as nat,
                        done + can_set as nat,
                        v,
                    ) by {
                        let d = apply_chunks(old_chunks, data, v);
                        assert(field_prefix_written(data, d, start as int, length as nat, done, v));
                        lemma_apply_chunks_len(old_chunks, data, v);
                        lemma_set_chunk_step(data, d, c, start as int, length as nat, done, can_set as nat, v);
                    }
                }
                bits_to_set = bits_to_set - can_set;
                bit_offset = bit_offset + can_set as u64;
                value_shift = value_shift - 8;
            }
            SetStmt::Chunks { chunks }
        }
    }
}


/// `e` reads the `len` bits at bit `start`, from any data long enough,
/// touching only the bytes that hold them.
pub open spec fn reads_field(e: GetExpr, start: int, len: nat) -> bool {
    &&& e.wf()
    &&& e.reads_below(bytes_for(start + len) as nat)
    &&& e.reads_from((start / 8) as nat)
    &&& (len == 1) == (e is Bit)
    &&& forall|data: Seq<u8>|
        8 * data.len() >= start + len ==> #[trigger] e.value_in(data) == bits_value(data, start, len)
}

/// `s` writes the low `len` bits of its value into the `len` bits at bit
/// `start`, of any data long enough, and keeps every other bit. It touches
/// only the bytes that hold those bits, and shifts the value right by less
/// than `len` bits and left by less than 8.
pub open spec fn writes_field(s: SetStmt, start: int, len: nat) -> bool {
    &&& s.wf()
    &&& s.writes_below(bytes_for(start + len) as nat)
    &&& s.writes_from((start / 8) as nat)
    &&& s.shifts_within(7, len - 1)
    &&& (len == 1) == (s is Bit)
    &&& forall|data: Seq<u8>, v: u128|
        8 * data.len() >= start + len ==> holds_field(data, #[trigger] s.applied(data, v), start, len, v)
}

/// The smallest type that holds `size` bits: `bool` for one bit, then
/// `u8`, `u16`, `u32`, `u64`, `u128`.
pub open spec fn type_for_bits(size: int) -> ValueType {
    if size <= 1 {
        ValueType::Bool
    } else if size <= 8 {
        ValueType::U8
    } else if size <= 16 {
        ValueType::U16
    } else if size <= 32 {
        ValueType::U32
    } else if size <= 64 {
        ValueType::U64
    } else {
        ValueType::U128
    }
}

/// The type of `bool` is given width 1, though no code reads it.
pub fn size_to_ty(size: u8) -> (r: Option<(ValueType, u8)>)
    ensures
        r is Some <==> 1 <= size <= 128,
        r matches Some((t, w)) ==> t == type_for_bits(size as int) && w == t.width(),
{
    if size == 0 {
        None
    } else if size == 1 {
        Some((ValueType::Bool, 1))
    } else if size <= 8 {
        Some((ValueType::U8, 8))
    } else if size <= 16 {
        Some((ValueType::U16, 16))
    } else if size <= 32 {
        Some((ValueType::U32, 32))
    } else if size <= 64 {
        Some((ValueType::U64, 64))
    } else if size <= 128 {
        Some((ValueType::U128, 128))
    } else {
        None
    }
}

/// The type of an array of `length` elements of type `elements_type`.
pub fn make_array_ty(elements_type: ValueType, length: usize) -> (r: FieldType)
    ensures
        r == FieldType::Array(elements_type, length),
{
    FieldType::Array(elements_type, length)
}

impl FieldSize {
    /// The type a getter of the field returns.
    pub open spec fn field_type(self) -> FieldType {
        match self {
            FieldSize::Array { count, element_length } => FieldType::Array(type_for_bits(element_length as int), count),
            FieldSize::Scalar { length } => FieldType::Single(type_for_bits(length as int)),
        }
    }

    /// Number of values in the field.
    pub open spec fn elements(self) -> nat {
        match self {
            FieldSize::Array { count, element_length } => count as nat,
            FieldSize::Scalar { length } => 1,
        }
    }

    /// Number of bits of one value.
    pub open spec fn element_bits(self) -> nat {
        match self {
            FieldSize::Array { count, element_length } => element_length as nat,
            FieldSize::Scalar { length } => length as nat,
        }
    }
}

/// The bytes of `get_`.
pub open spec fn get_prefix() -> Seq<u8> {
    seq![103u8, 101u8, 116u8, 95u8]
}

/// The bytes of `set_`.
pub open spec fn set_prefix() -> Seq<u8> {
    seq![115u8, 101u8, 116u8, 95u8]
}

/// The bytes of `inline`.
pub open spec fn inline_word() -> Seq<u8> {
    seq![105u8, 110u8, 108u8, 105u8, 110u8, 101u8]
}

/// The visibility `Some("pub")` for a public item and `None` for a private one.
pub open spec fn vis_is(vis: Option<Vec<u8>>, is_pub: bool) -> bool {
    &&& (vis is Some <==> is_pub)
    &&& (vis matches Some(v) ==> v@ == pub_word())
}

/// `m` is the getter of field `f` placed at bit `start`: `get_<name>`, with
/// the field's visibility and attributes, returning the field's type, and
/// reading value `e` of the field from bits `start + e * element_bits` on.
pub open spec fn getter_for(m: Method, f: Field, start: int) -> bool {
    &&& vis_is(m.vis, f.is_pub)
    &&& m.constness is None
    &&& m.name@ == get_prefix() + f.name@
    &&& attrs_view(m.attrs@) == attrs_view(f.attrs@)
    &&& m.kind matches MethodKind::Getter { ty, exprs } && {
        &&& ty == f.size.field_type()
        &&& exprs@.len() == f.size.elements()
        &&& forall|e: int| 0 <= e < exprs@.len() ==> reads_field(
            #[trigger] exprs@[e],
            start + e * f.size.element_bits(),
            f.size.element_bits(),
        )
    }
}

/// `m` is the setter of field `f` placed at bit `start`, as [`getter_for`]
/// says of the getter.
pub open spec fn setter_for(m: Method, f: Field, start: int) -> bool {
    &&& vis_is(m.vis, f.is_pub)
    &&& m.constness is None
    &&& m.name@ == set_prefix() + f.name@
    &&& attrs_view(m.attrs@) == attrs_view(f.attrs@)
    &&& m.kind matches MethodKind::Setter { ty, stmts } && {
        &&& ty == f.size.field_type()
        &&& stmts@.len() == f.size.elements()
        &&& forall|e: int| 0 <= e < stmts@.len() ==> writes_field(
            #[trigger] stmts@[e],
            start + e * f.size.element_bits(),
            f.size.element_bits(),
        )
    }
}


/// The `#[inline]` attribute.
fn inline_attr() -> (r: Attribute)
    ensures
        r.path@ == inline_word(),
{
    let path: Vec<u8> = vec![105u8, 110u8, 108u8, 105u8, 110u8, 101u8];
    let text: Vec<u8> = vec![35u8, 91u8, 105u8, 110u8, 108u8, 105u8, 110u8, 101u8, 93u8];
    assert(path@ =~= inline_word());
    Attribute { path, text }
}

/// A block of `self_ty` that holds the one method `m`.
fn single_method_block(self_ty: &[u8], m: Method) -> (r: ImplBlock)
    ensures
        r.self_ty@ == self_ty@,
        r.items@ == seq![m],
{
    let mut items: Vec<Method> = Vec::new();
    items.push(m);
    assert(items@ =~= seq![m]);
    ImplBlock { self_ty: copy_bytes(self_ty), items }
}

proof fn lemma_element_start(i: int, count: int, el: int)
    requires
        0 <= i < count,
        0 <= el,
    ensures
        i * el + el <= count * el,
        0 <= i * el,
{
    assert(i * el + el <= count * el) by (nonlinear_arith)
        requires 0 <= i < count, 0 <= el;
    assert(0 <= i * el) by (nonlinear_arith)
        requires 0 <= i, 0 <= el;
}

impl Field {
    /// The getter plans of the `count` elements of `element_length` bits
    /// stored from bit `start` on.
    fn element_getters(start: u64, count: usize, element_length: u8) -> (r: Vec<GetExpr>)
        requires
            1 <= element_length <= 128,
            start + count * element_length <= u64::MAX,
            bytes_for(start + count * element_length) <= usize::MAX,
        ensures
            r@.len() == count,
            forall|e: int| 0 <= e < count ==> reads_field(#[trigger] r@[e], start + e * element_length, element_length as nat),
    {
        let mut exprs: Vec<GetExpr> = Vec::new();
        let mut i: usize = 0;
        while i < count
            invariant
                1 <= element_length <= 128,
                start + count * element_length <= u64::MAX,
                bytes_for(start + count * element_length) <= usize::MAX,
                0 <= i <= count,
                exprs@.len() == i,
                forall|e: int| 0 <= e < i ==> reads_field(#[trigger] exprs@[e], start + e * element_length, element_length as nat),
            decreases count - i,
        {
            proof {
                lemma_element_start(i as int, count as int, element_length as int);
            }
            let element_start = start + (i as u64) * (element_length as u64);
            let e = Field::gen_single_value_get_expr(element_start, element_length);
            exprs.push(e);
            i += 1;
        }
        exprs
    }

    /// The setter plans of the `count` elements of `element_length` bits
    /// stored from bit `start` on, for values of a `type_length`-bit type.
    fn element_setters(type_length: u8, start: u64, count: usize, element_length: u8) -> (r: Vec<SetStmt>)
        requires
            1 <= element_length <= 128,
            element_length == 1 || (8 <= type_length <= 128 && type_length % 8 == 0 && element_length <= type_length),
            start + count * element_length <= u64::MAX,
            bytes_for(start + count * element_length) <= usize::MAX,
        ensures
            r@.len() == count,
            forall|e: int| 0 <= e < count ==> writes_field(#[trigger] r@[e], start + e * element_length, element_length as nat),
    {
        let mut stmts: Vec<SetStmt> = Vec::new();
        let mut i: usize = 0;
        while i < count
            invariant
                1 <= element_length <= 128,
                element_length == 1 || (8 <= type_length <= 128 && type_length % 8 == 0 && element_length <= type_length),
                start + count * element_length <= u64::MAX,
                bytes_for(start + count * element_length) <= usize::MAX,
                0 <= i <= count,
                stmts@.len() == i,
                forall|e: int| 0 <= e < i ==> writes_field(#[trigger] stmts@[e], start + e * element_length, element_length as nat),
            decreases count - i,
        {
            proof {
                lemma_element_start(i as int, count as int, element_length as int);
            }
            let element_start = start + (i as u64) * (element_length as u64);
            let s = Field::gen_single_value_set_stmt(type_length, element_start, element_length);
            stmts.push(s);
            i += 1;
        }
        stmts
    }

    /// The two methods of the field placed at bit `start` of struct
    /// `struct_ident`: its getter, then its setter, each in a block of its own.
    /// An array of no elements gets a getter and a setter of no plans.
    pub fn to_methods(&self, struct_ident: &[u8], start: u64) -> (r: Vec<ImplBlock>)
        requires
            self.size.lengths_ok(),
            start + self.size.bits() <= u64::MAX,
            bytes_for(start + self.size.bits()) <= usize::MAX,
        ensures
            r@.len() == 2,
            r@[0].self_ty@ == struct_ident@,
            r@[0].items@.len() == 1,
            getter_for(r@[0].items@[0], *self, start as int),
            r@[1].self_ty@ == struct_ident@,
            r@[1].items@.len() == 1,
            setter_for(r@[1].items@[0], *self, start as int),
    {
        let get_word: Vec<u8> = vec![103u8, 101u8, 116u8, 95u8];
        let set_word: Vec<u8> = vec![115u8, 101u8, 116u8, 95u8];
        assert(get_word@ =~= get_prefix());
        assert(set_word@ =~= set_prefix());
        let getter_name = concat_bytes(get_word.as_slice(), self.name.as_slice());
        let setter_name = concat_bytes(set_word.as_slice(), self.name.as_slice());

        let (getter_kind, setter_kind) = match self.size {
            FieldSize::Array { count, element_length } => {
                let (element_type, value_type_length) = size_to_ty(element_length).unwrap();
                let value_type = make_array_ty(element_type, count);
                let exprs = Field::element_getters(start, count, element_length);
                let stmts = Field::element_setters(value_type_length, start, count, element_length);
                assert(self.size.element_bits() == element_length);
                assert(self.size.field_type() == value_type);
                (MethodKind::Getter { ty: value_type, exprs }, MethodKind::Setter { ty: value_type, stmts })
            },
            FieldSize::Scalar { length } => {
                let (value_type, value_type_length) = size_to_ty(length).unwrap();
                let getter_expr = Field::gen_single_value_get_expr(start, length);
                let setter_stmt = Field::gen_single_value_set_stmt(value_type_length, start, length);
                let mut exprs: Vec<GetExpr> = Vec::new();
                exprs.push(getter_expr);
                let mut stmts: Vec<SetStmt> = Vec::new();
                stmts.push(setter_stmt);
                assert(exprs@[0] == getter_expr);
                assert(reads_field(exprs@[0], start + 0 * self.size.element_bits(), self.size.element_bits()));
                (
                    MethodKind::Getter { ty: FieldType::Single(value_type), exprs },
                    MethodKind::Setter { ty: FieldType::Single(value_type), stmts },
                )
            },
        };

        let mut getter_attrs: Vec<Attribute> = Vec::new();
        getter_attrs.push(inline_attr());
        let getter = Method {
            vis: make_maybe_pub(self.is_pub),
            constness: None,
            name: getter_name,
            attrs: getter_attrs,
            kind: getter_kind,
        };
        let getter = set_attrs_method(single_method_block(struct_ident, getter), self.attrs.as_slice());

        let mut setter_attrs: Vec<Attribute> = Vec::new();
        setter_attrs.push(inline_attr());
        let setter = Method {
            vis: make_maybe_pub(self.is_pub),
            constness: None,
            name: setter_name,
            attrs: setter_attrs,
            kind: setter_kind,
        };
        let setter = set_attrs_method(single_method_block(struct_ident, setter), self.attrs.as_slice());

        let mut methods: Vec<ImplBlock> = Vec::new();
        methods.push(getter);
        methods.push(setter);
        methods
    }
}

/// The type of a field of `n` bits is the smallest that holds it: `bool`
/// for exactly one bit; otherwise an unsigned integer type of 8, 16, 32, 64
/// or 128 bits, at least `n` wide, and (above 8) less than twice `n`.
pub proof fn law_smallest_type(n: int)
    requires
        1 <= n <= 128,
    ensures
        (type_for_bits(n) == ValueType::Bool) == (n == 1),
        n >= 2 ==> {
            let w = type_for_bits(n).width();
            &&& w == 8 || w == 16 || w == 32 || w == 64 || w == 128
            &&& n <= w
            &&& w == 8 || w < 2 * n
        },
{
}

} // verus!
