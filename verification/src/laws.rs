//! What holds across the plans and the layout: a value read back after a
//! write, writes that leave other bits alone, and fields that do not overlap.
use vstd::prelude::*;
use vstd::arithmetic::power2::pow2;
use crate::bits::{
    bit_at, bits_value, holds_field, lemma_bits_value_bound, lemma_bits_value_injective,
    lemma_bits_value_same, lemma_bytes_from_bits, lemma_value_bit_div, lemma_written_value, value_bit,
};
use crate::ast::{FieldType, Method, MethodKind, ValueType};
use crate::instance::{Value, apply_all, first_named, fits, getter_returns, named, setter_words};
use crate::expand::{BitfieldDecl, field_start, methods_of, total_bits};
use crate::field::{
    Field, FieldSize, bytes_for, get_prefix, getter_for, reads_field, set_prefix, setter_for, type_for_bits, writes_field,
};
use crate::plan::{GetExpr, SetStmt};

verus! {

/// Reading a run of bits after writing `v` into it gives the low `len` bits
/// of `v`: the getter of a field returns what its setter was given, cut to
/// the field's width.
pub proof fn law_read_after_write(g: GetExpr, s: SetStmt, start: int, len: nat, data: Seq<u8>, v: u128)
    requires
        reads_field(g, start, len),
        writes_field(s, start, len),
        0 <= start,
        len <= 128,
        8 * data.len() >= start + len,
    ensures
        g.value_in(s.applied(data, v)) == v as nat % pow2(len),
{
    let after = s.applied(data, v);
    assert(holds_field(data, after, start, len, v));
    lemma_written_value(data, after, start, len, v);
}

/// Writing a run of bits leaves every bit outside the run as it was.
pub proof fn law_write_keeps_other_bits(s: SetStmt, start: int, len: nat, data: Seq<u8>, v: u128, i: int)
    requires
        writes_field(s, start, len),
        8 * data.len() >= start + len,
        0 <= i < 8 * data.len(),
        !(start <= i < start + len),
    ensures
        s.applied(data, v).len() == data.len(),
        bit_at(s.applied(data, v), i) == bit_at(data, i),
{
    assert(holds_field(data, s.applied(data, v), start, len, v));
}

/// Writing one run of bits does not change what a read of another run,
/// that does not overlap it, gives.
pub proof fn law_write_keeps_other_reads(
    g: GetExpr,
    gstart: int,
    glen: nat,
    s: SetStmt,
    sstart: int,
    slen: nat,
    data: Seq<u8>,
    v: u128,
)
    requires
        reads_field(g, gstart, glen),
        writes_field(s, sstart, slen),
        0 <= gstart,
        gstart + glen <= sstart || sstart + slen <= gstart,
        8 * data.len() >= gstart + glen,
        8 * data.len() >= sstart + slen,
    ensures
        g.value_in(s.applied(data, v)) == g.value_in(data),
{
    let after = s.applied(data, v);
    assert(holds_field(data, after, sstart, slen, v));
    assert forall|i: int| gstart <= i < gstart + glen implies #[trigger] bit_at(after, i) == bit_at(data, i) by {
        assert(0 <= i < 8 * data.len());
    }
    lemma_bits_value_same(after, data, gstart, glen);
}

/// Writing twice into the same run of bits leaves the data as the second
/// write alone would.
pub proof fn law_write_twice(s: SetStmt, start: int, len: nat, data: Seq<u8>, v1: u128, v2: u128)
    requires
        writes_field(s, start, len),
        8 * data.len() >= start + len,
    ensures
        s.applied(s.applied(data, v1), v2) == s.applied(data, v2),
{
    let a1 = s.applied(data, v1);
    let a2 = s.applied(a1, v2);
    let b = s.applied(data, v2);
    assert(holds_field(data, a1, start, len, v1));
    assert(holds_field(a1, a2, start, len, v2));
    assert(holds_field(data, b, start, len, v2));
    assert forall|i: int| 0 <= i < 8 * a2.len() implies #[trigger] bit_at(a2, i) == bit_at(b, i) by {
        assert(bit_at(a1, i) == if start <= i < start + len { value_bit(v1, start + len - 1 - i) } else { bit_at(data, i) });
    }
    lemma_bytes_from_bits(a2, b);
}

/// Writing back the value just read leaves the data unchanged.
pub proof fn law_write_back_read(g: GetExpr, s: SetStmt, start: int, len: nat, data: Seq<u8>)
    requires
        reads_field(g, start, len),
        writes_field(s, start, len),
        0 <= start,
        len <= 128,
        8 * data.len() >= start + len,
    ensures
        g.value_in(data) <= u128::MAX,
        s.applied(data, g.value_in(data) as u128) == data,
{
    let w = bits_value(data, start, len);
    lemma_bits_value_bound(data, start, len);
    crate::plan::lemma_pow2_128();
    if len < 128 {
        vstd::arithmetic::power2::lemma_pow2_strictly_increases(len, 128);
    }
    let after = s.applied(data, w as u128);
    assert(holds_field(data, after, start, len, w as u128));
    lemma_written_value(data, after, start, len, w as u128);
    vstd::arithmetic::div_mod::lemma_small_mod(w, pow2(len));
    lemma_bits_value_injective(after, data, start, len);
    assert forall|i: int| 0 <= i < 8 * after.len() implies #[trigger] bit_at(after, i) == bit_at(data, i) by {}
    lemma_bytes_from_bits(after, data);
}

/// Writes into two runs of bits that do not overlap can be made in either order.
pub proof fn law_writes_commute(
    s1: SetStmt,
    start1: int,
    len1: nat,
    s2: SetStmt,
    start2: int,
    len2: nat,
    data: Seq<u8>,
    v1: u128,
    v2: u128,
)
    requires
        writes_field(s1, start1, len1),
        writes_field(s2, start2, len2),
        start1 + len1 <= start2 || start2 + len2 <= start1,
        8 * data.len() >= start1 + len1,
        8 * data.len() >= start2 + len2,
    ensures
        s2.applied(s1.applied(data, v1), v2) == s1.applied(s2.applied(data, v2), v1),
{
    let a1 = s1.applied(data, v1);
    let a12 = s2.applied(a1, v2);
    let b2 = s2.applied(data, v2);
    let b21 = s1.applied(b2, v1);
    assert(holds_field(data, a1, start1, len1, v1));
    assert(holds_field(a1, a12, start2, len2, v2));
    assert(holds_field(data, b2, start2, len2, v2));
    assert(holds_field(b2, b21, start1, len1, v1));
    assert forall|i: int| 0 <= i < 8 * a12.len() implies #[trigger] bit_at(a12, i) == bit_at(b21, i) by {
        assert(bit_at(a1, i) == bit_at(data, i) || (start1 <= i < start1 + len1));
        assert(bit_at(b2, i) == bit_at(data, i) || (start2 <= i < start2 + len2));
    }
    lemma_bytes_from_bits(a12, b21);
}


/// Each field lies inside the bits of all fields, and so inside the data
/// bytes of the struct.
pub proof fn law_field_in_bounds(fields: Seq<Field>, k: int)
    requires
        0 <= k < fields.len(),
    ensures
        field_start(fields, k) + fields[k].size.bits() <= total_bits(fields),
        total_bits(fields) <= 8 * bytes_for(total_bits(fields) as int),
    decreases fields.len(),
{
    if k == fields.len() - 1 {
        assert(fields.take(k) =~= fields.drop_last());
    } else {
        assert(fields.drop_last().take(k) =~= fields.take(k));
        assert(fields.drop_last()[k] == fields[k]);
        law_field_in_bounds(fields.drop_last(), k);
    }
}

/// A field ends at or before the start of every later field: fields do not overlap.
pub proof fn law_fields_disjoint(fields: Seq<Field>, j: int, k: int)
    requires
        0 <= j < k < fields.len(),
    ensures
        field_start(fields, j) + fields[j].size.bits() <= field_start(fields, k),
{
    let prefix = fields.take(k);
    assert(prefix.take(j) =~= fields.take(j));
    assert(prefix[j] == fields[j]);
    law_field_in_bounds(prefix, j);
}

/// The elements of a field lie one after the other inside it.
pub proof fn law_element_in_field(size: FieldSize, e: int)
    requires
        size.wf(),
        0 <= e < size.elements(),
    ensures
        0 <= e * size.element_bits(),
        e * size.element_bits() + size.element_bits() <= size.bits(),
{
    match size {
        FieldSize::Array { count, element_length } => {
            assert(e * element_length + element_length <= count * element_length) by (nonlinear_arith)
                requires 0 <= e < count, 0 <= element_length;
            assert(0 <= e * element_length) by (nonlinear_arith)
                requires 0 <= e, 0 <= element_length;
            assert(size.element_bits() == element_length as nat);
            assert(size.bits() == (count * element_length) as nat);
            assert(count * element_length >= 0) by (nonlinear_arith)
                requires count >= 0, element_length >= 0;
        },
        FieldSize::Scalar { length } => {
            assert(e == 0);
            assert(e * size.element_bits() == 0);
        },
    }
}

/// The position in the merged block of the setter of field `k`, of `n`.
pub open spec fn setter_item(n: int, k: int) -> int {
    if k == n - 1 { 0 } else { 3 + 2 * k }
}

/// The first bit of element `e` of field `k`.
pub open spec fn element_start(fields: Seq<Field>, k: int, e: int) -> int {
    field_start(fields, k) + e * fields[k].size.element_bits()
}

proof fn lemma_element_bounds(fields: Seq<Field>, k: int, e: int)
    requires
        forall|i: int| 0 <= i < fields.len() ==> (#[trigger] fields[i]).size.wf(),
        0 <= k < fields.len(),
        0 <= e < fields[k].size.elements(),
    ensures
        field_start(fields, k) <= element_start(fields, k, e),
        element_start(fields, k, e) + fields[k].size.element_bits() <= field_start(fields, k) + fields[k].size.bits(),
        field_start(fields, k) + fields[k].size.bits() <= 8 * bytes_for(total_bits(fields) as int),
        fields[k].size.element_bits() <= 128,
{
    law_field_in_bounds(fields, k);
    law_element_in_field(fields[k].size, e);
}

/// In the expansion of a declaration, the getter of a field, after its
/// setter wrote `v`, returns `v` cut to the field's width: element `e` of
/// field `k` reads back the low bits of the value written into it.
pub proof fn law_field_get_after_set(
    decl: BitfieldDecl,
    items: Seq<Method>,
    k: int,
    e: int,
    data: Seq<u8>,
    v: u128,
)
    requires
        forall|i: int| 0 <= i < decl.fields@.len() ==> (#[trigger] decl.fields@[i]).size.wf(),
        methods_of(items, decl, bytes_for(total_bits(decl.fields@) as int) as nat),
        0 <= k < decl.fields@.len(),
        0 <= e < decl.fields@[k].size.elements(),
        data.len() == bytes_for(total_bits(decl.fields@) as int),
    ensures
        match (items[2 + 2 * k].kind, items[setter_item(decl.fields@.len() as int, k)].kind) {
            (MethodKind::Getter { ty: _, exprs }, MethodKind::Setter { ty: _, stmts }) => exprs@[e].value_in(
                stmts@[e].applied(data, v),
            ) == v as nat % pow2(decl.fields@[k].size.element_bits()),
            _ => false,
        },
{
    let fields = decl.fields@;
    let n = fields.len() as int;
    lemma_element_bounds(fields, k, e);
    let start = element_start(fields, k, e);
    let len = fields[k].size.element_bits();
    let g = items[2 + 2 * k];
    let s = items[setter_item(n, k)];
    assert(getter_for(g, fields[k], field_start(fields, k) as int));
    assert(setter_for(s, fields[k], field_start(fields, k) as int)) by {
        if k == n - 1 {
        } else {
            assert(setter_for(items[3 + 2 * k], fields[k], field_start(fields, k) as int));
        }
    }
    match (g.kind, s.kind) {
        (MethodKind::Getter { ty: _, exprs }, MethodKind::Setter { ty: _, stmts }) => {
            assert(reads_field(exprs@[e], start, len));
            assert(writes_field(stmts@[e], start, len));
            law_read_after_write(exprs@[e], stmts@[e], start, len, data, v);
        },
        _ => {},
    }
}

/// In the expansion of a declaration, the setter of one field leaves what
/// the getters of the other fields return, and of its other elements, as
/// it was.
pub proof fn law_set_keeps_other_fields(
    decl: BitfieldDecl,
    items: Seq<Method>,
    k: int,
    e: int,
    j: int,
    f: int,
    data: Seq<u8>,
    v: u128,
)
    requires
        forall|i: int| 0 <= i < decl.fields@.len() ==> (#[trigger] decl.fields@[i]).size.wf(),
        methods_of(items, decl, bytes_for(total_bits(decl.fields@) as int) as nat),
        0 <= k < decl.fields@.len(),
        0 <= e < decl.fields@[k].size.elements(),
        0 <= j < decl.fields@.len(),
        0 <= f < decl.fields@[j].size.elements(),
        j != k || f != e,
        data.len() == bytes_for(total_bits(decl.fields@) as int),
    ensures
        match (items[2 + 2 * j].kind, items[setter_item(decl.fields@.len() as int, k)].kind) {
            (MethodKind::Getter { ty: _, exprs }, MethodKind::Setter { ty: _, stmts }) => exprs@[f].value_in(
                stmts@[e].applied(data, v),
            ) == exprs@[f].value_in(data),
            _ => false,
        },
{
    let fields = decl.fields@;
    let n = fields.len() as int;
    lemma_element_bounds(fields, k, e);
    lemma_element_bounds(fields, j, f);
    let sstart = element_start(fields, k, e);
    let slen = fields[k].size.element_bits();
    let gstart = element_start(fields, j, f);
    let glen = fields[j].size.element_bits();
    if j < k {
        law_fields_disjoint(fields, j, k);
    } else if k < j {
        law_fields_disjoint(fields, k, j);
    } else {
        let el = slen as int;
        if f < e {
            assert(f * el + el <= e * el) by (nonlinear_arith)
                requires f < e, 0 <= el;
        } else {
            assert(e * el + el <= f * el) by (nonlinear_arith)
                requires e < f, 0 <= el;
        }
    }
    let g = items[2 + 2 * j];
    let s = items[setter_item(n, k)];
    assert(getter_for(g, fields[j], field_start(fields, j) as int));
    assert(setter_for(s, fields[k], field_start(fields, k) as int)) by {
        if k == n - 1 {
        } else {
            assert(setter_for(items[3 + 2 * k], fields[k], field_start(fields, k) as int));
        }
    }
    match (g.kind, s.kind) {
        (MethodKind::Getter { ty: _, exprs }, MethodKind::Setter { ty: _, stmts }) => {
            assert(reads_field(exprs@[f], gstart, glen));
            assert(writes_field(stmts@[e], sstart, slen));
            law_write_keeps_other_reads(exprs@[f], gstart, glen, stmts@[e], sstart, slen, data, v);
        },
        _ => {},
    }
}


/// Fields are packed with no padding: each starts where the one before it
/// ends, the first at bit 0.
pub proof fn law_fields_consecutive(fields: Seq<Field>, k: int)
    requires
        0 <= k < fields.len(),
    ensures
        field_start(fields, 0) == 0,
        field_start(fields, k + 1) == field_start(fields, k) + fields[k].size.bits(),
{
    assert(fields.take(0) =~= Seq::<Field>::empty());
    assert(fields.take(k + 1).drop_last() =~= fields.take(k));
}

/// The struct holds just the bytes its fields need: no whole byte is left
/// after the last field's bits.
pub proof fn law_no_spare_byte(fields: Seq<Field>)
    ensures
        total_bits(fields) <= 8 * bytes_for(total_bits(fields) as int),
        8 * bytes_for(total_bits(fields) as int) < total_bits(fields) + 8,
{
}


/// The first method with a name and kind is the one at `p` when none before it has them.
proof fn lemma_first_named_at(items: Seq<Method>, name: Seq<u8>, getter: bool, p: int, from: int)
    requires
        0 <= from <= p < items.len(),
        named(items[p], name, getter),
        forall|q: int| from <= q < p ==> !named(#[trigger] items[q], name, getter),
    ensures
        first_named(items, name, getter, from) == Some(p),
    decreases p - from,
{
    if from < p {
        lemma_first_named_at(items, name, getter, p, from + 1);
    }
}

/// Distinct names keep distinct after the same prefix.
proof fn lemma_prefix_distinct(prefix: Seq<u8>, a: Seq<u8>, b: Seq<u8>)
    requires
        a != b,
    ensures
        prefix + a != prefix + b,
{
    if prefix + a == prefix + b {
        assert((prefix + a).skip(prefix.len() as int) =~= a);
        assert((prefix + b).skip(prefix.len() as int) =~= b);
    }
}

proof fn lemma_elements_apart(e: int, m: int, el: int)
    requires
        0 <= e < m,
        0 <= el,
    ensures
        e * el + el <= m * el,
        0 <= e * el,
{
    assert(e * el + el <= m * el) by (nonlinear_arith)
        requires 0 <= e < m, 0 <= el;
    assert(0 <= e * el) by (nonlinear_arith)
        requires 0 <= e, 0 <= el;
}

/// Writing the elements of an array field one after the other leaves each
/// element reading as the low bits of its own number.
proof fn lemma_apply_all_reads(
    gs: Seq<GetExpr>,
    ss: Seq<SetStmt>,
    w: Seq<u128>,
    d: Seq<u8>,
    start: int,
    el: nat,
    m: int,
)
    requires
        0 <= m <= ss.len(),
        gs.len() == ss.len(),
        w.len() == ss.len(),
        el <= 128,
        0 <= start,
        forall|e: int| 0 <= e < ss.len() ==> reads_field(#[trigger] gs[e], start + e * el, el),
        forall|e: int| 0 <= e < ss.len() ==> writes_field(#[trigger] ss[e], start + e * el, el),
        8 * d.len() >= start + ss.len() * el,
    ensures
        apply_all(ss.take(m), w.take(m), d).len() == d.len(),
        forall|e: int| 0 <= e < m ==> (#[trigger] gs[e]).value_in(apply_all(ss.take(m), w.take(m), d)) == w[e] as nat % pow2(el),
    decreases m,
{
    if m > 0 {
        lemma_apply_all_reads(gs, ss, w, d, start, el, m - 1);
        let prev = apply_all(ss.take(m - 1), w.take(m - 1), d);
        assert(ss.take(m).drop_last() =~= ss.take(m - 1));
        assert(w.take(m).drop_last() =~= w.take(m - 1));
        assert(ss.take(m).last() == ss[m - 1]);
        assert(w.take(m).last() == w[m - 1]);
        let next = apply_all(ss.take(m), w.take(m), d);
        assert(next == ss[m - 1].applied(prev, w[m - 1]));
        lemma_elements_apart(m - 1, ss.len() as int, el as int);
        let sstart = start + (m - 1) * el;
        assert(writes_field(ss[m - 1], sstart, el));
        assert(reads_field(gs[m - 1], sstart, el));
        assert(holds_field(prev, next, sstart, el, w[m - 1]));
        law_read_after_write(gs[m - 1], ss[m - 1], sstart, el, prev, w[m - 1]);
        assert forall|e: int| 0 <= e < m implies (#[trigger] gs[e]).value_in(next) == w[e] as nat % pow2(el) by {
            if e < m - 1 {
                lemma_elements_apart(e, m - 1, el as int);
                lemma_elements_apart(e, ss.len() as int, el as int);
                assert(reads_field(gs[e], start + e * el, el));
                law_write_keeps_other_reads(gs[e], start + e * el, el, ss[m - 1], sstart, el, prev, w[m - 1]);
            }
        }
    } else {
        assert(ss.take(0).len() == 0);
    }
}

/// In a struct of a declaration whose field names differ, the getter and
/// the setter named after field `k` are that field's; and once the setter
/// wrote a value of the field's type, every element of the field reads as
/// the low bits of its number: the value set, cut to the field's width.
pub proof fn law_named_get_after_set(decl: BitfieldDecl, items: Seq<Method>, k: int, data: Seq<u8>, value: Value)
    requires
        forall|i: int| 0 <= i < decl.fields@.len() ==> (#[trigger] decl.fields@[i]).size.wf(),
        methods_of(items, decl, bytes_for(total_bits(decl.fields@) as int) as nat),
        0 <= k < decl.fields@.len(),
        forall|j: int| 0 <= j < decl.fields@.len() && j != k ==> (#[trigger] decl.fields@[j]).name@ != decl.fields@[k].name@,
        data.len() == bytes_for(total_bits(decl.fields@) as int),
    ensures
        first_named(items, get_prefix() + decl.fields@[k].name@, true, 0) == Some(2 + 2 * k),
        first_named(items, set_prefix() + decl.fields@[k].name@, false, 0) == Some(setter_item(decl.fields@.len() as int, k)),
        match (items[2 + 2 * k].kind, items[setter_item(decl.fields@.len() as int, k)].kind) {
            (MethodKind::Getter { ty: gty, exprs }, MethodKind::Setter { ty: sty, stmts }) => {
                &&& gty == sty
                &&& setter_words(sty, value) matches Some(w) ==> forall|e: int| 0 <= e < exprs@.len() ==>
                    #[trigger] exprs@[e].value_in(apply_all(stmts@, w, data)) == w[e] as nat % pow2(decl.fields@[k].size.element_bits())
            },
            _ => false,
        },
{
    let fields = decl.fields@;
    let n = fields.len() as int;
    let f = fields[k];
    let gname = get_prefix() + f.name@;
    let sname = set_prefix() + f.name@;
    let si = setter_item(n, k);
    assert(getter_for(items[2 + 2 * k], f, field_start(fields, k) as int));
    assert(setter_for(items[si], f, field_start(fields, k) as int)) by {
        if k != n - 1 {
            assert(setter_for(items[3 + 2 * k], f, field_start(fields, k) as int));
        }
    }
    assert forall|q: int| 0 <= q < 2 + 2 * k implies !named(#[trigger] items[q], gname, true) by {
        if q >= 2 && q % 2 == 0 {
            let j = (q - 2) / 2;
            assert(q == 2 + 2 * j);
            assert(getter_for(items[2 + 2 * j], fields[j], field_start(fields, j) as int));
            lemma_prefix_distinct(get_prefix(), fields[j].name@, f.name@);
        } else if q >= 3 {
            let j = (q - 3) / 2;
            assert(q == 3 + 2 * j);
            assert(setter_for(items[3 + 2 * j], fields[j], field_start(fields, j) as int));
        } else if q == 0 {
            assert(setter_for(items[0], fields[n - 1], field_start(fields, n - 1) as int));
        }
    }
    lemma_first_named_at(items, gname, true, 2 + 2 * k, 0);
    assert forall|q: int| 0 <= q < si implies !named(#[trigger] items[q], sname, false) by {
        if q >= 2 && q % 2 == 0 {
            let j = (q - 2) / 2;
            assert(q == 2 + 2 * j);
            assert(getter_for(items[2 + 2 * j], fields[j], field_start(fields, j) as int));
        } else if q >= 3 {
            let j = (q - 3) / 2;
            assert(q == 3 + 2 * j);
            assert(setter_for(items[3 + 2 * j], fields[j], field_start(fields, j) as int));
            lemma_prefix_distinct(set_prefix(), fields[j].name@, f.name@);
        } else if q == 0 {
            assert(setter_for(items[0], fields[n - 1], field_start(fields, n - 1) as int));
            lemma_prefix_distinct(set_prefix(), fields[n - 1].name@, f.name@);
        }
    }
    lemma_first_named_at(items, sname, false, si, 0);
    match (items[2 + 2 * k].kind, items[si].kind) {
        (MethodKind::Getter { ty: gty, exprs }, MethodKind::Setter { ty: sty, stmts }) => {
            match setter_words(sty, value) {
                Some(w) => {
                    let el = f.size.element_bits();
                    let start = field_start(fields, k) as int;
                    law_field_in_bounds(fields, k);
                    law_element_in_field(f.size, 0);
                    assert(w.len() == stmts@.len()) by {
                        match sty {
                            FieldType::Single(t) => {},
                            FieldType::Array(t, c) => {},
                        }
                    }
                    assert(8 * data.len() >= start + stmts@.len() * el) by {
                        match f.size {
                            FieldSize::Array { count, element_length } => {},
                            FieldSize::Scalar { length } => {},
                        }
                    }
                    lemma_apply_all_reads(exprs@, stmts@, w, data, start, el, stmts@.len() as int);
                    assert(stmts@.take(stmts@.len() as int) =~= stmts@);
                    assert(w.take(w.len() as int) =~= w);
                },
                None => {},
            }
        },
        _ => {},
    }
}


/// Writing the elements of one field leaves what a read outside the field gives.
proof fn lemma_apply_all_keeps(
    g: GetExpr,
    gstart: int,
    glen: nat,
    ss: Seq<SetStmt>,
    w: Seq<u128>,
    d: Seq<u8>,
    start: int,
    el: nat,
    m: int,
)
    requires
        0 <= m <= ss.len(),
        w.len() == ss.len(),
        0 <= start,
        0 <= gstart,
        reads_field(g, gstart, glen),
        gstart + glen <= start || start + ss.len() * el <= gstart,
        forall|e: int| 0 <= e < ss.len() ==> writes_field(#[trigger] ss[e], start + e * el, el),
        8 * d.len() >= start + ss.len() * el,
        8 * d.len() >= gstart + glen,
    ensures
        apply_all(ss.take(m), w.take(m), d).len() == d.len(),
        g.value_in(apply_all(ss.take(m), w.take(m), d)) == g.value_in(d),
    decreases m,
{
    if m > 0 {
        lemma_apply_all_keeps(g, gstart, glen, ss, w, d, start, el, m - 1);
        let prev = apply_all(ss.take(m - 1), w.take(m - 1), d);
        assert(ss.take(m).drop_last() =~= ss.take(m - 1));
        assert(w.take(m).drop_last() =~= w.take(m - 1));
        assert(ss.take(m).last() == ss[m - 1]);
        assert(w.take(m).last() == w[m - 1]);
        lemma_elements_apart(m - 1, ss.len() as int, el as int);
        let sstart = start + (m - 1) * el;
        assert(writes_field(ss[m - 1], sstart, el));
        assert(holds_field(prev, ss[m - 1].applied(prev, w[m - 1]), sstart, el, w[m - 1]));
        law_write_keeps_other_reads(g, gstart, glen, ss[m - 1], sstart, el, prev, w[m - 1]);
    } else {
        assert(ss.take(0).len() == 0);
    }
}

/// In a struct of a declaration, once the setter of field `k` wrote a value
/// of the field's type, every element of every other field reads as before.
pub proof fn law_set_keeps_other_fields_all(
    decl: BitfieldDecl,
    items: Seq<Method>,
    k: int,
    j: int,
    f: int,
    data: Seq<u8>,
    value: Value,
)
    requires
        forall|i: int| 0 <= i < decl.fields@.len() ==> (#[trigger] decl.fields@[i]).size.wf(),
        methods_of(items, decl, bytes_for(total_bits(decl.fields@) as int) as nat),
        0 <= k < decl.fields@.len(),
        0 <= j < decl.fields@.len(),
        j != k,
        0 <= f < decl.fields@[j].size.elements(),
        data.len() == bytes_for(total_bits(decl.fields@) as int),
    ensures
        match (items[2 + 2 * j].kind, items[setter_item(decl.fields@.len() as int, k)].kind) {
            (MethodKind::Getter { ty: _, exprs }, MethodKind::Setter { ty: sty, stmts }) =>
                setter_words(sty, value) matches Some(w) ==> exprs@[f].value_in(apply_all(stmts@, w, data))
                    == exprs@[f].value_in(data),
            _ => false,
        },
{
    let fields = decl.fields@;
    let n = fields.len() as int;
    let si = setter_item(n, k);
    assert(getter_for(items[2 + 2 * j], fields[j], field_start(fields, j) as int));
    assert(setter_for(items[si], fields[k], field_start(fields, k) as int)) by {
        if k != n - 1 {
            assert(setter_for(items[3 + 2 * k], fields[k], field_start(fields, k) as int));
        }
    }
    lemma_element_bounds(fields, j, f);
    law_field_in_bounds(fields, k);
    if j < k {
        law_fields_disjoint(fields, j, k);
    } else {
        law_fields_disjoint(fields, k, j);
    }
    match (items[2 + 2 * j].kind, items[si].kind) {
        (MethodKind::Getter { ty: _, exprs }, MethodKind::Setter { ty: sty, stmts }) => {
            match setter_words(sty, value) {
                Some(w) => {
                    let el = fields[k].size.element_bits();
                    let start = field_start(fields, k) as int;
                    assert(w.len() == stmts@.len()) by {
                        match sty {
                            FieldType::Single(t) => {},
                            FieldType::Array(t, c) => {},
                        }
                    }
                    assert(stmts@.len() * el == fields[k].size.bits()) by {
                        lemma_words_len(fields[k].size, value);
                    }
                    let gstart = element_start(fields, j, f);
                    let glen = fields[j].size.element_bits();
                    assert(reads_field(exprs@[f], gstart, glen));
                    lemma_apply_all_keeps(exprs@[f], gstart, glen, stmts@, w, data, start, el, stmts@.len() as int);
                    assert(stmts@.take(stmts@.len() as int) =~= stmts@);
                    assert(w.take(w.len() as int) =~= w);
                },
                None => {},
            }
        },
        _ => {},
    }
}

/// Bit `k` of `v` is bit `k` of `v` cut to its low `len` bits, for `k` below `len`.
proof fn lemma_value_bit_low(v: u128, len: nat, k: nat)
    requires
        k < len <= 128,
    ensures
        value_bit((v as nat % pow2(len)) as u128, k as int) == value_bit(v, k as int),
{
    let y: int = pow2(k) as int;
    let z: int = pow2((len - k) as nat) as int;
    let h: int = pow2((len - k - 1) as nat) as int;
    vstd::arithmetic::power2::lemma_pow2_adds(k, (len - k) as nat);
    vstd::arithmetic::power2::lemma_pow2_adds(1, (len - k - 1) as nat);
    vstd::arithmetic::power2::lemma2_to64();
    vstd::arithmetic::power2::lemma_pow2_pos(k);
    vstd::arithmetic::power2::lemma_pow2_pos((len - k) as nat);
    vstd::arithmetic::power2::lemma_pow2_pos((len - k - 1) as nat);
    assert(pow2(len) == y * z);
    assert(z == 2 * h);
    let x = v as int;
    let q = (x / y) % z;
    let r = x % y;
    let m = x % (y * z);
    vstd::arithmetic::div_mod::lemma_mod_breakdown(x, y, z);
    assert(m == y * q + r);
    vstd::arithmetic::div_mod::lemma_mod_pos_bound(x, y);
    vstd::arithmetic::mul::lemma_mul_is_commutative(y, q);
    vstd::arithmetic::div_mod::lemma_fundamental_div_mod_converse(m, y, q, r);
    assert(m / y == q);
    vstd::arithmetic::div_mod::lemma_div_pos_is_pos(x, y);
    vstd::arithmetic::div_mod::lemma_mod_mod(x / y, 2, h);
    assert(q % 2 == (x / y) % 2);
    vstd::arithmetic::div_mod::lemma_mod_decreases(v as nat, pow2(len));
    let c = (v as nat % pow2(len)) as u128;
    assert(c as int == m);
    lemma_value_bit_div(c, k);
    lemma_value_bit_div(v, k);
}

/// A setter uses only the low `len` bits of its value: writing `v` and
/// writing `v` cut to `len` bits give the same data.
pub proof fn law_write_ignores_high_bits(s: SetStmt, start: int, len: nat, data: Seq<u8>, v: u128)
    requires
        writes_field(s, start, len),
        0 <= start,
        1 <= len <= 128,
        8 * data.len() >= start + len,
    ensures
        s.applied(data, v) == s.applied(data, (v as nat % pow2(len)) as u128),
{
    let w = (v as nat % pow2(len)) as u128;
    let a = s.applied(data, v);
    let b = s.applied(data, w);
    assert(holds_field(data, a, start, len, v));
    assert(holds_field(data, b, start, len, w));
    assert forall|i: int| 0 <= i < 8 * a.len() implies #[trigger] bit_at(a, i) == bit_at(b, i) by {
        if start <= i < start + len {
            lemma_value_bit_low(v, len, (start + len - 1 - i) as nat);
        }
    }
    lemma_bytes_from_bits(a, b);
}

/// A read gives the same number from any two data that agree on the bits it
/// reads; the bytes it touches start at the byte of its first bit.
pub proof fn law_read_sees_only_its_bits(g: GetExpr, start: int, len: nat, d1: Seq<u8>, d2: Seq<u8>)
    requires
        reads_field(g, start, len),
        8 * d1.len() >= start + len,
        8 * d2.len() >= start + len,
        forall|i: int| start <= i < start + len ==> #[trigger] bit_at(d1, i) == bit_at(d2, i),
    ensures
        g.value_in(d1) == g.value_in(d2),
        g.reads_from((start / 8) as nat),
{
    lemma_bits_value_same(d1, d2, start, len);
}

/// Plans that write `el` bits each, one after the other from bit `start`.
pub open spec fn writes_elements(ss: Seq<SetStmt>, start: int, el: nat) -> bool {
    forall|e: int| 0 <= e < ss.len() ==> writes_field(#[trigger] ss[e], start + e * el, el)
}

proof fn lemma_writes_elements_drop_last(ss: Seq<SetStmt>, start: int, el: nat)
    requires
        writes_elements(ss, start, el),
        ss.len() > 0,
    ensures
        writes_elements(ss.drop_last(), start, el),
        writes_field(ss.last(), start + (ss.len() - 1) * el, el),
        (ss.len() - 1) * el + el <= ss.len() * el,
        0 <= (ss.len() - 1) * el,
{
    assert forall|e: int| 0 <= e < ss.len() - 1 implies writes_field(#[trigger] ss.drop_last()[e], start + e * el, el) by {
        assert(ss.drop_last()[e] == ss[e]);
    }
    lemma_elements_apart(ss.len() - 1, ss.len() as int, el as int);
}

/// Writing the elements of a field keeps the length of the data and every
/// bit outside the field.
proof fn lemma_apply_all_keeps_bit(ss: Seq<SetStmt>, w: Seq<u128>, d: Seq<u8>, start: int, el: nat, i: int)
    requires
        ss.len() == w.len(),
        0 <= start,
        writes_elements(ss, start, el),
        8 * d.len() >= start + ss.len() * el,
        0 <= i < 8 * d.len() ==> !(start <= i < start + ss.len() * el),
    ensures
        apply_all(ss, w, d).len() == d.len(),
        0 <= i < 8 * d.len() ==> bit_at(apply_all(ss, w, d), i) == bit_at(d, i),
    decreases ss.len(),
{
    if ss.len() > 0 {
        let m = ss.len() - 1;
        lemma_writes_elements_drop_last(ss, start, el);
        lemma_apply_all_keeps_bit(ss.drop_last(), w.drop_last(), d, start, el, i);
        let prev = apply_all(ss.drop_last(), w.drop_last(), d);
        if 0 <= i < 8 * d.len() {
            law_write_keeps_other_bits(ss.last(), start + m * el, el, prev, w.last(), i);
        } else {
            assert(holds_field(prev, ss.last().applied(prev, w.last()), start + m * el, el, w.last()));
        }
    }
}

/// One write outside a field can be made before or after the writes of the
/// field's elements.
proof fn lemma_write_commutes_all(
    s: SetStmt,
    sstart: int,
    slen: nat,
    v: u128,
    ss: Seq<SetStmt>,
    w: Seq<u128>,
    d: Seq<u8>,
    start: int,
    el: nat,
)
    requires
        writes_field(s, sstart, slen),
        0 <= sstart,
        8 * d.len() >= sstart + slen,
        ss.len() == w.len(),
        0 <= start,
        writes_elements(ss, start, el),
        8 * d.len() >= start + ss.len() * el,
        sstart + slen <= start || start + ss.len() * el <= sstart,
    ensures
        s.applied(apply_all(ss, w, d), v) == apply_all(ss, w, s.applied(d, v)),
    decreases ss.len(),
{
    if ss.len() > 0 {
        let m = ss.len() - 1;
        lemma_writes_elements_drop_last(ss, start, el);
        lemma_write_commutes_all(s, sstart, slen, v, ss.drop_last(), w.drop_last(), d, start, el);
        let p = apply_all(ss.drop_last(), w.drop_last(), d);
        lemma_apply_all_keeps_bit(ss.drop_last(), w.drop_last(), d, start, el, -1);
        law_writes_commute(ss.last(), start + m * el, el, s, sstart, slen, p, w.last(), v);
    }
}

/// The writes of two fields that do not overlap can be made in either order.
proof fn lemma_all_commute(
    sk: Seq<SetStmt>,
    wk: Seq<u128>,
    startk: int,
    elk: nat,
    sj: Seq<SetStmt>,
    wj: Seq<u128>,
    startj: int,
    elj: nat,
    d: Seq<u8>,
)
    requires
        sk.len() == wk.len(),
        sj.len() == wj.len(),
        0 <= startk,
        0 <= startj,
        writes_elements(sk, startk, elk),
        writes_elements(sj, startj, elj),
        8 * d.len() >= startk + sk.len() * elk,
        8 * d.len() >= startj + sj.len() * elj,
        startk + sk.len() * elk <= startj || startj + sj.len() * elj <= startk,
    ensures
        apply_all(sj, wj, apply_all(sk, wk, d)) == apply_all(sk, wk, apply_all(sj, wj, d)),
    decreases sk.len(),
{
    if sk.len() > 0 {
        let m = sk.len() - 1;
        lemma_writes_elements_drop_last(sk, startk, elk);
        lemma_all_commute(sk.drop_last(), wk.drop_last(), startk, elk, sj, wj, startj, elj, d);
        let p = apply_all(sk.drop_last(), wk.drop_last(), d);
        lemma_apply_all_keeps_bit(sk.drop_last(), wk.drop_last(), d, startk, elk, -1);
        lemma_write_commutes_all(sk.last(), startk + m * elk, elk, wk.last(), sj, wj, p, startj, elj);
    }
}

/// The setter of field `k`, as the expansion lays it out.
proof fn lemma_setter_of(decl: BitfieldDecl, items: Seq<Method>, k: int)
    requires
        methods_of(items, decl, bytes_for(total_bits(decl.fields@) as int) as nat),
        0 <= k < decl.fields@.len(),
    ensures
        setter_for(
            items[setter_item(decl.fields@.len() as int, k)],
            decl.fields@[k],
            field_start(decl.fields@, k) as int,
        ),
{
    let n = decl.fields@.len() as int;
    if k != n - 1 {
        assert(setter_for(items[3 + 2 * k], decl.fields@[k], field_start(decl.fields@, k) as int));
    }
}

/// The words of a value for a setter of a field come one per element.
proof fn lemma_words_len(size: FieldSize, v: Value)
    ensures
        setter_words(size.field_type(), v) matches Some(w) ==> w.len() == size.elements(),
        size.elements() * size.element_bits() == size.bits(),
{
    match size {
        FieldSize::Array { count, element_length } => {
            assert(size.elements() * size.element_bits() == size.bits()) by (nonlinear_arith)
                requires
                    size.elements() == count as nat,
                    size.element_bits() == element_length as nat,
                    size.bits() == (count * element_length) as nat,
            ;
        },
        FieldSize::Scalar { length } => {
            assert(size.elements() * size.element_bits() == size.bits()) by (nonlinear_arith)
                requires
                    size.elements() == 1,
                    size.element_bits() == size.bits(),
            ;
        },
    }
}

/// In a struct of a declaration, the setters of two different fields can be
/// called in either order: the data comes out the same.
pub proof fn law_setters_commute(
    decl: BitfieldDecl,
    items: Seq<Method>,
    k: int,
    j: int,
    data: Seq<u8>,
    a: Value,
    b: Value,
)
    requires
        forall|i: int| 0 <= i < decl.fields@.len() ==> (#[trigger] decl.fields@[i]).size.wf(),
        methods_of(items, decl, bytes_for(total_bits(decl.fields@) as int) as nat),
        0 <= k < decl.fields@.len(),
        0 <= j < decl.fields@.len(),
        j != k,
        data.len() == bytes_for(total_bits(decl.fields@) as int),
    ensures
        match (
            items[setter_item(decl.fields@.len() as int, k)].kind,
            items[setter_item(decl.fields@.len() as int, j)].kind,
        ) {
            (MethodKind::Setter { ty: tk, stmts: sk }, MethodKind::Setter { ty: tj, stmts: sj }) => match (
                setter_words(tk, a),
                setter_words(tj, b),
            ) {
                (Some(wa), Some(wb)) => apply_all(sj@, wb, apply_all(sk@, wa, data)) == apply_all(
                    sk@,
                    wa,
                    apply_all(sj@, wb, data),
                ),
                _ => true,
            },
            _ => false,
        },
{
    let fields = decl.fields@;
    let n = fields.len() as int;
    lemma_setter_of(decl, items, k);
    lemma_setter_of(decl, items, j);
    law_field_in_bounds(fields, k);
    law_field_in_bounds(fields, j);
    if j < k {
        law_fields_disjoint(fields, j, k);
    } else {
        law_fields_disjoint(fields, k, j);
    }
    lemma_words_len(fields[k].size, a);
    lemma_words_len(fields[j].size, b);
    match (items[setter_item(n, k)].kind, items[setter_item(n, j)].kind) {
        (MethodKind::Setter { ty: tk, stmts: sk }, MethodKind::Setter { ty: tj, stmts: sj }) => {
            match (setter_words(tk, a), setter_words(tj, b)) {
                (Some(wa), Some(wb)) => {
                    lemma_all_commute(
                        sk@,
                        wa,
                        field_start(fields, k) as int,
                        fields[k].size.element_bits(),
                        sj@,
                        wb,
                        field_start(fields, j) as int,
                        fields[j].size.element_bits(),
                        data,
                    );
                },
                _ => {},
            }
        },
        _ => {},
    }
}

/// The data after a run of setter calls, each a field's index and a value,
/// the first call first. A call with a value of the wrong type changes nothing.
pub open spec fn run_setters(items: Seq<Method>, n: int, calls: Seq<(int, Value)>, data: Seq<u8>) -> Seq<u8>
    decreases calls.len(),
{
    if calls.len() == 0 {
        data
    } else {
        let prev = run_setters(items, n, calls.drop_last(), data);
        match items[setter_item(n, calls.last().0)].kind {
            MethodKind::Setter { ty, stmts } => match setter_words(ty, calls.last().1) {
                Some(w) => apply_all(stmts@, w, prev),
                None => prev,
            },
            _ => prev,
        }
    }
}

/// In a struct of a declaration, the bits after the last field, to the end
/// of the last byte, are never written: any run of setter calls leaves them,
/// and the length of the data, as they were.
pub proof fn law_padding_kept(decl: BitfieldDecl, items: Seq<Method>, calls: Seq<(int, Value)>, data: Seq<u8>, i: int)
    requires
        forall|f: int| 0 <= f < decl.fields@.len() ==> (#[trigger] decl.fields@[f]).size.wf(),
        methods_of(items, decl, bytes_for(total_bits(decl.fields@) as int) as nat),
        forall|c: int| 0 <= c < calls.len() ==> 0 <= (#[trigger] calls[c]).0 < decl.fields@.len(),
        data.len() == bytes_for(total_bits(decl.fields@) as int),
        total_bits(decl.fields@) <= i < 8 * data.len(),
    ensures
        run_setters(items, decl.fields@.len() as int, calls, data).len() == data.len(),
        bit_at(run_setters(items, decl.fields@.len() as int, calls, data), i) == bit_at(data, i),
    decreases calls.len(),
{
    let fields = decl.fields@;
    let n = fields.len() as int;
    if calls.len() > 0 {
        assert forall|c: int| 0 <= c < calls.drop_last().len() implies 0 <= (#[trigger] calls.drop_last()[c]).0 < n by {
            assert(calls.drop_last()[c] == calls[c]);
        }
        law_padding_kept(decl, items, calls.drop_last(), data, i);
        let prev = run_setters(items, n, calls.drop_last(), data);
        let k = calls.last().0;
        assert(calls.last() == calls[calls.len() - 1]);
        lemma_setter_of(decl, items, k);
        law_field_in_bounds(fields, k);
        lemma_words_len(fields[k].size, calls.last().1);
        match items[setter_item(n, k)].kind {
            MethodKind::Setter { ty, stmts } => match setter_words(ty, calls.last().1) {
                Some(w) => {
                    lemma_apply_all_keeps_bit(stmts@, w, prev, field_start(fields, k) as int, fields[k].size.element_bits(), i);
                },
                None => {},
            },
            _ => {},
        }
    }
}

/// The getter and the setter of a field, as `to_methods` makes them: once
/// the setter wrote a value of the field's type, every element reads back as
/// the low bits of its number, that is the value cut to the element's width.
pub proof fn law_method_get_after_set(f: Field, start: int, g: Method, s: Method, data: Seq<u8>, value: Value)
    requires
        f.size.lengths_ok(),
        0 <= start,
        getter_for(g, f, start),
        setter_for(s, f, start),
        8 * data.len() >= start + f.size.bits(),
    ensures
        match (g.kind, s.kind) {
            (MethodKind::Getter { ty: _, exprs }, MethodKind::Setter { ty, stmts }) => match setter_words(ty, value) {
                Some(w) => {
                    &&& apply_all(stmts@, w, data).len() == data.len()
                    &&& forall|e: int| 0 <= e < exprs@.len() ==> (#[trigger] exprs@[e]).value_in(apply_all(stmts@, w, data))
                        == w[e] as nat % pow2(f.size.element_bits())
                },
                None => true,
            },
            _ => false,
        },
{
    lemma_words_len(f.size, value);
    match (g.kind, s.kind) {
        (MethodKind::Getter { ty: _, exprs }, MethodKind::Setter { ty, stmts }) => match setter_words(ty, value) {
            Some(w) => {
                let n = stmts@.len() as int;
                lemma_apply_all_reads(exprs@, stmts@, w, data, start, f.size.element_bits(), n);
                assert(stmts@.take(n) =~= stmts@);
                assert(w.take(n) =~= w);
            },
            None => {},
        },
        _ => {},
    }
}

/// Writing the elements of a field with the numbers they read leaves the data as it was.
proof fn lemma_apply_all_write_back(gs: Seq<GetExpr>, ss: Seq<SetStmt>, w: Seq<u128>, d: Seq<u8>, start: int, el: nat, m: int)
    requires
        0 <= m <= ss.len(),
        gs.len() == ss.len(),
        w.len() == ss.len(),
        el <= 128,
        0 <= start,
        forall|e: int| 0 <= e < ss.len() ==> reads_field(#[trigger] gs[e], start + e * el, el),
        forall|e: int| 0 <= e < ss.len() ==> writes_field(#[trigger] ss[e], start + e * el, el),
        forall|e: int| 0 <= e < ss.len() ==> #[trigger] w[e] as nat == gs[e].value_in(d),
        8 * d.len() >= start + ss.len() * el,
    ensures
        apply_all(ss.take(m), w.take(m), d) == d,
    decreases m,
{
    if m > 0 {
        lemma_apply_all_write_back(gs, ss, w, d, start, el, m - 1);
        assert(ss.take(m).drop_last() =~= ss.take(m - 1));
        assert(w.take(m).drop_last() =~= w.take(m - 1));
        assert(ss.take(m).last() == ss[m - 1]);
        assert(w.take(m).last() == w[m - 1]);
        lemma_elements_apart(m - 1, ss.len() as int, el as int);
        let sstart = start + (m - 1) * el;
        assert(writes_field(ss[m - 1], sstart, el));
        assert(reads_field(gs[m - 1], sstart, el));
        assert(w[m - 1] as nat == gs[m - 1].value_in(d));
        law_write_back_read(gs[m - 1], ss[m - 1], sstart, el, d);
    } else {
        assert(ss.take(0).len() == 0);
    }
}

/// A number of `len` bits fits the type chosen for `len` bits.
proof fn lemma_fits_type(len: nat, x: u128)
    requires
        1 <= len <= 128,
        (x as nat) < pow2(len),
    ensures
        fits(type_for_bits(len as int), x),
{
    let wd = type_for_bits(len as int).width();
    if len < wd {
        vstd::arithmetic::power2::lemma_pow2_strictly_increases(len, wd);
    }
}

/// Writing back what the getter of a field just read changes no byte: the
/// setter takes the value that the getter returns, and its writes leave the
/// data as it was.
pub proof fn law_method_write_back_read(f: Field, start: int, g: Method, s: Method, data: Seq<u8>, value: Value)
    requires
        f.size.lengths_ok(),
        0 <= start,
        getter_for(g, f, start),
        setter_for(s, f, start),
        8 * data.len() >= start + f.size.bits(),
        getter_returns(g, data, value),
    ensures
        match s.kind {
            MethodKind::Setter { ty, stmts } => setter_words(ty, value) matches Some(w) && apply_all(stmts@, w, data) == data,
            _ => false,
        },
{
    lemma_words_len(f.size, value);
    let el = f.size.element_bits();
    match (g.kind, s.kind) {
        (MethodKind::Getter { ty: _, exprs }, MethodKind::Setter { ty, stmts }) => {
            let n = stmts@.len() as int;
            assert forall|e: int| 0 <= e < n implies (#[trigger] exprs@[e]).value_in(data) < pow2(el) by {
                lemma_elements_apart(e, n, el as int);
                lemma_bits_value_bound(data, start + e * el, el);
            }
            let t = type_for_bits(el as int);
            assert(ty == f.size.field_type());
            let w: Seq<u128> = Seq::new(n as nat, |e: int| exprs@[e].value_in(data) as u128);
            assert forall|e: int| 0 <= e < n implies #[trigger] w[e] as nat == exprs@[e].value_in(data) by {
                vstd::arithmetic::power2::lemma_pow2_strictly_increases(el, 129);
                crate::plan::lemma_pow2_128();
                if el < 128 {
                    vstd::arithmetic::power2::lemma_pow2_strictly_increases(el, 128);
                }
            }
            match f.size {
                FieldSize::Scalar { length } => {
                    assert(n == 1);
                    if t == ValueType::Bool {
                        assert(el == 1);
                        vstd::arithmetic::power2::lemma2_to64();
                        assert(setter_words(ty, value) == Some(w));
                    } else {
                        lemma_fits_type(el, w[0]);
                        assert(setter_words(ty, value) == Some(w));
                    }
                },
                FieldSize::Array { count, element_length } => {
                    if t == ValueType::Bool {
                        assert(el == 1);
                        vstd::arithmetic::power2::lemma2_to64();
                        match value {
                            Value::Bools(bs) => {
                                assert(bs@.map_values(|b: bool| if b { 1u128 } else { 0u128 }) =~= w);
                            },
                            _ => {},
                        }
                        assert(setter_words(ty, value) == Some(w));
                    } else {
                        match value {
                            Value::Ints(xs) => {
                                assert forall|i: int| 0 <= i < count implies fits(t, #[trigger] xs@[i]) by {
                                    lemma_fits_type(el, xs@[i]);
                                }
                                assert(xs@ =~= w);
                            },
                            _ => {},
                        }
                        assert(setter_words(ty, value) == Some(w));
                    }
                },
            }
            lemma_apply_all_write_back(exprs@, stmts@, w, data, start, el, n);
            assert(stmts@.take(n) =~= stmts@);
            assert(w.take(n) =~= w);
        },
        _ => {},
    }
}

} // verus!
