//! From a bitfield declaration to the struct and methods it stands for:
//! the fields are laid out one after the other from bit 0 on, and the
//! struct holds as many bytes as those bits need.
use vstd::prelude::*;
use crate::ast::{Attribute, Expansion, ImplBlock, Method, MethodKind, StructDecl};
use crate::field::{Field, bytes_for, getter_for, setter_for, vis_is};
use crate::misc::{all_items, bytes_eq, concat_bytes, copy_bytes, const_word, make_maybe_ident, make_maybe_pub, merge_impls};

verus! {

/// A parsed declaration: `attrs* pub? Name, field, field, ...`.
#[derive(Debug)]
pub struct BitfieldDecl {
    pub attrs: Vec<Attribute>,
    pub is_pub: bool,
    pub name: Vec<u8>,
    pub fields: Vec<Field>,
}

/// Why a declaration has no expansion.
#[derive(Clone, Copy, Debug, PartialEq, Eq, Structural)]
pub enum ExpandError {
    /// The fields hold more bits than a `u64` counts, or more bytes than a
    /// `usize` counts.
    TooLarge,
}

/// The bytes of `const_new`.
pub open spec fn const_new_word() -> Seq<u8> {
    seq![99u8, 111u8, 110u8, 115u8, 116u8, 95u8, 110u8, 101u8, 119u8]
}

/// The bytes of `pub_data`.
pub open spec fn pub_data_word() -> Seq<u8> {
    seq![112u8, 117u8, 98u8, 95u8, 100u8, 97u8, 116u8, 97u8]
}

/// The bytes of `new`.
pub open spec fn new_word() -> Seq<u8> {
    seq![110u8, 101u8, 119u8]
}

/// The bytes of `doc`.
pub open spec fn doc_word() -> Seq<u8> {
    seq![100u8, 111u8, 99u8]
}

/// The text of the doc attribute of `new`: ``#[doc = "Creates a new `Name`"]``.
pub open spec fn new_doc_text(name: Seq<u8>) -> Seq<u8> {
    seq![35u8, 91u8, 100u8, 111u8, 99u8, 32u8, 61u8, 32u8, 34u8, 67u8, 114u8, 101u8, 97u8, 116u8, 101u8, 115u8, 32u8, 97u8, 32u8, 110u8, 101u8, 119u8, 32u8, 96u8]
        + name + seq![96u8, 34u8, 93u8]
}

/// Some attribute of the list has the path `path`.
pub open spec fn has_attr(attrs: Seq<Attribute>, path: Seq<u8>) -> bool {
    exists|i: int| 0 <= i < attrs.len() && (#[trigger] attrs[i]).path@ == path
}

/// The attributes that the struct keeps: all but `#[const_new]` and
/// `#[pub_data]`, in their order.
pub open spec fn kept_attrs(attrs: Seq<Attribute>) -> Seq<Attribute>
    decreases attrs.len(),
{
    if attrs.len() == 0 {
        Seq::empty()
    } else {
        let a = attrs.last();
        if a.path@ == const_new_word() || a.path@ == pub_data_word() {
            kept_attrs(attrs.drop_last())
        } else {
            kept_attrs(attrs.drop_last()).push(a)
        }
    }
}

/// The number of bits of all the fields together.
pub open spec fn total_bits(fields: Seq<Field>) -> nat
    decreases fields.len(),
{
    if fields.len() == 0 {
        0
    } else {
        total_bits(fields.drop_last()) + fields.last().size.bits()
    }
}

/// The bit at which field `k` starts: just after the fields before it.
pub open spec fn field_start(fields: Seq<Field>, k: int) -> nat {
    total_bits(fields.take(k))
}

/// `m` is the constructor of the struct: `new`, taking the data bytes,
/// with the struct's visibility, `const` under `#[const_new]`, and a doc
/// attribute that names the struct.
pub open spec fn new_method_for(m: Method, name: Seq<u8>, is_pub: bool, const_new: bool, byte_length: nat) -> bool {
    &&& vis_is(m.vis, is_pub)
    &&& (m.constness is Some <==> const_new)
    &&& (m.constness matches Some(c) ==> c@ == const_word())
    &&& m.name@ == new_word()
    &&& m.attrs@.len() == 1
    &&& m.attrs@[0].path@ == doc_word()
    &&& m.attrs@[0].text@ == new_doc_text(name)
    &&& m.kind matches MethodKind::New { byte_length: b } && b == byte_length
}

/// The methods of the merged block, in their order: the setter of the last
/// field, `new`, then getter and setter of each field in turn, that of the
/// last field ending with its getter.
pub open spec fn methods_of(items: Seq<Method>, decl: BitfieldDecl, byte_length: nat) -> bool {
    let fields = decl.fields@;
    let n = fields.len();
    &&& items.len() == 2 * n + 1
    &&& setter_for(items[0], fields[n - 1], field_start(fields, n - 1) as int)
    &&& new_method_for(items[1], decl.name@, decl.is_pub, has_attr(decl.attrs@, const_new_word()), byte_length)
    &&& forall|k: int| 0 <= k < n ==> getter_for(#[trigger] items[2 + 2 * k], fields[k], field_start(fields, k) as int)
    &&& forall|k: int| 0 <= k < n - 1 ==> setter_for(#[trigger] items[3 + 2 * k], fields[k], field_start(fields, k) as int)
}


proof fn lemma_total_bits_prefix(fields: Seq<Field>, j: int)
    requires
        0 <= j <= fields.len(),
    ensures
        total_bits(fields.take(j)) <= total_bits(fields),
    decreases fields.len(),
{
    if j == fields.len() {
        assert(fields.take(j) =~= fields);
    } else {
        assert(fields.take(j) =~= fields.drop_last().take(j));
        lemma_total_bits_prefix(fields.drop_last(), j);
    }
}

proof fn lemma_total_bits_step(fields: Seq<Field>, j: int)
    requires
        0 <= j < fields.len(),
    ensures
        total_bits(fields.take(j + 1)) == total_bits(fields.take(j)) + fields[j].size.bits(),
{
    assert(fields.take(j + 1).drop_last() =~= fields.take(j));
}

proof fn lemma_total_bits_positive(fields: Seq<Field>)
    requires
        forall|k: int| 0 <= k < fields.len() ==> (#[trigger] fields[k]).size.wf(),
        fields.len() > 0,
    ensures
        total_bits(fields) >= 1,
    decreases fields.len(),
{
    let f = fields.last();
    assert(fields[fields.len() - 1] == f);
    match f.size {
        crate::field::FieldSize::Array { count, element_length } => {
            assert(count * element_length >= 1) by (nonlinear_arith)
                requires count >= 1, element_length >= 1;
        },
        crate::field::FieldSize::Scalar { length } => {},
    }
}

proof fn lemma_bytes_for_monotone(a: int, b: int)
    requires
        0 <= a <= b,
    ensures
        bytes_for(a) <= bytes_for(b),
{
}

/// The methods of blocks that hold one method each are those methods, in
/// the order of the blocks.
proof fn lemma_all_items_single(blocks: Seq<ImplBlock>)
    requires
        forall|j: int| 0 <= j < blocks.len() ==> (#[trigger] blocks[j]).items@.len() == 1,
    ensures
        all_items(blocks).len() == blocks.len(),
        forall|j: int| 0 <= j < blocks.len() ==> all_items(blocks)[j] == (#[trigger] blocks[j]).items@[0],
    decreases blocks.len(),
{
    if blocks.len() > 0 {
        let rest = blocks.drop_last();
        assert forall|j: int| 0 <= j < rest.len() implies (#[trigger] rest[j]).items@.len() == 1 by {
            assert(rest[j] == blocks[j]);
        }
        lemma_all_items_single(rest);
        assert(blocks.last() == blocks[blocks.len() - 1]);
        assert forall|j: int| 0 <= j < blocks.len() implies all_items(blocks)[j] == (#[trigger] blocks[j]).items@[0] by {
            if j < rest.len() {
                assert(rest[j] == blocks[j]);
            }
        }
    }
}

/// The bits of one field, or `None` when they are more than a `u64` counts.
fn field_bits(f: &Field) -> (r: Option<u64>)
    ensures
        r matches Some(b) ==> b == f.size.bits(),
        r is None ==> f.size.bits() > u64::MAX,
{
    match f.size {
        crate::field::FieldSize::Array { count, element_length } => (count as u64).checked_mul(element_length as u64),
        crate::field::FieldSize::Scalar { length } => Some(length as u64),
    }
}

/// The constructor `new` of the struct `name`.
fn new_method(name: &[u8], is_pub: bool, const_new: bool, byte_length: usize) -> (r: Method)
    ensures
        new_method_for(r, name@, is_pub, const_new, byte_length as nat),
{
    let open: Vec<u8> = vec![35u8, 91u8, 100u8, 111u8, 99u8, 32u8, 61u8, 32u8, 34u8, 67u8, 114u8, 101u8, 97u8, 116u8, 101u8, 115u8, 32u8, 97u8, 32u8, 110u8, 101u8, 119u8, 32u8, 96u8];
    let close: Vec<u8> = vec![96u8, 34u8, 93u8];
    let doc_path: Vec<u8> = vec![100u8, 111u8, 99u8];
    let new_name: Vec<u8> = vec![110u8, 101u8, 119u8];
    let const_kw: Vec<u8> = vec![99u8, 111u8, 110u8, 115u8, 116u8];
    let with_name = concat_bytes(open.as_slice(), name);
    let new_doc = concat_bytes(with_name.as_slice(), close.as_slice());
    proof {
        assert(new_doc@ =~= new_doc_text(name@));
        assert(doc_path@ =~= doc_word());
        assert(new_name@ =~= new_word());
        assert(const_kw@ =~= const_word());
    }
    let mut attrs: Vec<Attribute> = Vec::new();
    attrs.push(Attribute { path: doc_path, text: new_doc });
    Method {
        vis: make_maybe_pub(is_pub),
        constness: make_maybe_ident(const_new, const_kw.as_slice()),
        name: new_name,
        attrs,
        kind: MethodKind::New { byte_length },
    }
}


/// The fields hold more bits than the expansion can count: the bits, plus
/// the 7 that round them up to bytes, pass `u64::MAX`, or the bytes pass
/// `usize::MAX`.
pub open spec fn too_large(fields: Seq<Field>) -> bool {
    total_bits(fields) + 7 > u64::MAX || bytes_for(total_bits(fields) as int) > usize::MAX
}

/// `x` is what `decl` expands to: a struct of `bytes_for(total_bits)` data
/// bytes with the declaration's name and visibility, `pub` data under
/// `#[pub_data]`, the attributes but `#[const_new]` and `#[pub_data]`; and,
/// when there are fields, one block of methods as [`methods_of`] lists them.
pub open spec fn expansion_of(x: Expansion, decl: BitfieldDecl) -> bool {
    let total = total_bits(decl.fields@);
    &&& x.decl.byte_length == bytes_for(total as int)
    &&& x.decl.name@ == decl.name@
    &&& vis_is(x.decl.vis, decl.is_pub)
    &&& vis_is(x.decl.data_vis, has_attr(decl.attrs@, pub_data_word()))
    &&& x.decl.attrs@ == kept_attrs(decl.attrs@)
    &&& (x.methods is Some <==> decl.fields@.len() > 0)
    &&& (x.methods matches Some(b) ==> b.self_ty@ == decl.name@ && methods_of(
        b.items@,
        decl,
        bytes_for(total as int) as nat,
    ))
}

/// Splits `#[const_new]` and `#[pub_data]` off the declaration's
/// attributes: the ones kept, and whether each of the two was there.
fn split_attrs(attrs: Vec<Attribute>) -> (r: (Vec<Attribute>, bool, bool))
    ensures
        r.0@ == kept_attrs(attrs@),
        r.1 == has_attr(attrs@, const_new_word()),
        r.2 == has_attr(attrs@, pub_data_word()),
{
    let ghost all = attrs@;
    let const_new_path: Vec<u8> = vec![99u8, 111u8, 110u8, 115u8, 116u8, 95u8, 110u8, 101u8, 119u8];
    let pub_data_path: Vec<u8> = vec![112u8, 117u8, 98u8, 95u8, 100u8, 97u8, 116u8, 97u8];
    assert(const_new_path@ =~= const_new_word());
    assert(pub_data_path@ =~= pub_data_word());
    let mut attrs = attrs;
    let mut kept: Vec<Attribute> = Vec::new();
    let mut const_new = false;
    let mut pub_data = false;
    let ghost mut k: int = 0;
    assert(all.take(0) =~= Seq::<Attribute>::empty());
    assert(all.skip(0) =~= all);
    while attrs.len() > 0
        invariant
            const_new_path@ == const_new_word(),
            pub_data_path@ == pub_data_word(),
            0 <= k <= all.len(),
            attrs@ == all.skip(k),
            kept@ == kept_attrs(all.take(k)),
            const_new == has_attr(all.take(k), const_new_word()),
            pub_data == has_attr(all.take(k), pub_data_word()),
        decreases attrs@.len(),
    {
        let a = attrs.remove(0);
        proof {
            let pre = all.take(k);
            let post = all.take(k + 1);
            assert(post.drop_last() =~= pre);
            assert(post.last() == a);
            assert(post[k] == a);
            assert(forall|i: int| 0 <= i < k ==> post[i] == pre[i]);
            assert(attrs@ =~= all.skip(k + 1));
        }
        if bytes_eq(a.path.as_slice(), const_new_path.as_slice()) {
            const_new = true;
        } else if bytes_eq(a.path.as_slice(), pub_data_path.as_slice()) {
            pub_data = true;
        } else {
            kept.push(a);
        }
        proof {
            k = k + 1;
        }
    }
    assert(all.take(k) =~= all);
    (kept, const_new, pub_data)
}

/// The struct and methods that a declaration stands for.
pub fn expand(decl: BitfieldDecl) -> (r: Result<Expansion, ExpandError>)
    requires
        forall|k: int| 0 <= k < decl.fields@.len() ==> (#[trigger] decl.fields@[k]).size.wf(),
    ensures
        r is Err <==> too_large(decl.fields@),
        r matches Ok(x) ==> expansion_of(x, decl),
{
    let ghost d = decl;
    let BitfieldDecl { attrs, is_pub, name, fields } = decl;
    let (kept, const_new, pub_data) = split_attrs(attrs);
    let ghost fs = fields@;
    assert(fs == d.fields@);
    assert(name@ == d.name@);

    let mut bit_length: u64 = 0;
    let mut i: usize = 0;
    assert(fs.take(0) =~= Seq::<Field>::empty());
    while i < fields.len()
        invariant
            fs == fields@,
            fs == decl.fields@,
            0 <= i <= fs.len(),
            bit_length == total_bits(fs.take(i as int)),
        decreases fs.len() - i,
    {
        proof {
            lemma_total_bits_step(fs, i as int);
        }
        match field_bits(&fields[i]) {
            Some(b) => match bit_length.checked_add(b) {
                Some(sum) => {
                    bit_length = sum;
                },
                None => {
                    proof {
                        lemma_total_bits_prefix(fs, i + 1);
                    }
                    return Err(ExpandError::TooLarge);
                },
            },
            None => {
                proof {
                    lemma_total_bits_prefix(fs, i + 1);
                }
                return Err(ExpandError::TooLarge);
            },
        }
        i += 1;
    }
    assert(fs.take(fs.len() as int) =~= fs);
    let rounded = match bit_length.checked_add(7) {
        Some(x) => x,
        None => {
            return Err(ExpandError::TooLarge);
        },
    };
    let byte_count = rounded / 8;
    if byte_count > usize::MAX as u64 {
        return Err(ExpandError::TooLarge);
    }
    let byte_length = byte_count as usize;
    proof {
        if fs.len() > 0 {
            lemma_total_bits_positive(fs);
        }
    }

    let mut methods: Vec<ImplBlock> = Vec::new();
    let has_new = byte_length > 0;
    if has_new {
        let m = new_method(name.as_slice(), is_pub, const_new, byte_length);
        let mut items: Vec<Method> = Vec::new();
        items.push(m);
        methods.push(ImplBlock { self_ty: copy_bytes(name.as_slice()), items });
    }
    assert(has_new <==> fs.len() > 0);

    let mut start: u64 = 0;
    let mut i: usize = 0;
    while i < fields.len()
        invariant
            fs == fields@,
            forall|k: int| 0 <= k < fs.len() ==> (#[trigger] fs[k]).size.wf(),
            bit_length == total_bits(fs),
            bit_length + 7 <= u64::MAX,
            bytes_for(bit_length as int) <= usize::MAX,
            byte_length == bytes_for(bit_length as int),
            has_new <==> fs.len() > 0,
            0 <= i <= fs.len(),
            start == total_bits(fs.take(i as int)),
            methods@.len() == if has_new { 1 + 2 * i } else { 0 },
            forall|j: int| 0 <= j < methods@.len() ==> (#[trigger] methods@[j]).items@.len() == 1,
            forall|j: int| 0 <= j < methods@.len() ==> (#[trigger] methods@[j]).self_ty@ == name@,
            has_new ==> new_method_for(methods@[0].items@[0], name@, is_pub, const_new, byte_length as nat),
            forall|k: int| 0 <= k < i ==> getter_for(#[trigger] methods@[1 + 2 * k].items@[0], fs[k], field_start(fs, k) as int),
            forall|k: int| 0 <= k < i ==> setter_for(#[trigger] methods@[2 + 2 * k].items@[0], fs[k], field_start(fs, k) as int),
        decreases fs.len() - i,
    {
        proof {
            lemma_total_bits_step(fs, i as int);
            lemma_total_bits_prefix(fs, i + 1);
            lemma_bytes_for_monotone(start + fs[i as int].size.bits(), bit_length as int);
        }
        let f = &fields[i];
        let mut field_methods = f.to_methods(name.as_slice(), start);
        let ghost before = methods@;
        let ghost added = field_methods@;
        methods.append(&mut field_methods);
        proof {
            assert(methods@ == before + added);
            assert(methods@[1 + 2 * i] == added[0]);
            assert(methods@[2 + 2 * i] == added[1]);
            assert forall|k: int| 0 <= k < i + 1 implies getter_for(#[trigger] methods@[1 + 2 * k].items@[0], fs[k], field_start(fs, k) as int) by {
                if k < i {
                    assert(methods@[1 + 2 * k] == before[1 + 2 * k]);
                }
            }
        }
        start = start + f.bit_len();
        i += 1;
    }
    assert(fs.take(fs.len() as int) =~= fs);
    let decl_out = StructDecl {
        vis: make_maybe_pub(is_pub),
        name,
        attrs: kept,
        data_vis: make_maybe_pub(pub_data),
        byte_length,
    };
    if methods.len() > 0 {
        let ghost blocks = methods@;
        proof {
            lemma_all_items_single(blocks.drop_last());
        }
        let merged = merge_impls(methods);
        proof {
            let items = merged.items@;
            let n = fs.len() as int;
            let rest = blocks.drop_last();
            assert(items == blocks.last().items@ + all_items(rest));
            assert(items[0] == blocks[2 * n].items@[0]);
            assert forall|j: int| 0 <= j < 2 * n implies items[1 + j] == #[trigger] blocks[j].items@[0] by {
                assert(rest[j] == blocks[j]);
            }
            assert(items[1] == blocks[0].items@[0]);
            assert forall|k: int| 0 <= k < n implies getter_for(#[trigger] items[2 + 2 * k], fs[k], field_start(fs, k) as int) by {
                assert(items[1 + (1 + 2 * k)] == blocks[1 + 2 * k].items@[0]);
            }
            assert forall|k: int| 0 <= k < n - 1 implies setter_for(#[trigger] items[3 + 2 * k], fs[k], field_start(fs, k) as int) by {
                assert(items[1 + (2 + 2 * k)] == blocks[2 + 2 * k].items@[0]);
            }
            assert(setter_for(items[0], fs[n - 1], field_start(fs, n - 1) as int)) by {
                assert(blocks[2 + 2 * (n - 1)] == blocks[2 * n]);
            }
            assert(methods_of(items, d, byte_length as nat));
        }
        Ok(Expansion { decl: decl_out, methods: Some(merged) })
    } else {
        Ok(Expansion { decl: decl_out, methods: None })
    }
}

} // verus!
