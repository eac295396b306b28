//! Small helpers on names, attributes and `impl` blocks.
use vstd::prelude::*;
use crate::ast::{Attribute, ImplBlock, Method, attrs_view};

verus! {

/// The bytes of `pub`.
pub open spec fn pub_word() -> Seq<u8> {
    seq![112u8, 117u8, 98u8]
}

/// The bytes of `const`.
pub open spec fn const_word() -> Seq<u8> {
    seq![99u8, 111u8, 110u8, 115u8, 116u8]
}

/// A fresh copy of a byte string.
pub fn copy_bytes(v: &[u8]) -> (r: Vec<u8>)
    ensures
        r@ == v@,
{
    let mut r: Vec<u8> = Vec::new();
    let mut i: usize = 0;
    while i < v.len()
        invariant
            0 <= i <= v@.len(),
            r@ == v@.take(i as int),
        decreases v@.len() - i,
    {
        r.push(v[i]);
        i += 1;
        assert(r@ =~= v@.take(i as int));
    }
    assert(v@.take(v@.len() as int) =~= v@);
    r
}

impl Attribute {
    /// A copy of the attribute.
    pub fn duplicate(&self) -> (r: Attribute)
        ensures
            r@ == self@,
    {
        Attribute { path: copy_bytes(self.path.as_slice()), text: copy_bytes(self.text.as_slice()) }
    }
}

/// A copy of a list of attributes.
pub fn copy_attrs(attrs: &[Attribute]) -> (r: Vec<Attribute>)
    ensures
        attrs_view(r@) == attrs_view(attrs@),
{
    let mut r: Vec<Attribute> = Vec::new();
    let mut i: usize = 0;
    while i < attrs.len()
        invariant
            0 <= i <= attrs@.len(),
            r@.len() == i,
            forall|k: int| 0 <= k < i ==> (#[trigger] r@[k])@ == attrs@[k]@,
        decreases attrs@.len() - i,
    {
        let a = attrs[i].duplicate();
        r.push(a);
        i += 1;
    }
    assert(attrs_view(r@) =~= attrs_view(attrs@));
    r
}

/// `Some(ident)` when `maybe` holds, `None` otherwise.
pub fn make_maybe_ident(maybe: bool, ident: &[u8]) -> (r: Option<Vec<u8>>)
    ensures
        r is Some <==> maybe,
        r matches Some(v) ==> v@ == ident@,
{
    if maybe {
        Some(copy_bytes(ident))
    } else {
        None
    }
}

/// `Some("pub")` when `is_pub` holds, `None` otherwise.
pub fn make_maybe_pub(is_pub: bool) -> (r: Option<Vec<u8>>)
    ensures
        r is Some <==> is_pub,
        r matches Some(v) ==> v@ == pub_word(),
{
    let word: Vec<u8> = vec![112u8, 117u8, 98u8];
    assert(word@ =~= pub_word());
    make_maybe_ident(is_pub, word.as_slice())
}

/// The block with its first method given the attributes `attrs` in place of
/// its own.
pub fn set_attrs_method(method: ImplBlock, attrs: &[Attribute]) -> (r: ImplBlock)
    requires
        method.items@.len() >= 1,
    ensures
        r.self_ty == method.self_ty,
        r.items@.len() == method.items@.len(),
        r.items@[0].vis == method.items@[0].vis,
        r.items@[0].constness == method.items@[0].constness,
        r.items@[0].name == method.items@[0].name,
        r.items@[0].kind == method.items@[0].kind,
        attrs_view(r.items@[0].attrs@) == attrs_view(attrs@),
        forall|k: int| 1 <= k < r.items@.len() ==> r.items@[k] == method.items@[k],
{
    let ImplBlock { self_ty, items } = method;
    let mut items = items;
    let first = items.remove(0);
    let Method { vis, constness, name, attrs: _, kind } = first;
    let updated = Method { vis, constness, name, attrs: copy_attrs(attrs), kind };
    items.insert(0, updated);
    ImplBlock { self_ty, items }
}

/// The methods of an `impl` block.
pub fn get_impl_items(item: ImplBlock) -> (r: Vec<Method>)
    ensures
        r@ == item.items@,
{
    item.items
}

/// The methods of a list of blocks, block after block.
pub open spec fn all_items(blocks: Seq<ImplBlock>) -> Seq<Method>
    decreases blocks.len(),
{
    if blocks.len() == 0 {
        Seq::empty()
    } else {
        all_items(blocks.drop_last()) + blocks.last().items@
    }
}

/// One block holding every method of the list: the last block, with the
/// methods of the others appended in their order.
pub fn merge_impls(methods: Vec<ImplBlock>) -> (r: ImplBlock)
    requires
        methods@.len() >= 1,
    ensures
        r.self_ty == methods@.last().self_ty,
        r.items@ == methods@.last().items@ + all_items(methods@.drop_last()),
{
    let ghost blocks = methods@;
    let mut methods = methods;
    let impl_block = methods.pop().unwrap();
    let ghost rest = methods@;
    assert(rest =~= blocks.drop_last());
    let mut methods_impl_items: Vec<Method> = Vec::new();
    let ghost mut k: int = 0;
    assert(rest.take(0) =~= Seq::<ImplBlock>::empty());
    assert(rest.skip(0) =~= rest);
    while methods.len() > 0
        invariant
            0 <= k <= rest.len(),
            methods@ == rest.skip(k),
            methods_impl_items@ == all_items(rest.take(k)),
        decreases methods@.len(),
    {
        let block = methods.remove(0);
        let mut block_items = get_impl_items(block);
        proof {
            assert(rest.take(k + 1).drop_last() =~= rest.take(k));
            assert(rest.take(k + 1).last() == rest[k]);
            assert(methods@ =~= rest.skip(k + 1));
            k = k + 1;
        }
        methods_impl_items.append(&mut block_items);
    }
    assert(rest.take(k) =~= rest);
    let ImplBlock { self_ty, items } = impl_block;
    let mut items = items;
    items.append(&mut methods_impl_items);
    ImplBlock { self_ty, items }
}


/// Whether two byte strings are equal.
pub fn bytes_eq(a: &[u8], b: &[u8]) -> (r: bool)
    ensures
        r == (a@ == b@),
{
    if a.len() != b.len() {
        return false;
    }
    let mut i: usize = 0;
    while i < a.len()
        invariant
            a@.len() == b@.len(),
            0 <= i <= a@.len(),
            forall|k: int| 0 <= k < i ==> a@[k] == b@[k],
        decreases a@.len() - i,
    {
        if a[i] != b[i] {
            return false;
        }
        i += 1;
    }
    assert(a@ =~= b@);
    true
}

/// The concatenation of two byte strings.
pub fn concat_bytes(a: &[u8], b: &[u8]) -> (r: Vec<u8>)
    ensures
        r@ == a@ + b@,
{
    let mut r = copy_bytes(a);
    let mut i: usize = 0;
    while i < b.len()
        invariant
            0 <= i <= b@.len(),
            r@ == a@ + b@.take(i as int),
        decreases b@.len() - i,
    {
        r.push(b[i]);
        i += 1;
        assert(r@ =~= a@ + b@.take(i as int));
    }
    assert(b@.take(b@.len() as int) =~= b@);
    r
}

/// A copy of bytes `lo .. hi` of `s`.
pub fn copy_range(s: &[u8], lo: usize, hi: usize) -> (r: Vec<u8>)
    requires
        lo <= hi <= s@.len(),
    ensures
        r@ == s@.subrange(lo as int, hi as int),
{
    let mut r: Vec<u8> = Vec::new();
    let mut k = lo;
    while k < hi
        invariant
            lo <= k <= hi <= s@.len(),
            r@ == s@.subrange(lo as int, k as int),
        decreases hi - k,
    {
        r.push(s[k]);
        k += 1;
        assert(r@ =~= s@.subrange(lo as int, k as int));
    }
    r
}

} // verus!
