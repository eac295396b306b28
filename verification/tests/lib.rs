use bitfield::expand_bitfield;
use bitfield::instance::{Bitfield, Value};

const STRUCT1: &str = "BitfiedlTestStruct1,
    aligned_u8: 8,
    aligned_u16: 16,
    aligned_u32: 32,
    aligned_u64: 64,
    aligned_bool: 1,
    unaligned_u8: 8,
    unaligned_u16: 16,
    unaligned_u32: 32,
    unaligned_u64: 64,
    unaligned_bool: 1,
    unaligned_2 : 2,
    unaligned_3 : 3,
    unaligned_7 : 7,
    unaligned_9 : 9,
    unaligned_15 : 15,
    unaligned_17 : 17,
    unaligned_31 : 31,
    unaligned_33 : 33,
    unaligned_63 : 63,
    ";

const STRUCT2: &str = "BitfiedlTestStruct2,
    aligned_u8: [8, ..3],
    aligned_u16: [16, ..3],
    aligned_u32: [32, ..3],
    aligned_u64: [64, ..3],
    aligned_bool: [1, ..3],
    unaligned_u8: [8, ..3],
    unaligned_u16: [16, ..3],
    unaligned_u32: [32, ..3],
    unaligned_u64: [64, ..3],
    unaligned_bool: [1, ..3],
    unaligned_2 : [2, ..3],
    unaligned_3 : [3, ..3],
    unaligned_7 : [7, ..3],
    unaligned_9 : [9, ..3],
    unaligned_15 : [15, ..3],
    unaligned_17 : [17, ..3],
    unaligned_31 : [31, ..3],
    unaligned_33 : [33, ..3],
    unaligned_63 : [63, ..3],
    ";

fn new_struct(decl: &str, data: Vec<u8>) -> Bitfield {
    let r = expand_bitfield(decl.as_bytes());
    assert!(r.errors.is_empty());
    let expansion = r.expansion.unwrap();
    Bitfield::new(expansion, data).unwrap()
}

fn get(foo: &Bitfield, field: &str) -> Value {
    foo.get(format!("get_{}", field).as_bytes()).unwrap()
}

fn set(foo: &mut Bitfield, field: &str, value: Value) {
    foo.set(format!("set_{}", field).as_bytes(), value).unwrap()
}

fn num(x: u128) -> Value {
    Value::Int(x)
}

fn ints(xs: &[u128]) -> Value {
    Value::Ints(xs.to_vec())
}

fn bools(bs: &[bool]) -> Value {
    Value::Bools(bs.to_vec())
}

#[test]
fn get_set_aligned() {
    let data = vec![0u8; 53];
    let mut foo = new_struct(STRUCT1, data);

    assert!(get(&foo, "aligned_u8") == num(0));
    set(&mut foo, "aligned_u8", num(u8::MAX as u128));
    assert!(get(&foo, "aligned_u8") == num(u8::MAX as u128));

    assert!(get(&foo, "aligned_u16") == num(0));
    set(&mut foo, "aligned_u16", num(u16::MAX as u128));
    assert!(get(&foo, "aligned_u16") == num(u16::MAX as u128));

    assert!(get(&foo, "aligned_u32") == num(0));
    set(&mut foo, "aligned_u32", num(u32::MAX as u128));
    assert!(get(&foo, "aligned_u32") == num(u32::MAX as u128));

    assert!(get(&foo, "aligned_u64") == num(0));
    set(&mut foo, "aligned_u64", num(u64::MAX as u128));
    assert!(get(&foo, "aligned_u64") == num(u64::MAX as u128));

    assert!(get(&foo, "aligned_bool") == Value::Bool(false));
    set(&mut foo, "aligned_bool", Value::Bool(true));
    assert!(get(&foo, "aligned_bool") == Value::Bool(true));
}

#[test]
fn get_set_unaligned_whole_size() {
    let data = vec![0u8; 53];
    let mut foo = new_struct(STRUCT1, data);

    assert!(get(&foo, "unaligned_u8") == num(0));
    set(&mut foo, "unaligned_u8", num(u8::MAX as u128));
    assert!(get(&foo, "unaligned_u8") == num(u8::MAX as u128));

    assert!(get(&foo, "unaligned_u16") == num(0));
    set(&mut foo, "unaligned_u16", num(u16::MAX as u128));
    assert!(get(&foo, "unaligned_u16") == num(u16::MAX as u128));

    assert!(get(&foo, "unaligned_u32") == num(0));
    set(&mut foo, "unaligned_u32", num(u32::MAX as u128));
    assert!(get(&foo, "unaligned_u32") == num(u32::MAX as u128));

    assert!(get(&foo, "unaligned_u64") == num(0));
    set(&mut foo, "unaligned_u64", num(u64::MAX as u128));
    assert!(get(&foo, "unaligned_u64") == num(u64::MAX as u128));

    assert!(get(&foo, "unaligned_bool") == Value::Bool(false));
    set(&mut foo, "unaligned_bool", Value::Bool(true));
    assert!(get(&foo, "unaligned_bool") == Value::Bool(true));
}

#[test]
fn get_set_unaligned_nonwhole_size() {
    let data = vec![0u8; 53];
    let mut foo = new_struct(STRUCT1, data);

    assert!(get(&foo, "unaligned_2") == num(0));
    set(&mut foo, "unaligned_2", num(u8::MAX as u128));
    assert!(get(&foo, "unaligned_2") == num(0x3));

    assert!(get(&foo, "unaligned_3") == num(0));
    set(&mut foo, "unaligned_3", num(u8::MAX as u128));
    assert!(get(&foo, "unaligned_3") == num(0x7));

    assert!(get(&foo, "unaligned_7") == num(0));
    set(&mut foo, "unaligned_7", num(u8::MAX as u128));
    assert!(get(&foo, "unaligned_7") == num(0x7F));

    assert!(get(&foo, "unaligned_9") == num(0));
    set(&mut foo, "unaligned_9", num(u16::MAX as u128));
    assert!(get(&foo, "unaligned_9") == num(0x1FF));

    assert!(get(&foo, "unaligned_15") == num(0));
    set(&mut foo, "unaligned_15", num(u16::MAX as u128));
    assert!(get(&foo, "unaligned_15") == num(0x7FFF));

    assert!(get(&foo, "unaligned_17") == num(0));
    set(&mut foo, "unaligned_17", num(u32::MAX as u128));
    assert!(get(&foo, "unaligned_17") == num(0x1FFFF));

    assert!(get(&foo, "unaligned_31") == num(0));
    set(&mut foo, "unaligned_31", num(u32::MAX as u128));
    assert!(get(&foo, "unaligned_31") == num(0x7FFFFFFF));

    assert!(get(&foo, "unaligned_33") == num(0));
    set(&mut foo, "unaligned_33", num(u64::MAX as u128));
    assert!(get(&foo, "unaligned_33") == num(0x1FFFFFFFF));

    assert!(get(&foo, "unaligned_63") == num(0));
    set(&mut foo, "unaligned_63", num(u64::MAX as u128));
    assert!(get(&foo, "unaligned_63") == num(0x7FFFFFFFFFFFFFFF));
}

#[test]
fn get_set_aligned_array() {
    let data = vec![0u8; 159];
    let mut foo = new_struct(STRUCT2, data);

    assert!(get(&foo, "aligned_u8") == ints(&[0, 0, 0]));
    set(&mut foo, "aligned_u8", ints(&[42, 0, u8::MAX as u128]));
    assert!(get(&foo, "aligned_u8") == ints(&[42, 0, u8::MAX as u128]));

    assert!(get(&foo, "aligned_u16") == ints(&[0, 0, 0]));
    set(&mut foo, "aligned_u16", ints(&[42, 0, u16::MAX as u128]));
    assert!(get(&foo, "aligned_u16") == ints(&[42, 0, u16::MAX as u128]));

    assert!(get(&foo, "aligned_u32") == ints(&[0, 0, 0]));
    set(&mut foo, "aligned_u32", ints(&[42, 0, u32::MAX as u128]));
    assert!(get(&foo, "aligned_u32") == ints(&[42, 0, u32::MAX as u128]));

    assert!(get(&foo, "aligned_u64") == ints(&[0, 0, 0]));
    set(&mut foo, "aligned_u64", ints(&[42, 0, u64::MAX as u128]));
    assert!(get(&foo, "aligned_u64") == ints(&[42, 0, u64::MAX as u128]));

    assert!(get(&foo, "aligned_bool") == bools(&[false, false, false]));
    set(&mut foo, "aligned_bool", bools(&[false, false, true]));
    assert!(get(&foo, "aligned_bool") == bools(&[false, false, true]));
}

#[test]
fn get_set_unaligned_whole_size_array() {
    let data = vec![0u8; 159];
    let mut foo = new_struct(STRUCT2, data);

    assert!(get(&foo, "unaligned_u8") == ints(&[0, 0, 0]));
    set(&mut foo, "unaligned_u8", ints(&[42, 0, u8::MAX as u128]));
    assert!(get(&foo, "unaligned_u8") == ints(&[42, 0, u8::MAX as u128]));

    assert!(get(&foo, "unaligned_u16") == ints(&[0, 0, 0]));
    set(&mut foo, "unaligned_u16", ints(&[42, 0, u16::MAX as u128]));
    assert!(get(&foo, "unaligned_u16") == ints(&[42, 0, u16::MAX as u128]));

    assert!(get(&foo, "unaligned_u32") == ints(&[0, 0, 0]));
    set(&mut foo, "unaligned_u32", ints(&[42, 0, u32::MAX as u128]));
    assert!(get(&foo, "unaligned_u32") == ints(&[42, 0, u32::MAX as u128]));

    assert!(get(&foo, "unaligned_u64") == ints(&[0, 0, 0]));
    set(&mut foo, "unaligned_u64", ints(&[42, 0, u64::MAX as u128]));
    assert!(get(&foo, "unaligned_u64") == ints(&[42, 0, u64::MAX as u128]));

    assert!(get(&foo, "unaligned_bool") == bools(&[false, false, false]));
    set(&mut foo, "unaligned_bool", bools(&[false, false, true]));
    assert!(get(&foo, "unaligned_bool") == bools(&[false, false, true]));
}

#[test]
fn get_set_unaligned_nonwhole_size_array() {
    let data = vec![0u8; 159];
    let mut foo = new_struct(STRUCT2, data);

    assert!(get(&foo, "unaligned_2") == ints(&[0, 0, 0]));
    set(&mut foo, "unaligned_2", ints(&[42, 0, u8::MAX as u128]));
    assert!(get(&foo, "unaligned_2") == ints(&[0x2, 0, 0x3]));

    assert!(get(&foo, "unaligned_3") == ints(&[0, 0, 0]));
    set(&mut foo, "unaligned_3", ints(&[42, 0, u8::MAX as u128]));
    assert!(get(&foo, "unaligned_3") == ints(&[0x2, 0, 0x7]));

    assert!(get(&foo, "unaligned_7") == ints(&[0, 0, 0]));
    set(&mut foo, "unaligned_7", ints(&[42, 0, u8::MAX as u128]));
    assert!(get(&foo, "unaligned_7") == ints(&[42, 0, 0x7F]));

    assert!(get(&foo, "unaligned_9") == ints(&[0, 0, 0]));
    set(&mut foo, "unaligned_9", ints(&[42, 0, u16::MAX as u128]));
    assert!(get(&foo, "unaligned_9") == ints(&[42, 0, 0x1FF]));

    assert!(get(&foo, "unaligned_15") == ints(&[0, 0, 0]));
    set(&mut foo, "unaligned_15", ints(&[42, 0, u16::MAX as u128]));
    assert!(get(&foo, "unaligned_15") == ints(&[42, 0, 0x7FFF]));

    assert!(get(&foo, "unaligned_17") == ints(&[0, 0, 0]));
    set(&mut foo, "unaligned_17", ints(&[42, 0, u32::MAX as u128]));
    assert!(get(&foo, "unaligned_17") == ints(&[42, 0, 0x1FFFF]));

    assert!(get(&foo, "unaligned_31") == ints(&[0, 0, 0]));
    set(&mut foo, "unaligned_31", ints(&[42, 0, u32::MAX as u128]));
    assert!(get(&foo, "unaligned_31") == ints(&[42, 0, 0x7FFFFFFF]));

    assert!(get(&foo, "unaligned_33") == ints(&[0, 0, 0]));
    set(&mut foo, "unaligned_33", ints(&[42, 0, u64::MAX as u128]));
    assert!(get(&foo, "unaligned_33") == ints(&[42, 0, 0x1FFFFFFFF]));

    assert!(get(&foo, "unaligned_63") == ints(&[0, 0, 0]));
    set(&mut foo, "unaligned_63", ints(&[42, 0, u64::MAX as u128]));
    assert!(get(&foo, "unaligned_63") == ints(&[42, 0, 0x7FFFFFFFFFFFFFFF]));
}

#[test]
fn bits_pos() {
    let data = vec![0u8];
    let mut foo = new_struct("BitfiedlTestStruct3,\n    byte: [1, ..8],\n    ", data);
    assert!(get(&foo, "byte") == bools(&[false; 8]));
    foo.set_data(vec![0xFF]).unwrap();
    assert!(get(&foo, "byte") == bools(&[true; 8]));
    foo.set_data(vec![0b11000011]).unwrap();
    assert!(get(&foo, "byte") == bools(&[true, true, false, false, false, false, true, true]));
    foo.set_data(vec![0b10101010]).unwrap();
    assert!(get(&foo, "byte") == bools(&[true, false, true, false, true, false, true, false]));
    set(&mut foo, "byte", bools(&[true; 8]));
    assert!(foo.data()[0] == 0xFF);
    set(&mut foo, "byte", bools(&[false; 8]));
    assert!(foo.data()[0] == 0x00);
    set(&mut foo, "byte", bools(&[true, true, false, false, false, false, true, true]));
    assert!(foo.data()[0] == 0b11000011);
    set(&mut foo, "byte", bools(&[true, false, true, false, true, false, true, false]));
    assert!(foo.data()[0] == 0b10101010);
}

#[test]
fn byte_order_16() {
    let data = vec![0u8; 2];
    let mut foo = new_struct("BitfiedlTestStruct4,\n    value: 16,\n    ", data);
    assert!(get(&foo, "value") == num(0x0000));
    foo.set_data(vec![0xAB, 0xCD]).unwrap();
    assert!(get(&foo, "value") == num(0xABCD));
    foo.set_data(vec![0xCD, 0xAB]).unwrap();
    assert!(get(&foo, "value") == num(0xCDAB));
    set(&mut foo, "value", num(0x1234));
    assert!(foo.data() == [0x12, 0x34]);
    set(&mut foo, "value", num(0x3412));
    assert!(foo.data() == [0x34, 0x12]);
}

#[test]
fn byte_order_32() {
    let data = vec![0u8; 4];
    let mut foo = new_struct("BitfiedlTestStruct5,\n    value: 32,\n    ", data);
    assert!(get(&foo, "value") == num(0x00000000));
    foo.set_data(vec![0x12, 0x34, 0x56, 0x78]).unwrap();
    assert!(get(&foo, "value") == num(0x12345678));
    set(&mut foo, "value", num(0xFEDCBA98));
    assert!(foo.data() == [0xFE, 0xDC, 0xBA, 0x98]);
}

#[test]
fn byte_order_64() {
    let data = vec![0u8; 8];
    let mut foo = new_struct("BitfiedlTestStruct6,\n    value: 64,\n    ", data);
    assert!(get(&foo, "value") == num(0x0000000000000000));
    foo.set_data(vec![0x12, 0x34, 0x56, 0x78, 0x9A, 0xBC, 0xDE, 0xF0]).unwrap();
    assert!(get(&foo, "value") == num(0x123456789ABCDEF0));
    set(&mut foo, "value", num(0xFEDCBA9876543210));
    assert!(foo.data() == [0xFE, 0xDC, 0xBA, 0x98, 0x76, 0x54, 0x32, 0x10]);
}

#[test]
fn other_literal_form_for_fields_size() {
    let data = vec![0u8; 15];
    let mut foo = new_struct(
        "BitfiedlTestStruct7,\n    field1: 0x10,\n    field2: 0o10,\n    field3: 0b10,\n    field4: 6_0,\n    field5: [0xA, ..0b11],\n    ",
        data,
    );

    assert!(get(&foo, "field1") == num(0x0));
    set(&mut foo, "field1", num(u16::MAX as u128));
    assert!(get(&foo, "field1") == num(u16::MAX as u128));

    assert!(get(&foo, "field2") == num(0x0));
    set(&mut foo, "field2", num(u8::MAX as u128));
    assert!(get(&foo, "field2") == num(u8::MAX as u128));

    assert!(get(&foo, "field3") == num(0x0));
    set(&mut foo, "field3", num(u8::MAX as u128));
    assert!(get(&foo, "field3") == num(0x3));

    assert!(get(&foo, "field4") == num(0x0));
    set(&mut foo, "field4", num(u64::MAX as u128));
    assert!(get(&foo, "field4") == num(0xFFFFFFFFFFFFFFF));

    assert!(get(&foo, "field5") == ints(&[0, 0, 0]));
    set(&mut foo, "field5", ints(&[42, 0, u16::MAX as u128]));
    assert!(get(&foo, "field5") == ints(&[42, 0, 0x3FF]));
}
