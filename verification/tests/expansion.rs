use bitfield::ast::{Attribute, FieldType, ImplBlock, Method, MethodKind, ValueType};
use bitfield::expand::ExpandError;
use bitfield::ast::Expansion;
use bitfield::expand_bitfield;
use bitfield::field::{make_array_ty, size_to_ty, Field, FieldSize};
use bitfield::instance::{Bitfield, CallError, Value};
use bitfield::lexer::{tokenize, LexErrorKind, Token, TokenKind};
use bitfield::misc::{get_impl_items, make_maybe_ident, make_maybe_pub, merge_impls, set_attrs_method};
use bitfield::parser::{parse_decl, parse_field, parse_u128, ParseError, ParseErrorKind};
use bitfield::plan::{GetChunk, GetExpr, SetChunk, SetStmt};
use bitfield::BitfieldError;

/// The expansion of a declaration that has no error.
fn expand_ok(text: &[u8]) -> Expansion {
    let r = expand_bitfield(text);
    assert_eq!(r.errors, Vec::new());
    r.expansion.unwrap()
}

/// Whether a declaration still expands, and the errors reported for it.
fn report(text: &str) -> (bool, Vec<BitfieldError>) {
    let r = expand_bitfield(text.as_bytes());
    (r.expansion.is_some(), r.errors)
}

fn perr(kind: ParseErrorKind, pos: usize) -> BitfieldError {
    BitfieldError::Parse(ParseError { kind, pos })
}

fn names(text: &str) -> Vec<String> {
    let x = expand_ok(text.as_bytes());
    x.methods.unwrap().items.iter().map(|m| String::from_utf8(m.name.clone()).unwrap()).collect()
}

fn instance(text: &str, data: Vec<u8>) -> Bitfield {
    Bitfield::new(expand_ok(text.as_bytes()), data).unwrap()
}

fn attr(path: &str, text: &str) -> Attribute {
    Attribute { path: path.as_bytes().to_vec(), text: text.as_bytes().to_vec() }
}

#[test]
fn ipv4_header_fields() {
    let data = vec![
        0x45, 0x00, 0x00, 0x40, 0x69, 0x27, 0x40, 0x00, 0x40, 0x11, 0x4d, 0x0d, 0xc0, 0xa8, 0x01, 0x2a, 0xc0, 0xa8,
        0x01, 0xfe,
    ];
    let header = instance(
        "IpV4Header,
            version: 4, ihl: 4, dscp: 5, ecn: 3, total_length: 16, identification: 16,
            reserved: 1, df: 1, mf: 1, fragment_offset: 13, time_to_live: 8, protocol: 8,
            header_checksum: 16, source_address: [8, ..4], destination_address: [8, ..4],",
        data,
    );
    assert_eq!(header.get(b"get_version"), Some(Value::Int(4)));
    assert_eq!(header.get(b"get_total_length"), Some(Value::Int(64)));
    assert_eq!(header.get(b"get_identification"), Some(Value::Int(0x6927)));
    assert_eq!(header.get(b"get_df"), Some(Value::Bool(true)));
    assert_eq!(header.get(b"get_mf"), Some(Value::Bool(false)));
    assert_eq!(header.get(b"get_fragment_offset"), Some(Value::Int(0)));
    assert_eq!(header.get(b"get_protocol"), Some(Value::Int(0x11)));
    assert_eq!(header.get(b"get_source_address"), Some(Value::Ints(vec![192, 168, 1, 42])));
}

#[test]
fn bits_are_most_significant_first() {
    let mut foo = instance("S, a: 1, b: 7", vec![0]);
    foo.set(b"set_a", Value::Bool(true)).unwrap();
    assert_eq!(foo.data(), &[0x80]);
    foo.set(b"set_b", Value::Int(1)).unwrap();
    assert_eq!(foo.data(), &[0x81]);
}

#[test]
fn field_spanning_three_bytes() {
    let mut foo = instance("S, a: 7, b: 10, c: 7", vec![0, 0, 0]);
    foo.set(b"set_b", Value::Int(0x3FF)).unwrap();
    assert_eq!(foo.data(), &[0x01, 0xFF, 0x80]);
    assert_eq!(foo.get(b"get_a"), Some(Value::Int(0)));
    assert_eq!(foo.get(b"get_c"), Some(Value::Int(0)));
    assert_eq!(foo.get(b"get_b"), Some(Value::Int(0x3FF)));
}

#[test]
fn set_keeps_other_fields() {
    let mut foo = instance("S, a: 3, b: 9, c: [5; 2], d: 1", vec![0xFF, 0xFF, 0xFF]);
    foo.set(b"set_b", Value::Int(0)).unwrap();
    assert_eq!(foo.get(b"get_a"), Some(Value::Int(7)));
    assert_eq!(foo.get(b"get_c"), Some(Value::Ints(vec![31, 31])));
    assert_eq!(foo.get(b"get_d"), Some(Value::Bool(true)));
    assert_eq!(foo.get(b"get_b"), Some(Value::Int(0)));
    assert_eq!(foo.data(), &[0xE0, 0x0F, 0xFF]);
}

#[test]
fn setting_twice_is_setting_once() {
    let mut twice = instance("S, a: 5, b: 11", vec![0x12, 0x34]);
    twice.set(b"set_b", Value::Int(0x555)).unwrap();
    twice.set(b"set_b", Value::Int(0x2AA)).unwrap();
    let mut once = instance("S, a: 5, b: 11", vec![0x12, 0x34]);
    once.set(b"set_b", Value::Int(0x2AA)).unwrap();
    assert_eq!(twice.data(), once.data());
}

#[test]
fn writing_back_what_was_read_changes_nothing() {
    let mut foo = instance("S, a: 3, b: 9, c: 4", vec![0xA5, 0x3C]);
    let b = foo.get(b"get_b").unwrap();
    foo.set(b"set_b", b).unwrap();
    assert_eq!(foo.data(), &[0xA5, 0x3C]);
}

#[test]
fn writes_to_two_fields_commute() {
    let mut ab = instance("S, a: 6, b: 6, c: 4", vec![0, 0]);
    ab.set(b"set_a", Value::Int(0x2D)).unwrap();
    ab.set(b"set_b", Value::Int(0x13)).unwrap();
    let mut ba = instance("S, a: 6, b: 6, c: 4", vec![0, 0]);
    ba.set(b"set_b", Value::Int(0x13)).unwrap();
    ba.set(b"set_a", Value::Int(0x2D)).unwrap();
    assert_eq!(ab.data(), ba.data());
    assert_eq!(ab.data(), &[0xB5, 0x30]);
}

#[test]
fn struct_takes_just_the_bytes_it_needs() {
    let x = expand_ok(b"S, a: 3, b: 10");
    assert_eq!(x.decl.byte_length, 2);
    let x = expand_ok(b"S, a: [3; 5], b: 1");
    assert_eq!(x.decl.byte_length, 2);
    let x = expand_ok(b"S, a: 64, b: 64, c: 1");
    assert_eq!(x.decl.byte_length, 17);
}

#[test]
fn merged_block_lists_the_methods() {
    assert_eq!(names("S, a: 1, b: 2"), vec!["set_b", "new", "get_a", "set_a", "get_b"]);
    assert_eq!(names("S, only: 8,"), vec!["set_only", "new", "get_only"]);
}

#[test]
fn struct_attributes_and_options() {
    let x = expand_ok(b"/// Documented\n#[derive(Debug, Clone)] #[const_new] #[pub_data] pub S, a: 4");
    assert_eq!(x.decl.attrs, vec![attr("doc", "/// Documented"), attr("derive", "#[derive(Debug, Clone)]")]);
    assert_eq!(x.decl.vis, Some(b"pub".to_vec()));
    assert_eq!(x.decl.data_vis, Some(b"pub".to_vec()));
    assert_eq!(x.decl.name, b"S".to_vec());
    let items = x.methods.unwrap().items;
    let new = &items[1];
    assert_eq!(new.name, b"new".to_vec());
    assert_eq!(new.constness, Some(b"const".to_vec()));
    assert_eq!(new.vis, Some(b"pub".to_vec()));
    assert_eq!(new.attrs, vec![attr("doc", "#[doc = \"Creates a new `S`\"]")]);
    match new.kind {
        MethodKind::New { byte_length } => assert_eq!(byte_length, 1),
        _ => panic!("not a constructor"),
    }
}

#[test]
fn plain_struct_has_private_data_and_no_const() {
    let x = expand_ok(b"S, a: 4");
    assert!(x.decl.attrs.is_empty());
    assert_eq!(x.decl.vis, None);
    assert_eq!(x.decl.data_vis, None);
    let items = x.methods.unwrap().items;
    assert_eq!(items[1].constness, None);
    assert_eq!(items[1].vis, None);
}

#[test]
fn field_attributes_go_to_its_methods() {
    let x = expand_ok(b"S, #[allow(dead_code)] pub a: [3; 4], b: 1");
    let items = x.methods.unwrap().items;
    let getter = &items[2];
    assert_eq!(getter.name, b"get_a".to_vec());
    assert_eq!(getter.vis, Some(b"pub".to_vec()));
    assert_eq!(getter.attrs, vec![attr("allow", "#[allow(dead_code)]")]);
    match &getter.kind {
        MethodKind::Getter { ty, exprs } => {
            assert_eq!(*ty, FieldType::Array(ValueType::U8, 4));
            assert_eq!(exprs.len(), 4);
        },
        _ => panic!("not a getter"),
    }
    let setter_b = &items[0];
    assert_eq!(setter_b.name, b"set_b".to_vec());
    assert_eq!(setter_b.vis, None);
    assert_eq!(setter_b.attrs, Vec::new());
}

#[test]
fn no_fields_no_methods() {
    let x = expand_ok(b"pub Empty,");
    assert_eq!(x.decl.byte_length, 0);
    assert!(x.methods.is_none());
    assert_eq!(Bitfield::new(x, Vec::new()).unwrap_err(), CallError::NoConstructor);
}

#[test]
fn too_many_bits() {
    let r = expand_bitfield(b"S, a: [128; 18446744073709551615]");
    assert!(r.expansion.is_none());
    assert_eq!(r.errors, vec![BitfieldError::Expand(ExpandError::TooLarge)]);
}

#[test]
fn parse_errors() {
    assert_eq!(report("pub , a: 1"), (false, vec![perr(ParseErrorKind::ExpectedIdent, 4)]));
    assert_eq!(report("S a: 1"), (true, vec![perr(ParseErrorKind::ExpectedComma, 2)]));
    assert_eq!(report("S"), (true, vec![perr(ParseErrorKind::ExpectedComma, 1)]));
    assert_eq!(report("S, a 1"), (true, vec![perr(ParseErrorKind::ExpectedColon, 5), perr(ParseErrorKind::ExpectedLiteral, 6)]));
    assert_eq!(report("S, a: [8 3]"), (true, vec![perr(ParseErrorKind::ExpectedSemicolon, 9), perr(ParseErrorKind::ExpectedLiteral, 10)]));
    assert_eq!(report("S, a: [8; 3"), (false, vec![perr(ParseErrorKind::ExpectedCloseBracket, 11)]));
    assert_eq!(report("S, a: x"), (true, vec![perr(ParseErrorKind::ExpectedLiteral, 6), perr(ParseErrorKind::ExpectedComma, 6)]));
    assert_eq!(report("S, a: 1.5"), (true, vec![perr(ParseErrorKind::ExpectedIntLiteral, 6)]));
    assert_eq!(report("S, a: \"8\""), (true, vec![perr(ParseErrorKind::ExpectedIntLiteral, 6)]));
    assert_eq!(report("S, a: true"), (true, vec![perr(ParseErrorKind::ExpectedIntLiteral, 6)]));
    assert_eq!(report("S, a: -3"), (true, vec![perr(ParseErrorKind::ExpectedLiteral, 6), perr(ParseErrorKind::ExpectedComma, 6)]));
    assert_eq!(report("S, a: [0; 3]"), (true, vec![perr(ParseErrorKind::ElementLength, 7)]));
    assert_eq!(report("S, a: [129; 3]"), (true, vec![perr(ParseErrorKind::ElementLength, 7)]));
    assert_eq!(report("S, a: [8; 0]"), (true, vec![perr(ParseErrorKind::ElementCount, 10)]));
    assert_eq!(report("S, a: [8; 18446744073709551616]"), (true, vec![perr(ParseErrorKind::ElementCountTooLarge, 10)]));
    assert_eq!(report("S, a: 0"), (true, vec![perr(ParseErrorKind::FieldLength, 6)]));
    assert_eq!(report("S, a: 129"), (true, vec![perr(ParseErrorKind::FieldLength, 6)]));
    assert_eq!(report("S, a: 1 b: 2"), (true, vec![perr(ParseErrorKind::ExpectedComma, 8)]));
    assert_eq!(report("S, type: 1"), (true, vec![perr(ParseErrorKind::ExpectedIdent, 3)]));
    assert_eq!(report("S, _: 1"), (false, vec![perr(ParseErrorKind::ExpectedIdent, 3)]));
    assert_eq!(report("S, pub(crate) a: 1"), (false, vec![perr(ParseErrorKind::ExpectedIdent, 6)]));
    assert_eq!(report("S, a"), (false, vec![perr(ParseErrorKind::ExpectedColon, 4), perr(ParseErrorKind::ExpectedLiteral, 4)]));
    assert_eq!(report("S, a: 0, 5: 2"), (false, vec![perr(ParseErrorKind::FieldLength, 6), perr(ParseErrorKind::ExpectedIdent, 9)]));
    assert_eq!(report("# S, a: 1"), (false, vec![perr(ParseErrorKind::ExpectedAttributeBracket, 2)]));
    assert_eq!(report("#[] S, a: 1"), (false, vec![perr(ParseErrorKind::ExpectedAttributePath, 2)]));
    assert_eq!(report("#[foo(] S, a: 1"), (false, vec![perr(ParseErrorKind::UnclosedAttribute, 0)]));
    assert_eq!(report("#![foo] S, a: 1"), (true, vec![perr(ParseErrorKind::InnerAttribute, 2)]));
    assert_eq!(
        report("#![foo] 5, a: 1"),
        (false, vec![perr(ParseErrorKind::InnerAttribute, 2), perr(ParseErrorKind::ExpectedIdent, 8)])
    );
    assert_eq!(
        report("S, #![x] a: 0, b: 2"),
        (true, vec![perr(ParseErrorKind::InnerAttribute, 5), perr(ParseErrorKind::FieldLength, 12)])
    );
}

#[test]
fn recovered_values_are_expanded() {
    let r = expand_bitfield(b"S, a: 0, b: [0; 0], c: x");
    assert_eq!(r.errors.len(), 5);
    let x = r.expansion.unwrap();
    assert_eq!(x.decl.byte_length, 1);
    let mut foo = Bitfield::new(x, vec![0]).unwrap();
    foo.set(b"set_a", Value::Bool(true)).unwrap();
    foo.set(b"set_b", Value::Bools(vec![true])).unwrap();
    foo.set(b"set_c", Value::Bool(true)).unwrap();
    assert_eq!(foo.data(), &[0xE0]);
    let r = expand_bitfield(b"S a: 3, b: 2 c: 1");
    assert_eq!(r.errors, vec![perr(ParseErrorKind::ExpectedComma, 2), perr(ParseErrorKind::ExpectedComma, 13)]);
    assert_eq!(r.expansion.unwrap().decl.byte_length, 1);
    let r = expand_bitfield(b"S, type: 3");
    assert_eq!(r.errors, vec![perr(ParseErrorKind::ExpectedIdent, 3)]);
    let items = r.expansion.unwrap().methods.unwrap().items;
    assert!(items.iter().any(|m| m.name == b"get_type".to_vec()));
}

#[test]
fn lex_errors() {
    let lex = |text: &str, kind: LexErrorKind, pos: usize| {
        assert_eq!(report(text), (false, vec![perr(ParseErrorKind::Lex(kind), pos)]));
    };
    lex("/* S, a: 1", LexErrorKind::UnterminatedComment, 0);
    lex("#[doc = \"x] S, a: 1", LexErrorKind::UnterminatedLiteral, 8);
    lex("#[doc = r#\"x\"] S, a: 1", LexErrorKind::UnterminatedLiteral, 8);
    lex("//! inner\nS, a: 1", LexErrorKind::InnerDocComment, 0);
    lex("S, a: 1 \u{e9}", LexErrorKind::UnexpectedByte, 8);
}

#[test]
fn malformed_numbers_are_reported() {
    let bad = |kind: LexErrorKind| perr(ParseErrorKind::Lex(kind), 6);
    assert_eq!(report("S, a: 1x"), (true, vec![bad(LexErrorKind::BadLiteral)]));
    assert_eq!(report("S, a: 8u7"), (true, vec![bad(LexErrorKind::BadLiteral)]));
    assert_eq!(
        report("S, a: 0b102"),
        (true, vec![bad(LexErrorKind::BadLiteral), perr(ParseErrorKind::FieldLength, 6)])
    );
    assert_eq!(
        report("S, a: 340282366920938463463374607431768211456"),
        (true, vec![bad(LexErrorKind::LiteralTooLarge), perr(ParseErrorKind::FieldLength, 6)])
    );
    let toks = tokenize(b"12u9 0x 0o78").unwrap();
    assert_eq!(toks[0].kind, TokenKind::BadInt(12, LexErrorKind::BadLiteral));
    assert_eq!(toks[1].kind, TokenKind::BadInt(0, LexErrorKind::BadLiteral));
    assert_eq!(toks[2].kind, TokenKind::BadInt(0, LexErrorKind::BadLiteral));
    let mut foo = Bitfield::new(expand_bitfield(b"S, a: 3x, b: 5").expansion.unwrap(), vec![0]).unwrap();
    foo.set(b"set_a", Value::Int(7)).unwrap();
    assert_eq!(foo.data(), &[0xE0]);
}

#[test]
fn raw_byte_and_wide_literals() {
    let x = expand_ok("#[doc = r#\"a \"b\" c\"#] #[x(r\"a\\\", b\"q\\\"\", b'\\'', b'z', '\u{e9}', '\u{1f600}')] S, a: 1".as_bytes());
    assert_eq!(x.decl.attrs.len(), 2);
    assert_eq!(x.decl.attrs[0].text, b"#[doc = r#\"a \"b\" c\"#]".to_vec());
    assert_eq!(x.decl.attrs[1].path, b"x".to_vec());
    let toks = tokenize(b"br##\"x\"#\"## '\xc3\xa9'").unwrap();
    assert_eq!(toks, vec![Token { kind: TokenKind::Lit, lo: 0, hi: 11 }, Token { kind: TokenKind::Lit, lo: 12, hi: 16 }]);
}

#[test]
fn literals_and_comments() {
    let foo = instance("S, // a comment\n a: 8u8, /* block /* nested */ */ b: 0x_1_0, c: [1_0; 0b1]", vec![0; 5]);
    assert_eq!(foo.get(b"get_a"), Some(Value::Int(0)));
    assert_eq!(foo.get(b"get_b"), Some(Value::Int(0)));
    assert_eq!(foo.get(b"get_c"), Some(Value::Ints(vec![0])));
    assert_eq!(report("S, a: 1e5"), (true, vec![perr(ParseErrorKind::ExpectedIntLiteral, 6)]));
    let x = expand_ok(b"#[tolerance(1e5, 2f32, 'c', \"s\\\"\", x::y)] S, a: 1");
    assert_eq!(x.decl.attrs[0].path, b"tolerance".to_vec());
}

#[test]
fn tokens_of_a_field() {
    let toks = tokenize(b"/// d\npub x: [8, ..3]").unwrap();
    let kinds: Vec<TokenKind> = toks.iter().map(|t| t.kind).collect();
    assert_eq!(
        kinds,
        vec![
            TokenKind::Doc,
            TokenKind::Ident,
            TokenKind::Ident,
            TokenKind::Punct(b':'),
            TokenKind::Punct(b'['),
            TokenKind::Int(8),
            TokenKind::Punct(b','),
            TokenKind::DotDot,
            TokenKind::Int(3),
            TokenKind::Punct(b']'),
        ]
    );
    assert_eq!(toks[0], Token { kind: TokenKind::Doc, lo: 0, hi: 5 });
    assert_eq!(toks[2], Token { kind: TokenKind::Ident, lo: 10, hi: 11 });
}

#[test]
fn parse_field_and_literal() {
    let text = b"#[allow(unused)] pub bits: [7; 3], rest: 2";
    let toks = tokenize(text).unwrap();
    let mut errs = Vec::new();
    let (field, next, past_end) = parse_field(&toks, text, 0, &mut errs).unwrap();
    assert!(errs.is_empty());
    assert!(!past_end);
    assert_eq!(field.name, b"bits".to_vec());
    assert!(field.is_pub);
    assert_eq!(field.attrs, vec![attr("allow", "#[allow(unused)]")]);
    assert_eq!(field.size, FieldSize::Array { count: 3, element_length: 7 });
    assert_eq!(next, 15);
    assert_eq!(parse_u128(&toks, text, 11), (7, 12, None));
    assert_eq!(parse_u128(&toks, text, 4), (1, 4, Some(ParseError { kind: ParseErrorKind::ExpectedLiteral, pos: 8 })));
    let parsed = parse_decl(b"pub S, a: 2, b: [1; 8],");
    assert!(parsed.errors.is_empty());
    let decl = parsed.decl.unwrap();
    assert!(decl.is_pub);
    assert_eq!(decl.fields.len(), 2);
    assert_eq!(decl.fields[1].size, FieldSize::Array { count: 8, element_length: 1 });
}

#[test]
fn getter_plan_of_unaligned_bits() {
    let e = Field::gen_single_value_get_expr(3, 10);
    assert_eq!(
        e,
        GetExpr::Chunks {
            chunks: vec![
                GetChunk { index: 0, byte_shift: 0, mask: 0x1F, width: 5 },
                GetChunk { index: 1, byte_shift: 3, mask: 0x1F, width: 5 },
            ],
        }
    );
    assert_eq!(e.eval(&[0b0001_0110, 0b1011_0000]), 0b10110_10110);
    assert_eq!(Field::gen_single_value_get_expr(9, 1), GetExpr::Bit { index: 1, shift: 6 });
    assert_eq!(Field::gen_single_value_get_expr(9, 1).eval(&[0, 0x40]), 1);
}

#[test]
fn setter_plan_of_unaligned_bits() {
    let s = Field::gen_single_value_set_stmt(16, 3, 10);
    assert_eq!(
        s,
        SetStmt::Chunks {
            chunks: vec![
                SetChunk { index: 0, mask: 0x1F, value_shift: 5 },
                SetChunk { index: 1, mask: 0xF8, value_shift: -3 },
            ],
        }
    );
    let mut data = vec![0xE0, 0x07];
    s.apply(&mut data, 0b10110_10110);
    assert_eq!(data, vec![0b1111_0110, 0b1011_0111]);
    let b = Field::gen_single_value_set_stmt(1, 9, 1);
    assert_eq!(b, SetStmt::Bit { index: 1, mask: 0x40 });
    let mut data = vec![0, 0];
    b.apply(&mut data, 1);
    assert_eq!(data, vec![0, 0x40]);
    b.apply(&mut data, 2);
    assert_eq!(data, vec![0, 0]);
}

#[test]
fn value_types() {
    assert_eq!(size_to_ty(0), None);
    assert_eq!(size_to_ty(1), Some((ValueType::Bool, 1)));
    assert_eq!(size_to_ty(2), Some((ValueType::U8, 8)));
    assert_eq!(size_to_ty(8), Some((ValueType::U8, 8)));
    assert_eq!(size_to_ty(9), Some((ValueType::U16, 16)));
    assert_eq!(size_to_ty(17), Some((ValueType::U32, 32)));
    assert_eq!(size_to_ty(33), Some((ValueType::U64, 64)));
    assert_eq!(size_to_ty(65), Some((ValueType::U128, 128)));
    assert_eq!(size_to_ty(128), Some((ValueType::U128, 128)));
    assert_eq!(size_to_ty(129), None);
    assert_eq!(make_array_ty(ValueType::U16, 3), FieldType::Array(ValueType::U16, 3));
}

#[test]
fn field_bit_lengths() {
    let f = Field { name: b"a".to_vec(), is_pub: false, attrs: Vec::new(), size: FieldSize::Array { count: 3, element_length: 7 } };
    assert_eq!(f.bit_len(), 21);
    let g = Field { name: b"b".to_vec(), is_pub: true, attrs: Vec::new(), size: FieldSize::Scalar { length: 13 } };
    assert_eq!(g.bit_len(), 13);
    let blocks = g.to_methods(b"S", 5);
    assert_eq!(blocks.len(), 2);
    assert_eq!(blocks[0].self_ty, b"S".to_vec());
    assert_eq!(blocks[0].items[0].name, b"get_b".to_vec());
    assert_eq!(blocks[1].items[0].name, b"set_b".to_vec());
    assert_eq!(blocks[0].items[0].attrs, Vec::new());
}

fn method(name: &str) -> Method {
    Method {
        vis: None,
        constness: None,
        name: name.as_bytes().to_vec(),
        attrs: vec![attr("inline", "#[inline]")],
        kind: MethodKind::New { byte_length: 1 },
    }
}

#[test]
fn helpers_on_blocks() {
    assert_eq!(make_maybe_ident(true, b"const"), Some(b"const".to_vec()));
    assert_eq!(make_maybe_ident(false, b"const"), None);
    assert_eq!(make_maybe_pub(true), Some(b"pub".to_vec()));
    assert_eq!(make_maybe_pub(false), None);
    let block = ImplBlock { self_ty: b"S".to_vec(), items: vec![method("one"), method("two")] };
    let block = set_attrs_method(block, &[attr("doc", "/// x")]);
    assert_eq!(block.items[0].attrs, vec![attr("doc", "/// x")]);
    assert_eq!(block.items[1].attrs, vec![attr("inline", "#[inline]")]);
    let items = get_impl_items(block);
    assert_eq!(items.len(), 2);
    let blocks = vec![
        ImplBlock { self_ty: b"S".to_vec(), items: vec![method("a"), method("b")] },
        ImplBlock { self_ty: b"S".to_vec(), items: vec![method("c")] },
        ImplBlock { self_ty: b"S".to_vec(), items: vec![method("d")] },
    ];
    let merged = merge_impls(blocks);
    let order: Vec<Vec<u8>> = merged.items.iter().map(|m| m.name.clone()).collect();
    assert_eq!(order, vec![b"d".to_vec(), b"a".to_vec(), b"b".to_vec(), b"c".to_vec()]);
}

#[test]
fn call_errors() {
    let x = expand_ok(b"S, a: 4, b: [1; 2]");
    assert_eq!(Bitfield::new(x, vec![0, 0]).unwrap_err(), CallError::WrongLength);
    let mut foo = instance("S, a: 4, b: [1; 2]", vec![0]);
    assert_eq!(foo.get(b"get_c"), None);
    assert_eq!(foo.get(b"set_a"), None);
    assert_eq!(foo.set(b"set_c", Value::Int(1)), Err(CallError::NoSuchMethod));
    assert_eq!(foo.set(b"set_a", Value::Int(256)), Err(CallError::WrongType));
    assert_eq!(foo.set(b"set_a", Value::Bool(true)), Err(CallError::WrongType));
    assert_eq!(foo.set(b"set_b", Value::Bools(vec![true])), Err(CallError::WrongType));
    assert_eq!(foo.set(b"set_b", Value::Ints(vec![1, 1])), Err(CallError::WrongType));
    assert_eq!(foo.data(), &[0]);
    assert_eq!(foo.set(b"set_a", Value::Int(255)), Ok(()));
    assert_eq!(foo.get(b"get_a"), Some(Value::Int(15)));
    assert_eq!(foo.set_data(vec![0, 0]), Err(CallError::WrongLength));
}

#[test]
fn hand_built_plans_are_refused() {
    let mut x = expand_ok(b"S, a: 4");
    let block = x.methods.as_mut().unwrap();
    block.items[2].kind = MethodKind::Getter {
        ty: FieldType::Single(ValueType::U8),
        exprs: vec![GetExpr::Bit { index: 1, shift: 0 }],
    };
    assert_eq!(Bitfield::new(x, vec![0]).unwrap_err(), CallError::BadPlan);
}

#[test]
fn setters_commute_and_keep_padding() {
    let text = "S, a: 3, b: [2; 2], c: 5";
    let mut x1 = instance(text, vec![0x00, 0x0F]);
    let mut x2 = instance(text, vec![0x00, 0x0F]);
    x1.set(b"set_a", Value::Int(5)).unwrap();
    x1.set(b"set_b", Value::Ints(vec![1, 2])).unwrap();
    x2.set(b"set_b", Value::Ints(vec![1, 2])).unwrap();
    x2.set(b"set_a", Value::Int(5)).unwrap();
    assert_eq!(x1.data(), x2.data());
    x1.set(b"set_c", Value::Int(31)).unwrap();
    assert_eq!(x1.data(), &[0xAD, 0xFF]);
    x1.set(b"set_c", Value::Int(0)).unwrap();
    assert_eq!(x1.data()[1] & 0x0F, 0x0F);
}

#[test]
fn setter_ignores_high_bits() {
    let mut foo = instance("S, a: 2, b: 6", vec![0x15]);
    foo.set(b"set_a", Value::Int(0xFF)).unwrap();
    assert_eq!(foo.data(), &[0xD5]);
    assert_eq!(foo.get(b"get_a"), Some(Value::Int(3)));
    assert_eq!(foo.get(b"get_b"), Some(Value::Int(0x15)));
}

#[test]
fn plans_stay_in_their_bytes() {
    match Field::gen_single_value_set_stmt(16, 11, 10) {
        SetStmt::Chunks { chunks } => {
            assert_eq!(chunks.len(), 2);
            for c in chunks {
                assert!(c.index >= 1 && c.index <= 2);
                assert!(-7 <= c.value_shift && c.value_shift <= 9);
            }
        },
        SetStmt::Bit { .. } => panic!("a ten-bit field has chunks"),
    }
    match Field::gen_single_value_get_expr(11, 10) {
        GetExpr::Chunks { chunks } => {
            assert!(chunks.iter().all(|c| c.index >= 1 && c.index <= 2));
        },
        GetExpr::Bit { .. } => panic!("a ten-bit field has chunks"),
    }
}

#[test]
fn empty_array_field_methods() {
    let f = Field {
        name: b"none".to_vec(),
        is_pub: false,
        attrs: Vec::new(),
        size: FieldSize::Array { count: 0, element_length: 8 },
    };
    let blocks = f.to_methods(b"S", 5);
    assert_eq!(blocks.len(), 2);
    match &blocks[0].items[0].kind {
        MethodKind::Getter { ty, exprs } => {
            assert_eq!(*ty, FieldType::Array(ValueType::U8, 0));
            assert!(exprs.is_empty());
        },
        _ => panic!("the first block holds the getter"),
    }
    match &blocks[1].items[0].kind {
        MethodKind::Setter { ty, stmts } => {
            assert_eq!(*ty, FieldType::Array(ValueType::U8, 0));
            assert!(stmts.is_empty());
        },
        _ => panic!("the second block holds the setter"),
    }
}

#[test]
fn array_setter_round_trips() {
    let mut foo = instance("S, a: 3, b: [5; 3]", vec![0x5A, 0xC3, 0x81]);
    let before = foo.data().to_vec();
    let read = foo.get(b"get_b").unwrap();
    foo.set(b"set_b", read).unwrap();
    assert_eq!(foo.data(), &before[..]);
    foo.set(b"set_b", Value::Ints(vec![31, 40, 7])).unwrap();
    assert_eq!(foo.get(b"get_b"), Some(Value::Ints(vec![31, 8, 7])));
    assert_eq!(foo.get(b"get_a"), Some(Value::Int(2)));
}
