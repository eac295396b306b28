//! The grammar of a bitfield declaration, over its tokens:
//!
//! ```text
//! decl  := attr* "pub"? NAME "," (field ("," field)* ","?)?
//! field := attr* "pub"? NAME ":" size
//! size  := INT | "[" INT (";" | "," "..") INT "]"
//! attr  := DOC | "#" "!"? "[" PATH tokens "]" (brackets inside balanced)
//! ```
//!
//! Most errors are reported and passed: a number out of range or of the
//! wrong kind is replaced by 1, a missing `:`, `;` or `]` is reported and the
//! token in its place skipped, a missing comma after the struct's name is
//! reported, and a missing comma between fields ends the list. An attribute
//! that cannot be read, a token that cannot be a name where a name stands,
//! and a token expected past the end of the input stop the parse.
use vstd::prelude::*;
use crate::ast::{Attribute, attrs_view};
use crate::expand::{BitfieldDecl, doc_word};
use crate::field::{Field, FieldSize};
use crate::lexer::{LexErrorKind, Token, TokenKind, spec_tokens, tokenize};

verus! {

/// What is wrong with a declaration.
#[derive(Clone, Copy, Debug, PartialEq, Eq, Structural)]
pub enum ParseErrorKind {
    /// The text could not be split into tokens.
    Lex(LexErrorKind),
    /// A `#` (or `#!`) not followed by `[`.
    ExpectedAttributeBracket,
    /// An inner attribute, `#![...]`, where only outer ones may stand.
    InnerAttribute,
    /// An attribute without a path after `#[`.
    ExpectedAttributePath,
    /// An attribute whose brackets do not close, or close out of order.
    UnclosedAttribute,
    /// A name was expected: an identifier that is not a keyword.
    ExpectedIdent,
    ExpectedComma,
    ExpectedColon,
    /// `;` (or `, ..`) was expected between the two numbers of an array size.
    ExpectedSemicolon,
    ExpectedCloseBracket,
    /// A literal was expected.
    ExpectedLiteral,
    /// An unsigned integer literal was expected, and another literal stood there.
    ExpectedIntLiteral,
    /// Elements length must be > 0 and <= 128.
    ElementLength,
    /// Elements count must be > 0.
    ElementCount,
    /// Elements count above what a `usize` holds.
    ElementCountTooLarge,
    /// Field length must be > 0 and <= 128.
    FieldLength,
}

#[derive(Clone, Copy, Debug, PartialEq, Eq, Structural)]
pub struct ParseError {
    pub kind: ParseErrorKind,
    /// Byte offset of the token where the error was found (the length of
    /// the text when it was found at its end).
    pub pos: usize,
}

/// The tokens lie inside the text, in order, each of at least one byte.
pub open spec fn tokens_wf(toks: Seq<Token>, len: nat) -> bool {
    &&& forall|k: int| 0 <= k < toks.len() ==> (#[trigger] toks[k]).lo < toks[k].hi <= len
    &&& forall|k: int, m: int| 0 <= k < m < toks.len() ==> (#[trigger] toks[k]).hi <= (#[trigger] toks[m]).lo
}

/// Where an error at token `i` is reported.
pub open spec fn tok_pos(toks: Seq<Token>, text: Seq<u8>, i: int) -> usize {
    if 0 <= i < toks.len() {
        toks[i].lo
    } else {
        text.len() as usize
    }
}

pub open spec fn err_at(kind: ParseErrorKind, toks: Seq<Token>, text: Seq<u8>, i: int) -> ParseError {
    ParseError { kind, pos: tok_pos(toks, text, i) }
}

/// Token `i` is the punctuation `c`.
pub open spec fn is_punct(toks: Seq<Token>, i: int, c: u8) -> bool {
    0 <= i < toks.len() && toks[i].kind == TokenKind::Punct(c)
}

pub open spec fn is_ident(toks: Seq<Token>, i: int) -> bool {
    0 <= i < toks.len() && toks[i].kind == TokenKind::Ident
}

pub open spec fn tok_text(toks: Seq<Token>, text: Seq<u8>, i: int) -> Seq<u8> {
    text.subrange(toks[i].lo as int, toks[i].hi as int)
}

/// The text from the start of token `i` to the end of token `j`.
pub open spec fn span_text(toks: Seq<Token>, text: Seq<u8>, i: int, j: int) -> Seq<u8> {
    text.subrange(toks[i].lo as int, toks[j].hi as int)
}

/// Token `i` is the keyword `pub`.
pub open spec fn is_pub_kw(toks: Seq<Token>, text: Seq<u8>, i: int) -> bool {
    is_ident(toks, i) && tok_text(toks, text, i) == seq![112u8, 117u8, 98u8]
}

/// Token `i` can stand as a name: an identifier other than `_`.
pub open spec fn is_name(toks: Seq<Token>, text: Seq<u8>, i: int) -> bool {
    is_ident(toks, i) && tok_text(toks, text, i) != seq![95u8]
}

/// The closing bracket of an opening one.
pub open spec fn closer_of(c: u8) -> u8 {
    if c == 40 { 41 } else if c == 91 { 93 } else { 125 }
}

pub open spec fn is_opener(c: u8) -> bool {
    c == 40 || c == 91 || c == 123
}

pub open spec fn is_closer(c: u8) -> bool {
    c == 41 || c == 93 || c == 125
}

/// The index after the bracket that closes all of `stack` (the closers
/// expected, innermost last), scanning from token `i`. `None` when the
/// tokens end first or a closer does not match.
pub open spec fn group_end(toks: Seq<Token>, i: int, stack: Seq<u8>) -> Option<int>
    decreases toks.len() - i,
{
    if i < 0 || i >= toks.len() || stack.len() == 0 {
        None
    } else {
        match toks[i].kind {
            TokenKind::Punct(c) => if is_opener(c) {
                group_end(toks, i + 1, stack.push(closer_of(c)))
            } else if is_closer(c) {
                if c != stack.last() {
                    None
                } else if stack.len() == 1 {
                    Some(i + 1)
                } else {
                    group_end(toks, i + 1, stack.drop_last())
                }
            } else {
                group_end(toks, i + 1, stack)
            },
            _ => group_end(toks, i + 1, stack),
        }
    }
}

/// The index after a path whose first segment is the token before `i`:
/// further segments are `::` and an identifier each.
pub open spec fn path_end(toks: Seq<Token>, i: int) -> int
    decreases toks.len() - i,
{
    if 0 <= i && is_punct(toks, i, 58) && is_punct(toks, i + 1, 58) && is_ident(toks, i + 2) {
        path_end(toks, i + 3)
    } else {
        i
    }
}

/// The attribute at token `i` (a doc comment, `#[...]` or `#![...]`), as
/// its path and text, the index after it, and the errors found: an inner
/// attribute is reported and read all the same.
pub open spec fn attr_at(toks: Seq<Token>, text: Seq<u8>, i: int) -> Result<((Seq<u8>, Seq<u8>), int, Seq<ParseError>), ParseError> {
    if 0 <= i < toks.len() && toks[i].kind == TokenKind::Doc {
        Ok(((doc_word(), tok_text(toks, text, i)), i + 1, Seq::empty()))
    } else {
        let inner = is_punct(toks, i + 1, 33);
        let b = if inner { i + 2 } else { i + 1 };
        let errs = if inner { seq![err_at(ParseErrorKind::InnerAttribute, toks, text, b)] } else { Seq::empty() };
        if !is_punct(toks, b, 91) {
            Err(err_at(ParseErrorKind::ExpectedAttributeBracket, toks, text, b))
        } else if !is_ident(toks, b + 1) {
            Err(err_at(ParseErrorKind::ExpectedAttributePath, toks, text, b + 1))
        } else {
            let pe = path_end(toks, b + 2);
            match group_end(toks, pe, seq![93u8]) {
                Some(e) => Ok(((span_text(toks, text, b + 1, pe - 1), span_text(toks, text, i, e - 1)), e, errs)),
                None => Err(err_at(ParseErrorKind::UnclosedAttribute, toks, text, i)),
            }
        }
    }
}

/// An attribute starts at token `i`.
pub open spec fn starts_attr(toks: Seq<Token>, i: int) -> bool {
    (0 <= i < toks.len() && toks[i].kind == TokenKind::Doc) || is_punct(toks, i, 35)
}

/// The attributes from token `i` on, the index after them, and the errors
/// found.
pub open spec fn attrs_at(toks: Seq<Token>, text: Seq<u8>, i: int) -> Result<(Seq<(Seq<u8>, Seq<u8>)>, int, Seq<ParseError>), ParseError>
    decreases toks.len() - i,
{
    if !starts_attr(toks, i) {
        Ok((Seq::empty(), i, Seq::empty()))
    } else {
        match attr_at(toks, text, i) {
            Err(e) => Err(e),
            Ok((a, j, es)) => if i < j <= toks.len() {
                match attrs_at(toks, text, j) {
                    Ok((rest, k, es2)) => Ok((seq![a] + rest, k, es + es2)),
                    Err(e) => Err(e),
                }
            } else {
                Ok((Seq::empty(), i, Seq::empty()))
            },
        }
    }
}

/// The errors of an optional one.
pub open spec fn opt_errors(e: Option<ParseError>) -> Seq<ParseError> {
    match e {
        Some(e) => seq![e],
        None => Seq::empty(),
    }
}

/// One token on from `i`; at the end of the tokens the parser stays there.
pub open spec fn next_index(toks: Seq<Token>, i: int) -> int {
    if i < toks.len() {
        i + 1
    } else {
        i
    }
}

pub open spec fn true_word() -> Seq<u8> {
    seq![116u8, 114u8, 117u8, 101u8]
}

pub open spec fn false_word() -> Seq<u8> {
    seq![102u8, 97u8, 108u8, 115u8, 101u8]
}

/// Token `i` is a literal: a number, a string, a character, `true` or `false`.
pub open spec fn is_literal(toks: Seq<Token>, text: Seq<u8>, i: int) -> bool {
    &&& 0 <= i < toks.len()
    &&& {
        ||| toks[i].kind is Int
        ||| toks[i].kind is BadInt
        ||| toks[i].kind is Lit
        ||| toks[i].kind is Ident && (tok_text(toks, text, i) == true_word() || tok_text(toks, text, i) == false_word())
    }
}

/// The number at token `i`, the index after it, and the error found. An
/// integer literal with an error in it is reported and gives the value that
/// stands for it. A literal that is no integer is passed over; any other
/// token is left where it is; either way 1 stands in place of the number.
pub open spec fn number_at(toks: Seq<Token>, text: Seq<u8>, i: int) -> (u128, int, Option<ParseError>) {
    if 0 <= i < toks.len() && toks[i].kind is Int {
        (toks[i].kind->Int_0, i + 1, None)
    } else if 0 <= i < toks.len() && toks[i].kind is BadInt {
        (toks[i].kind->BadInt_0, i + 1, Some(ParseError { kind: ParseErrorKind::Lex(toks[i].kind->BadInt_1), pos: toks[i].lo }))
    } else if is_literal(toks, text, i) {
        (1, i + 1, Some(err_at(ParseErrorKind::ExpectedIntLiteral, toks, text, i)))
    } else {
        (1, i, Some(err_at(ParseErrorKind::ExpectedLiteral, toks, text, i)))
    }
}

/// The punctuation `c` expected at token `i`: the index after it, the error
/// found, and whether the parser was moved past the end of the tokens. A
/// wrong token is reported and passed over.
pub open spec fn expect_at(toks: Seq<Token>, text: Seq<u8>, i: int, c: u8, kind: ParseErrorKind) -> (int, Seq<ParseError>, bool) {
    if is_punct(toks, i, c) {
        (i + 1, Seq::empty(), false)
    } else {
        (next_index(toks, i), seq![err_at(kind, toks, text, i)], i >= toks.len())
    }
}

/// The `;` (or `, ..`) between the two numbers of an array size.
pub open spec fn separator_at(toks: Seq<Token>, text: Seq<u8>, i: int) -> (int, Seq<ParseError>, bool) {
    if is_punct(toks, i, 44) && 0 <= i + 1 < toks.len() && toks[i + 1].kind == TokenKind::DotDot {
        (i + 2, Seq::empty(), false)
    } else {
        expect_at(toks, text, i, 59, ParseErrorKind::ExpectedSemicolon)
    }
}

/// The size at token `i`, `N` or `[N; M]`: the size, the index after it, the
/// errors found, and whether the end of the tokens was passed. A length or
/// a count out of range is reported, and 1 stands in its place.
#[verifier::opaque]
pub open spec fn size_at(toks: Seq<Token>, text: Seq<u8>, i: int) -> (FieldSize, int, Seq<ParseError>, bool) {
    if is_punct(toks, i, 91) {
        let (el, j1, e1) = number_at(toks, text, i + 1);
        let el_ok = 1 <= el <= 128;
        let e_el = if el_ok { Seq::empty() } else { seq![err_at(ParseErrorKind::ElementLength, toks, text, i + 1)] };
        let (j2, e2, p2) = separator_at(toks, text, j1);
        let (cnt, j3, e3) = number_at(toks, text, j2);
        let e_cnt = if cnt == 0 {
            seq![err_at(ParseErrorKind::ElementCount, toks, text, j2)]
        } else if cnt > usize::MAX {
            seq![err_at(ParseErrorKind::ElementCountTooLarge, toks, text, j2)]
        } else {
            Seq::empty()
        };
        let (j4, e4, p4) = expect_at(toks, text, j3, 93, ParseErrorKind::ExpectedCloseBracket);
        (
            FieldSize::Array {
                count: if 1 <= cnt <= usize::MAX { cnt as usize } else { 1 },
                element_length: if el_ok { el as u8 } else { 1 },
            },
            j4,
            opt_errors(e1) + e_el + e2 + opt_errors(e3) + e_cnt + e4,
            p2 || p4,
        )
    } else {
        let (len, j, e) = number_at(toks, text, i);
        let ok = 1 <= len <= 128;
        (
            FieldSize::Scalar { length: if ok { len as u8 } else { 1 } },
            j,
            opt_errors(e) + if ok { Seq::empty() } else { seq![err_at(ParseErrorKind::FieldLength, toks, text, i)] },
            false,
        )
    }
}

/// A field as the grammar gives it.
pub struct FieldView {
    pub attrs: Seq<(Seq<u8>, Seq<u8>)>,
    pub is_pub: bool,
    pub name: Seq<u8>,
    pub size: FieldSize,
}

pub open spec fn field_view(f: Field) -> FieldView {
    FieldView { attrs: attrs_view(f.attrs@), is_pub: f.is_pub, name: f.name@, size: f.size }
}

/// A name that is a keyword is reported, and kept.
pub open spec fn name_errors(toks: Seq<Token>, text: Seq<u8>, n: int) -> Seq<ParseError> {
    if is_keyword(tok_text(toks, text, n)) {
        seq![err_at(ParseErrorKind::ExpectedIdent, toks, text, n)]
    } else {
        Seq::empty()
    }
}

/// The field at token `i`: the field, the index after it, the errors found,
/// and whether the end of the tokens was passed. An attribute that cannot
/// be read, or a token other than a name where the name stands, stops the
/// parse: the `Err` holds the errors found, that one last.
#[verifier::opaque]
pub open spec fn field_at(toks: Seq<Token>, text: Seq<u8>, i: int) -> Result<(FieldView, int, Seq<ParseError>, bool), Seq<ParseError>> {
    match attrs_at(toks, text, i) {
        Err(e) => Err(seq![e]),
        Ok((attrs, j, ea)) => {
            let is_pub = is_pub_kw(toks, text, j);
            let n = if is_pub { j + 1 } else { j };
            if !is_name(toks, text, n) {
                Err(ea.push(err_at(ParseErrorKind::ExpectedIdent, toks, text, n)))
            } else {
                let (c, e1, p1) = expect_at(toks, text, n + 1, 58, ParseErrorKind::ExpectedColon);
                let (size, k, e2, p2) = size_at(toks, text, c);
                Ok((FieldView { attrs, is_pub, name: tok_text(toks, text, n), size }, k, ea + name_errors(toks, text, n) + e1 + e2, p1 || p2))
            }
        },
    }
}

/// The fields from token `i` to the end, separated by commas, with an
/// optional comma after the last: the fields, the errors found, and whether
/// the parse stopped. A missing comma is reported and ends the list; the
/// tokens after it are left unread. `first` holds before the first field.
pub open spec fn fields_from(toks: Seq<Token>, text: Seq<u8>, i: int, first: bool) -> (Seq<FieldView>, Seq<ParseError>, bool)
    decreases toks.len() - i,
{
    if i < 0 || i >= toks.len() {
        (Seq::empty(), Seq::empty(), false)
    } else if !first && !is_punct(toks, i, 44) {
        (Seq::empty(), seq![err_at(ParseErrorKind::ExpectedComma, toks, text, i)], false)
    } else {
        let s = if first { i } else { i + 1 };
        if s >= toks.len() {
            (Seq::empty(), Seq::empty(), false)
        } else {
            match field_at(toks, text, s) {
                Err(es) => (Seq::empty(), es, true),
                Ok((f, j, errs, past)) => if past || !(i < j <= toks.len()) {
                    (seq![f], errs, past)
                } else {
                    let (rest, errs2, stop) = fields_from(toks, text, j, false);
                    (seq![f] + rest, errs + errs2, stop)
                },
            }
        }
    }
}

/// A declaration as the grammar gives it.
pub struct DeclView {
    pub attrs: Seq<(Seq<u8>, Seq<u8>)>,
    pub is_pub: bool,
    pub name: Seq<u8>,
    pub fields: Seq<FieldView>,
}

pub open spec fn decl_view(d: BitfieldDecl) -> DeclView {
    DeclView {
        attrs: attrs_view(d.attrs@),
        is_pub: d.is_pub,
        name: d.name@,
        fields: d.fields@.map_values(|f: Field| field_view(f)),
    }
}

/// What reading a declaration gives: the declaration, `None` where the
/// parse stopped, and every error found, in order.
pub struct ParseOutcome {
    pub decl: Option<DeclView>,
    pub errors: Seq<ParseError>,
}

/// The declaration that the tokens spell. A missing comma after the name is
/// reported and the fields are read all the same.
pub open spec fn decl_of(toks: Seq<Token>, text: Seq<u8>) -> ParseOutcome {
    match attrs_at(toks, text, 0) {
        Err(e) => ParseOutcome { decl: None, errors: seq![e] },
        Ok((attrs, i, ea)) => {
            let is_pub = is_pub_kw(toks, text, i);
            let n = if is_pub { i + 1 } else { i };
            if !is_name(toks, text, n) {
                ParseOutcome { decl: None, errors: ea.push(err_at(ParseErrorKind::ExpectedIdent, toks, text, n)) }
            } else {
                let (s, e1) = if is_punct(toks, n + 1, 44) {
                    (n + 2, Seq::<ParseError>::empty())
                } else {
                    (n + 1, seq![err_at(ParseErrorKind::ExpectedComma, toks, text, n + 1)])
                };
                let (fields, errs, stop) = fields_from(toks, text, s, true);
                ParseOutcome {
                    decl: if stop { None } else { Some(DeclView { attrs, is_pub, name: tok_text(toks, text, n), fields }) },
                    errors: ea + name_errors(toks, text, n) + e1 + errs,
                }
            }
        },
    }
}

/// The declaration that the text spells: its tokens, then the grammar.
pub open spec fn parse_spec(text: Seq<u8>) -> ParseOutcome {
    match spec_tokens(text, 0) {
        Err(e) => ParseOutcome { decl: None, errors: seq![ParseError { kind: ParseErrorKind::Lex(e.kind), pos: e.pos }] },
        Ok(toks) => decl_of(toks, text),
    }
}

/// Every field the grammar reads has a well-formed size: lengths and counts
/// out of range were replaced by 1.
proof fn lemma_fields_wf(toks: Seq<Token>, text: Seq<u8>, i: int, first: bool)
    ensures
        forall|k: int| 0 <= k < fields_from(toks, text, i, first).0.len()
            ==> (#[trigger] fields_from(toks, text, i, first).0[k]).size.wf(),
    decreases toks.len() - i,
{
    reveal(field_at);
    reveal(size_at);
    if 0 <= i < toks.len() && (first || is_punct(toks, i, 44)) {
        let s = if first { i } else { i + 1 };
        if s < toks.len() {
            match field_at(toks, text, s) {
                Ok((f, j, errs, past)) => if !past && i < j <= toks.len() {
                    lemma_fields_wf(toks, text, j, false);
                },
                Err(_) => {},
            }
        }
    }
}

/// Every declaration read from a text, errors and all, has fields of
/// well-formed sizes: values of 1 to 128 bits, and at least one element in
/// an array.
pub proof fn law_read_sizes_well_formed(text: Seq<u8>)
    ensures
        parse_spec(text).decl matches Some(v) ==> forall|k: int| 0 <= k < v.fields.len() ==> (#[trigger] v.fields[k]).size.wf(),
{
    match spec_tokens(text, 0) {
        Ok(toks) => {
            match attrs_at(toks, text, 0) {
                Ok((attrs, i, ea)) => {
                    let n = if is_pub_kw(toks, text, i) { i + 1 } else { i };
                    let start = if is_punct(toks, n + 1, 44) { n + 2 } else { n + 1 };
                    lemma_fields_wf(toks, text, start, true);
                },
                Err(_) => {},
            }
        },
        Err(_) => {},
    }
}

/// Words that cannot name a struct or a field: the keywords, the words
/// reserved for later use, and `_`.
pub open spec fn is_keyword(t: Seq<u8>) -> bool {
    ||| t == seq![97u8, 115u8]
    ||| t == seq![98u8, 114u8, 101u8, 97u8, 107u8]
    ||| t == seq![99u8, 111u8, 110u8, 115u8, 116u8]
    ||| t == seq![99u8, 111u8, 110u8, 116u8, 105u8, 110u8, 117u8, 101u8]
    ||| t == seq![99u8, 114u8, 97u8, 116u8, 101u8]
    ||| t == seq![101u8, 108u8, 115u8, 101u8]
    ||| t == seq![101u8, 110u8, 117u8, 109u8]
    ||| t == seq![101u8, 120u8, 116u8, 101u8, 114u8, 110u8]
    ||| t == seq![102u8, 97u8, 108u8, 115u8, 101u8]
    ||| t == seq![102u8, 110u8]
    ||| t == seq![102u8, 111u8, 114u8]
    ||| t == seq![105u8, 102u8]
    ||| t == seq![105u8, 109u8, 112u8, 108u8]
    ||| t == seq![105u8, 110u8]
    ||| t == seq![108u8, 101u8, 116u8]
    ||| t == seq![108u8, 111u8, 111u8, 112u8]
    ||| t == seq![109u8, 97u8, 116u8, 99u8, 104u8]
    ||| t == seq![109u8, 111u8, 100u8]
    ||| t == seq![109u8, 111u8, 118u8, 101u8]
    ||| t == seq![109u8, 117u8, 116u8]
    ||| t == seq![112u8, 117u8, 98u8]
    ||| t == seq![114u8, 101u8, 102u8]
    ||| t == seq![114u8, 101u8, 116u8, 117u8, 114u8, 110u8]
    ||| t == seq![115u8, 101u8, 108u8, 102u8]
    ||| t == seq![83u8, 101u8, 108u8, 102u8]
    ||| t == seq![115u8, 116u8, 97u8, 116u8, 105u8, 99u8]
    ||| t == seq![115u8, 116u8, 114u8, 117u8, 99u8, 116u8]
    ||| t == seq![115u8, 117u8, 112u8, 101u8, 114u8]
    ||| t == seq![116u8, 114u8, 97u8, 105u8, 116u8]
    ||| t == seq![116u8, 114u8, 117u8, 101u8]
    ||| t == seq![116u8, 121u8, 112u8, 101u8]
    ||| t == seq![117u8, 110u8, 115u8, 97u8, 102u8, 101u8]
    ||| t == seq![117u8, 115u8, 101u8]
    ||| t == seq![119u8, 104u8, 101u8, 114u8, 101u8]
    ||| t == seq![119u8, 104u8, 105u8, 108u8, 101u8]
    ||| t == seq![97u8, 98u8, 115u8, 116u8, 114u8, 97u8, 99u8, 116u8]
    ||| t == seq![97u8, 108u8, 105u8, 103u8, 110u8, 111u8, 102u8]
    ||| t == seq![98u8, 101u8, 99u8, 111u8, 109u8, 101u8]
    ||| t == seq![98u8, 111u8, 120u8]
    ||| t == seq![100u8, 111u8]
    ||| t == seq![102u8, 105u8, 110u8, 97u8, 108u8]
    ||| t == seq![109u8, 97u8, 99u8, 114u8, 111u8]
    ||| t == seq![111u8, 102u8, 102u8, 115u8, 101u8, 116u8, 111u8, 102u8]
    ||| t == seq![111u8, 118u8, 101u8, 114u8, 114u8, 105u8, 100u8, 101u8]
    ||| t == seq![112u8, 114u8, 105u8, 118u8]
    ||| t == seq![112u8, 114u8, 111u8, 99u8]
    ||| t == seq![112u8, 117u8, 114u8, 101u8]
    ||| t == seq![115u8, 105u8, 122u8, 101u8, 111u8, 102u8]
    ||| t == seq![116u8, 121u8, 112u8, 101u8, 111u8, 102u8]
    ||| t == seq![117u8, 110u8, 115u8, 105u8, 122u8, 101u8, 100u8]
    ||| t == seq![118u8, 105u8, 114u8, 116u8, 117u8, 97u8, 108u8]
    ||| t == seq![121u8, 105u8, 101u8, 108u8, 100u8]
    ||| t == seq![95u8]
}

/// Whether `t` is a keyword, a reserved word or `_`.
pub fn is_keyword_bytes(t: &[u8]) -> (r: bool)
    ensures
        r == is_keyword(t@),
{
    assert([97u8, 115u8]@ =~= seq![97u8, 115u8]);
    assert([98u8, 114u8, 101u8, 97u8, 107u8]@ =~= seq![98u8, 114u8, 101u8, 97u8, 107u8]);
    assert([99u8, 111u8, 110u8, 115u8, 116u8]@ =~= seq![99u8, 111u8, 110u8, 115u8, 116u8]);
    assert([99u8, 111u8, 110u8, 116u8, 105u8, 110u8, 117u8, 101u8]@ =~= seq![99u8, 111u8, 110u8, 116u8, 105u8, 110u8, 117u8, 101u8]);
    assert([99u8, 114u8, 97u8, 116u8, 101u8]@ =~= seq![99u8, 114u8, 97u8, 116u8, 101u8]);
    assert([101u8, 108u8, 115u8, 101u8]@ =~= seq![101u8, 108u8, 115u8, 101u8]);
    assert([101u8, 110u8, 117u8, 109u8]@ =~= seq![101u8, 110u8, 117u8, 109u8]);
    assert([101u8, 120u8, 116u8, 101u8, 114u8, 110u8]@ =~= seq![101u8, 120u8, 116u8, 101u8, 114u8, 110u8]);
    assert([102u8, 97u8, 108u8, 115u8, 101u8]@ =~= seq![102u8, 97u8, 108u8, 115u8, 101u8]);
    assert([102u8, 110u8]@ =~= seq![102u8, 110u8]);
    assert([102u8, 111u8, 114u8]@ =~= seq![102u8, 111u8, 114u8]);
    assert([105u8, 102u8]@ =~= seq![105u8, 102u8]);
    assert([105u8, 109u8, 112u8, 108u8]@ =~= seq![105u8, 109u8, 112u8, 108u8]);
    assert([105u8, 110u8]@ =~= seq![105u8, 110u8]);
    assert([108u8, 101u8, 116u8]@ =~= seq![108u8, 101u8, 116u8]);
    assert([108u8, 111u8, 111u8, 112u8]@ =~= seq![108u8, 111u8, 111u8, 112u8]);
    assert([109u8, 97u8, 116u8, 99u8, 104u8]@ =~= seq![109u8, 97u8, 116u8, 99u8, 104u8]);
    assert([109u8, 111u8, 100u8]@ =~= seq![109u8, 111u8, 100u8]);
    assert([109u8, 111u8, 118u8, 101u8]@ =~= seq![109u8, 111u8, 118u8, 101u8]);
    assert([109u8, 117u8, 116u8]@ =~= seq![109u8, 117u8, 116u8]);
    assert([112u8, 117u8, 98u8]@ =~= seq![112u8, 117u8, 98u8]);
    assert([114u8, 101u8, 102u8]@ =~= seq![114u8, 101u8, 102u8]);
    assert([114u8, 101u8, 116u8, 117u8, 114u8, 110u8]@ =~= seq![114u8, 101u8, 116u8, 117u8, 114u8, 110u8]);
    assert([115u8, 101u8, 108u8, 102u8]@ =~= seq![115u8, 101u8, 108u8, 102u8]);
    assert([83u8, 101u8, 108u8, 102u8]@ =~= seq![83u8, 101u8, 108u8, 102u8]);
    assert([115u8, 116u8, 97u8, 116u8, 105u8, 99u8]@ =~= seq![115u8, 116u8, 97u8, 116u8, 105u8, 99u8]);
    assert([115u8, 116u8, 114u8, 117u8, 99u8, 116u8]@ =~= seq![115u8, 116u8, 114u8, 117u8, 99u8, 116u8]);
    assert([115u8, 117u8, 112u8, 101u8, 114u8]@ =~= seq![115u8, 117u8, 112u8, 101u8, 114u8]);
    assert([116u8, 114u8, 97u8, 105u8, 116u8]@ =~= seq![116u8, 114u8, 97u8, 105u8, 116u8]);
    assert([116u8, 114u8, 117u8, 101u8]@ =~= seq![116u8, 114u8, 117u8, 101u8]);
    assert([116u8, 121u8, 112u8, 101u8]@ =~= seq![116u8, 121u8, 112u8, 101u8]);
    assert([117u8, 110u8, 115u8, 97u8, 102u8, 101u8]@ =~= seq![117u8, 110u8, 115u8, 97u8, 102u8, 101u8]);
    assert([117u8, 115u8, 101u8]@ =~= seq![117u8, 115u8, 101u8]);
    assert([119u8, 104u8, 101u8, 114u8, 101u8]@ =~= seq![119u8, 104u8, 101u8, 114u8, 101u8]);
    assert([119u8, 104u8, 105u8, 108u8, 101u8]@ =~= seq![119u8, 104u8, 105u8, 108u8, 101u8]);
    assert([97u8, 98u8, 115u8, 116u8, 114u8, 97u8, 99u8, 116u8]@ =~= seq![97u8, 98u8, 115u8, 116u8, 114u8, 97u8, 99u8, 116u8]);
    assert([97u8, 108u8, 105u8, 103u8, 110u8, 111u8, 102u8]@ =~= seq![97u8, 108u8, 105u8, 103u8, 110u8, 111u8, 102u8]);
    assert([98u8, 101u8, 99u8, 111u8, 109u8, 101u8]@ =~= seq![98u8, 101u8, 99u8, 111u8, 109u8, 101u8]);
    assert([98u8, 111u8, 120u8]@ =~= seq![98u8, 111u8, 120u8]);
    assert([100u8, 111u8]@ =~= seq![100u8, 111u8]);
    assert([102u8, 105u8, 110u8, 97u8, 108u8]@ =~= seq![102u8, 105u8, 110u8, 97u8, 108u8]);
    assert([109u8, 97u8, 99u8, 114u8, 111u8]@ =~= seq![109u8, 97u8, 99u8, 114u8, 111u8]);
    assert([111u8, 102u8, 102u8, 115u8, 101u8, 116u8, 111u8, 102u8]@ =~= seq![111u8, 102u8, 102u8, 115u8, 101u8, 116u8, 111u8, 102u8]);
    assert([111u8, 118u8, 101u8, 114u8, 114u8, 105u8, 100u8, 101u8]@ =~= seq![111u8, 118u8, 101u8, 114u8, 114u8, 105u8, 100u8, 101u8]);
    assert([112u8, 114u8, 105u8, 118u8]@ =~= seq![112u8, 114u8, 105u8, 118u8]);
    assert([112u8, 114u8, 111u8, 99u8]@ =~= seq![112u8, 114u8, 111u8, 99u8]);
    assert([112u8, 117u8, 114u8, 101u8]@ =~= seq![112u8, 117u8, 114u8, 101u8]);
    assert([115u8, 105u8, 122u8, 101u8, 111u8, 102u8]@ =~= seq![115u8, 105u8, 122u8, 101u8, 111u8, 102u8]);
    assert([116u8, 121u8, 112u8, 101u8, 111u8, 102u8]@ =~= seq![116u8, 121u8, 112u8, 101u8, 111u8, 102u8]);
    assert([117u8, 110u8, 115u8, 105u8, 122u8, 101u8, 100u8]@ =~= seq![117u8, 110u8, 115u8, 105u8, 122u8, 101u8, 100u8]);
    assert([118u8, 105u8, 114u8, 116u8, 117u8, 97u8, 108u8]@ =~= seq![118u8, 105u8, 114u8, 116u8, 117u8, 97u8, 108u8]);
    assert([121u8, 105u8, 101u8, 108u8, 100u8]@ =~= seq![121u8, 105u8, 101u8, 108u8, 100u8]);
    assert([95u8]@ =~= seq![95u8]);
    if crate::misc::bytes_eq(t, &[97u8, 115u8]) {
        return true;
    }
    if crate::misc::bytes_eq(t, &[98u8, 114u8, 101u8, 97u8, 107u8]) {
        return true;
    }
    if crate::misc::bytes_eq(t, &[99u8, 111u8, 110u8, 115u8, 116u8]) {
        return true;
    }
    if crate::misc::bytes_eq(t, &[99u8, 111u8, 110u8, 116u8, 105u8, 110u8, 117u8, 101u8]) {
        return true;
    }
    if crate::misc::bytes_eq(t, &[99u8, 114u8, 97u8, 116u8, 101u8]) {
        return true;
    }
    if crate::misc::bytes_eq(t, &[101u8, 108u8, 115u8, 101u8]) {
        return true;
    }
    if crate::misc::bytes_eq(t, &[101u8, 110u8, 117u8, 109u8]) {
        return true;
    }
    if crate::misc::bytes_eq(t, &[101u8, 120u8, 116u8, 101u8, 114u8, 110u8]) {
        return true;
    }
    if crate::misc::bytes_eq(t, &[102u8, 97u8, 108u8, 115u8, 101u8]) {
        return true;
    }
    if crate::misc::bytes_eq(t, &[102u8, 110u8]) {
        return true;
    }
    if crate::misc::bytes_eq(t, &[102u8, 111u8, 114u8]) {
        return true;
    }
    if crate::misc::bytes_eq(t, &[105u8, 102u8]) {
        return true;
    }
    if crate::misc::bytes_eq(t, &[105u8, 109u8, 112u8, 108u8]) {
        return true;
    }
    if crate::misc::bytes_eq(t, &[105u8, 110u8]) {
        return true;
    }
    if crate::misc::bytes_eq(t, &[108u8, 101u8, 116u8]) {
        return true;
    }
    if crate::misc::bytes_eq(t, &[108u8, 111u8, 111u8, 112u8]) {
        return true;
    }
    if crate::misc::bytes_eq(t, &[109u8, 97u8, 116u8, 99u8, 104u8]) {
        return true;
    }
    if crate::misc::bytes_eq(t, &[109u8, 111u8, 100u8]) {
        return true;
    }
    if crate::misc::bytes_eq(t, &[109u8, 111u8, 118u8, 101u8]) {
        return true;
    }
    if crate::misc::bytes_eq(t, &[109u8, 117u8, 116u8]) {
        return true;
    }
    if crate::misc::bytes_eq(t, &[112u8, 117u8, 98u8]) {
        return true;
    }
    if crate::misc::bytes_eq(t, &[114u8, 101u8, 102u8]) {
        return true;
    }
    if crate::misc::bytes_eq(t, &[114u8, 101u8, 116u8, 117u8, 114u8, 110u8]) {
        return true;
    }
    if crate::misc::bytes_eq(t, &[115u8, 101u8, 108u8, 102u8]) {
        return true;
    }
    if crate::misc::bytes_eq(t, &[83u8, 101u8, 108u8, 102u8]) {
        return true;
    }
    if crate::misc::bytes_eq(t, &[115u8, 116u8, 97u8, 116u8, 105u8, 99u8]) {
        return true;
    }
    if crate::misc::bytes_eq(t, &[115u8, 116u8, 114u8, 117u8, 99u8, 116u8]) {
        return true;
    }
    if crate::misc::bytes_eq(t, &[115u8, 117u8, 112u8, 101u8, 114u8]) {
        return true;
    }
    if crate::misc::bytes_eq(t, &[116u8, 114u8, 97u8, 105u8, 116u8]) {
        return true;
    }
    if crate::misc::bytes_eq(t, &[116u8, 114u8, 117u8, 101u8]) {
        return true;
    }
    if crate::misc::bytes_eq(t, &[116u8, 121u8, 112u8, 101u8]) {
        return true;
    }
    if crate::misc::bytes_eq(t, &[117u8, 110u8, 115u8, 97u8, 102u8, 101u8]) {
        return true;
    }
    if crate::misc::bytes_eq(t, &[117u8, 115u8, 101u8]) {
        return true;
    }
    if crate::misc::bytes_eq(t, &[119u8, 104u8, 101u8, 114u8, 101u8]) {
        return true;
    }
    if crate::misc::bytes_eq(t, &[119u8, 104u8, 105u8, 108u8, 101u8]) {
        return true;
    }
    if crate::misc::bytes_eq(t, &[97u8, 98u8, 115u8, 116u8, 114u8, 97u8, 99u8, 116u8]) {
        return true;
    }
    if crate::misc::bytes_eq(t, &[97u8, 108u8, 105u8, 103u8, 110u8, 111u8, 102u8]) {
        return true;
    }
    if crate::misc::bytes_eq(t, &[98u8, 101u8, 99u8, 111u8, 109u8, 101u8]) {
        return true;
    }
    if crate::misc::bytes_eq(t, &[98u8, 111u8, 120u8]) {
        return true;
    }
    if crate::misc::bytes_eq(t, &[100u8, 111u8]) {
        return true;
    }
    if crate::misc::bytes_eq(t, &[102u8, 105u8, 110u8, 97u8, 108u8]) {
        return true;
    }
    if crate::misc::bytes_eq(t, &[109u8, 97u8, 99u8, 114u8, 111u8]) {
        return true;
    }
    if crate::misc::bytes_eq(t, &[111u8, 102u8, 102u8, 115u8, 101u8, 116u8, 111u8, 102u8]) {
        return true;
    }
    if crate::misc::bytes_eq(t, &[111u8, 118u8, 101u8, 114u8, 114u8, 105u8, 100u8, 101u8]) {
        return true;
    }
    if crate::misc::bytes_eq(t, &[112u8, 114u8, 105u8, 118u8]) {
        return true;
    }
    if crate::misc::bytes_eq(t, &[112u8, 114u8, 111u8, 99u8]) {
        return true;
    }
    if crate::misc::bytes_eq(t, &[112u8, 117u8, 114u8, 101u8]) {
        return true;
    }
    if crate::misc::bytes_eq(t, &[115u8, 105u8, 122u8, 101u8, 111u8, 102u8]) {
        return true;
    }
    if crate::misc::bytes_eq(t, &[116u8, 121u8, 112u8, 101u8, 111u8, 102u8]) {
        return true;
    }
    if crate::misc::bytes_eq(t, &[117u8, 110u8, 115u8, 105u8, 122u8, 101u8, 100u8]) {
        return true;
    }
    if crate::misc::bytes_eq(t, &[118u8, 105u8, 114u8, 116u8, 117u8, 97u8, 108u8]) {
        return true;
    }
    if crate::misc::bytes_eq(t, &[121u8, 105u8, 101u8, 108u8, 100u8]) {
        return true;
    }
    if crate::misc::bytes_eq(t, &[95u8]) {
        return true;
    }
    false
}


fn punct_at(toks: &[Token], i: usize, c: u8) -> (r: bool)
    ensures
        r == is_punct(toks@, i as int, c),
{
    i < toks.len() && toks[i].kind == TokenKind::Punct(c)
}

fn ident_at(toks: &[Token], i: usize) -> (r: bool)
    ensures
        r == is_ident(toks@, i as int),
{
    i < toks.len() && toks[i].kind == TokenKind::Ident
}

fn token_pos(toks: &[Token], text: &[u8], i: usize) -> (r: usize)
    ensures
        r == tok_pos(toks@, text@, i as int),
{
    if i < toks.len() {
        toks[i].lo
    } else {
        text.len()
    }
}

fn error_at(kind: ParseErrorKind, toks: &[Token], text: &[u8], i: usize) -> (r: ParseError)
    ensures
        r == err_at(kind, toks@, text@, i as int),
{
    ParseError { kind, pos: token_pos(toks, text, i) }
}

/// The text from the start of token `i` to the end of token `j`.
fn span(toks: &[Token], text: &[u8], i: usize, j: usize) -> (r: Vec<u8>)
    requires
        tokens_wf(toks@, text@.len()),
        i <= j < toks@.len(),
    ensures
        r@ == span_text(toks@, text@, i as int, j as int),
{
    assert(toks@[i as int].lo < toks@[i as int].hi);
    assert(i < j ==> toks@[i as int].hi <= toks@[j as int].lo);
    crate::misc::copy_range(text, toks[i].lo, toks[j].hi)
}

fn find_path_end(toks: &[Token], i: usize) -> (r: usize)
    requires
        i <= toks@.len(),
    ensures
        r as int == path_end(toks@, i as int),
        i <= r <= toks@.len(),
{
    let n = toks.len();
    let mut k = i;
    while punct_at(toks, k, 58) && punct_at(toks, k + 1, 58) && ident_at(toks, k + 2)
        invariant
            n == toks@.len(),
            i <= k <= toks@.len(),
            path_end(toks@, k as int) == path_end(toks@, i as int),
        decreases toks@.len() - k,
    {
        k = k + 3;
    }
    k
}

fn find_group_end(toks: &[Token], i: usize) -> (r: Option<usize>)
    requires
        i <= toks@.len(),
    ensures
        match r {
            Some(e) => group_end(toks@, i as int, seq![93u8]) == Some(e as int) && i < e <= toks@.len(),
            None => group_end(toks@, i as int, seq![93u8]) is None,
        },
{
    let mut stack: Vec<u8> = Vec::new();
    stack.push(93);
    assert(stack@ =~= seq![93u8]);
    let mut k = i;
    while k < toks.len()
        invariant
            i <= k <= toks@.len(),
            stack@.len() >= 1,
            group_end(toks@, k as int, stack@) == group_end(toks@, i as int, seq![93u8]),
        decreases toks@.len() - k,
    {
        match toks[k].kind {
            TokenKind::Punct(c) => {
                if c == 40 || c == 91 || c == 123 {
                    let closer: u8 = if c == 40 { 41 } else if c == 91 { 93 } else { 125 };
                    stack.push(closer);
                } else if c == 41 || c == 93 || c == 125 {
                    let last = stack[stack.len() - 1];
                    if c != last {
                        return None;
                    }
                    if stack.len() == 1 {
                        return Some(k + 1);
                    }
                    stack.pop();
                }
            },
            _ => {},
        }
        k += 1;
    }
    None
}

/// The attribute at token `i`, the index after it, and the errors found.
fn parse_attr(toks: &[Token], text: &[u8], i: usize) -> (r: Result<(Attribute, usize, Option<ParseError>), ParseError>)
    requires
        tokens_wf(toks@, text@.len()),
        starts_attr(toks@, i as int),
    ensures
        match (r, attr_at(toks@, text@, i as int)) {
            (Ok((a, j, e)), Ok((v, k, es))) => a@ == v && j as int == k && opt_errors(e) == es && i < j <= toks@.len(),
            (Err(e), Err(f)) => e == f,
            _ => false,
        },
{
    let n = toks.len();
    if toks[i].kind == TokenKind::Doc {
        let path: Vec<u8> = vec![100u8, 111u8, 99u8];
        assert(path@ =~= doc_word());
        let t = span(toks, text, i, i);
        assert(opt_errors(None) =~= Seq::<ParseError>::empty());
        return Ok((Attribute { path, text: t }, i + 1, None));
    }
    let inner = punct_at(toks, i + 1, 33);
    let b = if inner { i + 2 } else { i + 1 };
    if !punct_at(toks, b, 91) {
        return Err(error_at(ParseErrorKind::ExpectedAttributeBracket, toks, text, b));
    }
    if !ident_at(toks, b + 1) {
        return Err(error_at(ParseErrorKind::ExpectedAttributePath, toks, text, b + 1));
    }
    let pe = find_path_end(toks, b + 2);
    match find_group_end(toks, pe) {
        Some(e) => {
            let path = span(toks, text, b + 1, pe - 1);
            let t = span(toks, text, i, e - 1);
            let err = if inner {
                Some(error_at(ParseErrorKind::InnerAttribute, toks, text, b))
            } else {
                None
            };
            assert(opt_errors(err) =~= attr_at(toks@, text@, i as int)->Ok_0.2);
            Ok((Attribute { path, text: t }, e, err))
        },
        None => Err(error_at(ParseErrorKind::UnclosedAttribute, toks, text, i)),
    }
}

fn starts_attr_at(toks: &[Token], i: usize) -> (r: bool)
    ensures
        r == starts_attr(toks@, i as int),
{
    (i < toks.len() && toks[i].kind == TokenKind::Doc) || punct_at(toks, i, 35)
}

/// The attributes from token `i` on, and the index after them; the errors
/// found go to `errs`.
fn parse_attrs(toks: &[Token], text: &[u8], i: usize, errs: &mut Vec<ParseError>) -> (r: Result<(Vec<Attribute>, usize), ParseError>)
    requires
        tokens_wf(toks@, text@.len()),
        i <= toks@.len(),
    ensures
        match (r, attrs_at(toks@, text@, i as int)) {
            (Ok((v, j)), Ok((sv, k, es))) => attrs_view(v@) == sv && j as int == k && i <= j <= toks@.len()
                && final(errs)@ == old(errs)@ + es,
            (Err(e), Err(f)) => e == f && final(errs)@ == old(errs)@,
            _ => false,
        },
{
    let mut acc: Vec<Attribute> = Vec::new();
    let mut local: Vec<ParseError> = Vec::new();
    let mut k = i;
    assert(attrs_view(acc@) =~= Seq::<(Seq<u8>, Seq<u8>)>::empty());
    while starts_attr_at(toks, k)
        invariant
            tokens_wf(toks@, text@.len()),
            i <= k <= toks@.len(),
            attrs_at(toks@, text@, i as int) == match attrs_at(toks@, text@, k as int) {
                Ok((rest, e, es)) => Ok::<(Seq<(Seq<u8>, Seq<u8>)>, int, Seq<ParseError>), ParseError>(
                    (attrs_view(acc@) + rest, e, local@ + es),
                ),
                Err(e) => Err(e),
            },
        decreases toks@.len() - k,
    {
        match parse_attr(toks, text, k) {
            Ok((a, j, e)) => {
                let ghost old_acc = acc@;
                let ghost old_local = local@;
                proof {
                    match attrs_at(toks@, text@, j as int) {
                        Ok((rest, end, es)) => {
                            assert(attrs_view(old_acc.push(a)) =~= attrs_view(old_acc).push(a@));
                            assert(attrs_view(old_acc) + (seq![a@] + rest) =~= attrs_view(old_acc.push(a)) + rest);
                            assert(old_local + (opt_errors(e) + es) =~= (old_local + opt_errors(e)) + es);
                        },
                        Err(e) => {},
                    }
                }
                acc.push(a);
                push_error(&mut local, e);
                k = j;
            },
            Err(e) => {
                return Err(e);
            },
        }
    }
    assert(attrs_view(acc@) + Seq::<(Seq<u8>, Seq<u8>)>::empty() =~= attrs_view(acc@));
    assert(local@ + Seq::<ParseError>::empty() =~= local@);
    errs.append(&mut local);
    Ok((acc, k))
}

/// Token `i` is the word `true` or `false`.
fn is_bool_word(toks: &[Token], text: &[u8], i: usize) -> (r: bool)
    requires
        tokens_wf(toks@, text@.len()),
        i < toks@.len(),
    ensures
        r == (tok_text(toks@, text@, i as int) == true_word() || tok_text(toks@, text@, i as int) == false_word()),
{
    let t = span(toks, text, i, i);
    proof {
        assert([116u8, 114u8, 117u8, 101u8]@ =~= true_word());
        assert([102u8, 97u8, 108u8, 115u8, 101u8]@ =~= false_word());
    }
    crate::misc::bytes_eq(t.as_slice(), &[116u8, 114u8, 117u8, 101u8]) || crate::misc::bytes_eq(
        t.as_slice(),
        &[102u8, 97u8, 108u8, 115u8, 101u8],
    )
}

/// The unsigned integer literal at token `i`, the index after it, and the
/// error found. A literal with an error in it gives the value that stands
/// for it; 1 stands in place of anything else, passed over where it is a
/// literal of another kind and left where it is no literal.
pub fn parse_u128(toks: &[Token], text: &[u8], i: usize) -> (r: (u128, usize, Option<ParseError>))
    requires
        tokens_wf(toks@, text@.len()),
        i <= toks@.len(),
    ensures
        r.0 == number_at(toks@, text@, i as int).0,
        r.1 as int == number_at(toks@, text@, i as int).1,
        r.2 == number_at(toks@, text@, i as int).2,
{
    if i < toks.len() {
        match toks[i].kind {
            TokenKind::Int(v) => {
                return (v, i + 1, None);
            },
            TokenKind::BadInt(v, k) => {
                return (v, i + 1, Some(ParseError { kind: ParseErrorKind::Lex(k), pos: toks[i].lo }));
            },
            TokenKind::Lit => {
                return (1, i + 1, Some(error_at(ParseErrorKind::ExpectedIntLiteral, toks, text, i)));
            },
            TokenKind::Ident => {
                if is_bool_word(toks, text, i) {
                    return (1, i + 1, Some(error_at(ParseErrorKind::ExpectedIntLiteral, toks, text, i)));
                }
            },
            _ => {},
        }
    }
    (1, i, Some(error_at(ParseErrorKind::ExpectedLiteral, toks, text, i)))
}

/// Appends the error, if there is one.
fn push_error(errs: &mut Vec<ParseError>, e: Option<ParseError>)
    ensures
        final(errs)@ == old(errs)@ + opt_errors(e),
{
    match e {
        Some(x) => {
            errs.push(x);
            assert(errs@ =~= old(errs)@ + opt_errors(e));
        },
        None => {
            assert(errs@ =~= old(errs)@ + opt_errors(e));
        },
    }
}

/// The punctuation `c` expected at token `i`: the index after it, and
/// whether the parser went past the end of the tokens. A wrong token is
/// reported in `errs` and passed over.
fn expect_punct(
    toks: &[Token],
    text: &[u8],
    i: usize,
    c: u8,
    kind: ParseErrorKind,
    errs: &mut Vec<ParseError>,
) -> (r: (usize, bool))
    requires
        i <= toks@.len(),
    ensures
        r.0 as int == expect_at(toks@, text@, i as int, c, kind).0,
        final(errs)@ == old(errs)@ + expect_at(toks@, text@, i as int, c, kind).1,
        r.1 == expect_at(toks@, text@, i as int, c, kind).2,
        i <= r.0 <= toks@.len(),
{
    let n = toks.len();
    if punct_at(toks, i, c) {
        assert(errs@ =~= old(errs)@ + Seq::<ParseError>::empty());
        (i + 1, false)
    } else {
        let e = error_at(kind, toks, text, i);
        errs.push(e);
        assert(errs@ =~= old(errs)@ + seq![e]);
        if i < toks.len() {
            (i + 1, false)
        } else {
            (i, true)
        }
    }
}

/// The size at token `i`: `N`, or `[N; M]` (also written `[N, ..M]`); the
/// index after it, and whether the parser went past the end of the tokens.
/// The errors found go to `errs`.
#[verifier::rlimit(40)]
fn parse_size(toks: &[Token], text: &[u8], i: usize, errs: &mut Vec<ParseError>) -> (r: (FieldSize, usize, bool))
    requires
        tokens_wf(toks@, text@.len()),
        i <= toks@.len(),
    ensures
        r.0 == size_at(toks@, text@, i as int).0,
        r.1 as int == size_at(toks@, text@, i as int).1,
        final(errs)@ == old(errs)@ + size_at(toks@, text@, i as int).2,
        r.2 == size_at(toks@, text@, i as int).3,
        i <= r.1 <= toks@.len(),
        r.0.wf(),
{
    reveal(size_at);
    let n = toks.len();
    let mut local: Vec<ParseError> = Vec::new();
    let r = if punct_at(toks, i, 91) {
        let (el, j1, e1) = parse_u128(toks, text, i + 1);
        push_error(&mut local, e1);
        assert(local@ =~= opt_errors(e1));
        let el_ok = 1 <= el && el <= 128;
        let ghost pre = local@;
        if !el_ok {
            local.push(error_at(ParseErrorKind::ElementLength, toks, text, i + 1));
        }
        assert(local@ =~= pre + if el_ok { Seq::<ParseError>::empty() } else { seq![err_at(ParseErrorKind::ElementLength, toks@, text@, i + 1)] });
        let ghost pre = local@;
        let (j2, p2) = if punct_at(toks, j1, 44) && j1 + 1 < toks.len() && toks[j1 + 1].kind == TokenKind::DotDot {
            assert(local@ =~= pre + Seq::<ParseError>::empty());
            (j1 + 2, false)
        } else {
            expect_punct(toks, text, j1, 59, ParseErrorKind::ExpectedSemicolon, &mut local)
        };
        let (cnt, j3, e3) = parse_u128(toks, text, j2);
        push_error(&mut local, e3);
        let ghost pre = local@;
        if cnt == 0 {
            local.push(error_at(ParseErrorKind::ElementCount, toks, text, j2));
        } else if cnt > usize::MAX as u128 {
            local.push(error_at(ParseErrorKind::ElementCountTooLarge, toks, text, j2));
        }
        assert(local@ =~= pre + if cnt == 0 {
            seq![err_at(ParseErrorKind::ElementCount, toks@, text@, j2 as int)]
        } else if cnt > usize::MAX {
            seq![err_at(ParseErrorKind::ElementCountTooLarge, toks@, text@, j2 as int)]
        } else {
            Seq::<ParseError>::empty()
        });
        let (j4, p4) = expect_punct(toks, text, j3, 93, ParseErrorKind::ExpectedCloseBracket, &mut local);
        let count: usize = if 1 <= cnt && cnt <= usize::MAX as u128 {
            cnt as usize
        } else {
            1
        };
        let element_length: u8 = if el_ok {
            el as u8
        } else {
            1
        };
        (FieldSize::Array { count, element_length }, j4, p2 || p4)
    } else {
        let (len, j, e) = parse_u128(toks, text, i);
        push_error(&mut local, e);
        assert(local@ =~= opt_errors(e));
        let ok = 1 <= len && len <= 128;
        let ghost pre = local@;
        if !ok {
            local.push(error_at(ParseErrorKind::FieldLength, toks, text, i));
        }
        assert(local@ =~= pre + if ok { Seq::<ParseError>::empty() } else { seq![err_at(ParseErrorKind::FieldLength, toks@, text@, i as int)] });
        let length: u8 = if ok {
            len as u8
        } else {
            1
        };
        (FieldSize::Scalar { length }, j, false)
    };
    errs.append(&mut local);
    r
}

/// The field at token `i`: attributes, `pub` when public, its name, `:`
/// and its size. It gives the field, the index after it, and whether the
/// parser went past the end of the tokens; the errors found on the way go
/// to `errs`. An attribute that cannot be read, or a token that cannot be a
/// name where the name stands, is the `Err`: it stops the parse.
pub fn parse_field(toks: &[Token], text: &[u8], i: usize, errs: &mut Vec<ParseError>) -> (r: Result<(Field, usize, bool), ParseError>)
    requires
        tokens_wf(toks@, text@.len()),
        i <= toks@.len(),
    ensures
        match (r, field_at(toks@, text@, i as int)) {
            (Ok((f, j, p)), Ok((v, k, es, q))) => {
                &&& field_view(f) == v
                &&& j as int == k
                &&& p == q
                &&& final(errs)@ == old(errs)@ + es
                &&& i < j <= toks@.len()
                &&& f.size.wf()
            },
            (Err(e), Err(es)) => final(errs)@.push(e) == old(errs)@ + es,
            _ => false,
        },
{
    reveal(field_at);
    let n = toks.len();
    let ghost e_start = errs@;
    let mut ea: Vec<ParseError> = Vec::new();
    let (attrs, j) = match parse_attrs(toks, text, i, &mut ea) {
        Ok(x) => x,
        Err(e) => {
            assert(errs@.push(e) =~= old(errs)@ + seq![e]);
            return Err(e);
        },
    };
    let is_pub = ident_at(toks, j) && {
        let t = span(toks, text, j, j);
        crate::misc::bytes_eq(t.as_slice(), &[112u8, 117u8, 98u8])
    };
    proof {
        assert([112u8, 117u8, 98u8]@ =~= seq![112u8, 117u8, 98u8]);
        assert([95u8]@ =~= seq![95u8]);
    }
    let name_at = if is_pub { j + 1 } else { j };
    let ghost ea_seq = ea@;
    errs.append(&mut ea);
    if !ident_at(toks, name_at) || crate::misc::bytes_eq(span(toks, text, name_at, name_at).as_slice(), &[95u8]) {
        let e = error_at(ParseErrorKind::ExpectedIdent, toks, text, name_at);
        assert(errs@.push(e) =~= old(errs)@ + ea_seq.push(e));
        return Err(e);
    }
    let name = span(toks, text, name_at, name_at);
    let ghost e0 = errs@;
    if is_keyword_bytes(name.as_slice()) {
        errs.push(error_at(ParseErrorKind::ExpectedIdent, toks, text, name_at));
    }
    assert(errs@ =~= e0 + name_errors(toks@, text@, name_at as int));
    let (c, p1) = expect_punct(toks, text, name_at + 1, 58, ParseErrorKind::ExpectedColon, errs);
    let (size, k, p2) = parse_size(toks, text, c, errs);
    proof {
        let ghost es = field_at(toks@, text@, i as int)->Ok_0.2;
        assert(errs@ =~= e_start + es);
    }
    Ok((Field { name, is_pub, attrs, size }, k, p1 || p2))
}

/// The views of a list of fields.
pub open spec fn fields_view(fs: Seq<Field>) -> Seq<FieldView> {
    fs.map_values(|f: Field| field_view(f))
}

/// The fields from token `i` to the end, and whether the parse stopped; the
/// errors found go to `errs`.
#[verifier::rlimit(40)]
fn parse_fields(toks: &[Token], text: &[u8], i: usize, errs: &mut Vec<ParseError>) -> (r: (Vec<Field>, bool))
    requires
        tokens_wf(toks@, text@.len()),
        i <= toks@.len(),
    ensures
        fields_view(r.0@) == fields_from(toks@, text@, i as int, true).0,
        final(errs)@ == old(errs)@ + fields_from(toks@, text@, i as int, true).1,
        r.1 == fields_from(toks@, text@, i as int, true).2,
        forall|k: int| 0 <= k < r.0@.len() ==> (#[trigger] r.0@[k]).size.wf(),
{
    let n = toks.len();
    let ghost whole = fields_from(toks@, text@, i as int, true);
    let ghost e0 = errs@;
    let ghost mut added: Seq<ParseError> = Seq::empty();
    let mut acc: Vec<Field> = Vec::new();
    let mut k = i;
    let mut first = true;
    assert(fields_view(acc@) + whole.0 =~= whole.0);
    assert(added + whole.1 =~= whole.1);
    assert(errs@ =~= e0 + added);
    while k < toks.len()
        invariant
            tokens_wf(toks@, text@.len()),
            i <= k <= toks@.len(),
            e0 == old(errs)@,
            whole == fields_from(toks@, text@, i as int, true),
            errs@ == e0 + added,
            forall|m: int| 0 <= m < acc@.len() ==> (#[trigger] acc@[m]).size.wf(),
            whole.0 == fields_view(acc@) + fields_from(toks@, text@, k as int, first).0,
            whole.1 == added + fields_from(toks@, text@, k as int, first).1,
            whole.2 == fields_from(toks@, text@, k as int, first).2,
        decreases toks@.len() - k,
    {
        let ghost rest = fields_from(toks@, text@, k as int, first);
        let s = if first {
            k
        } else {
            if !punct_at(toks, k, 44) {
                let e = error_at(ParseErrorKind::ExpectedComma, toks, text, k);
                errs.push(e);
                proof {
                    assert(rest.1 == seq![e]);
                    assert(fields_view(acc@) + rest.0 =~= fields_view(acc@));
                    assert(errs@ =~= e0 + (added + rest.1));
                }
                return (acc, false);
            }
            k + 1
        };
        if s >= toks.len() {
            proof {
                assert(fields_view(acc@) + rest.0 =~= fields_view(acc@));
                assert(added + rest.1 =~= added);
            }
            return (acc, false);
        }
        let ghost before = errs@;
        match parse_field(toks, text, s, errs) {
            Err(e) => {
                errs.push(e);
                proof {
                    assert(fields_view(acc@) + rest.0 =~= fields_view(acc@));
                    assert(errs@ =~= before + field_at(toks@, text@, s as int)->Err_0);
                    assert(errs@ =~= e0 + (added + rest.1));
                }
                return (acc, true);
            },
            Ok((f, j, past)) => {
                let ghost fa = field_at(toks@, text@, s as int)->Ok_0;
                let ghost old_acc = acc@;
                acc.push(f);
                proof {
                    assert(fields_view(acc@) =~= fields_view(old_acc).push(fa.0));
                }
                if past {
                    proof {
                        assert(fields_view(old_acc) + rest.0 =~= fields_view(acc@));
                        assert(errs@ =~= e0 + (added + rest.1));
                    }
                    return (acc, true);
                }
                proof {
                    let ghost next = fields_from(toks@, text@, j as int, false);
                    assert(fields_view(old_acc) + rest.0 =~= fields_view(acc@) + next.0);
                    assert(added + rest.1 =~= (added + fa.2) + next.1);
                    added = added + fa.2;
                    assert(errs@ =~= e0 + added);
                }
                k = j;
                first = false;
            },
        }
    }
    proof {
        let ghost rest = fields_from(toks@, text@, k as int, first);
        assert(fields_view(acc@) + rest.0 =~= fields_view(acc@));
        assert(added + rest.1 =~= added);
    }
    (acc, false)
}

/// A declaration as read, and every error found, in order. `decl` is
/// `None` where the parse stopped.
pub struct Parsed {
    pub decl: Option<BitfieldDecl>,
    pub errors: Vec<ParseError>,
}

/// `p` is what reading gave, where the grammar gives `o`.
pub open spec fn parsed_as(p: Parsed, o: ParseOutcome) -> bool {
    &&& p.errors@ == o.errors
    &&& match (p.decl, o.decl) {
        (Some(d), Some(v)) => decl_view(d) == v && forall|k: int| 0 <= k < d.fields@.len() ==> (#[trigger] d.fields@[k]).size.wf(),
        (None, None) => true,
        _ => false,
    }
}

/// A parse stopped by `e`.
fn stopped(e: ParseError) -> (r: Parsed)
    ensures
        r.decl is None,
        r.errors@ == seq![e],
{
    let mut errors: Vec<ParseError> = Vec::new();
    errors.push(e);
    assert(errors@ =~= seq![e]);
    Parsed { decl: None, errors }
}

/// The declaration that the tokens spell.
fn parse_tokens(toks: &[Token], text: &[u8]) -> (r: Parsed)
    requires
        tokens_wf(toks@, text@.len()),
    ensures
        parsed_as(r, decl_of(toks@, text@)),
{
    let n = toks.len();
    let mut errors: Vec<ParseError> = Vec::new();
    let (attrs, i) = match parse_attrs(toks, text, 0, &mut errors) {
        Ok(x) => x,
        Err(e) => {
            return stopped(e);
        },
    };
    let ghost ea = errors@;
    let is_pub = ident_at(toks, i) && {
        let t = span(toks, text, i, i);
        crate::misc::bytes_eq(t.as_slice(), &[112u8, 117u8, 98u8])
    };
    proof {
        assert([112u8, 117u8, 98u8]@ =~= seq![112u8, 117u8, 98u8]);
        assert([95u8]@ =~= seq![95u8]);
    }
    let name_at = if is_pub { i + 1 } else { i };
    if !ident_at(toks, name_at) || crate::misc::bytes_eq(span(toks, text, name_at, name_at).as_slice(), &[95u8]) {
        let e = error_at(ParseErrorKind::ExpectedIdent, toks, text, name_at);
        errors.push(e);
        return Parsed { decl: None, errors };
    }
    let name = span(toks, text, name_at, name_at);
    if is_keyword_bytes(name.as_slice()) {
        errors.push(error_at(ParseErrorKind::ExpectedIdent, toks, text, name_at));
    }
    let start = if punct_at(toks, name_at + 1, 44) {
        name_at + 2
    } else {
        errors.push(error_at(ParseErrorKind::ExpectedComma, toks, text, name_at + 1));
        name_at + 1
    };
    let ghost head = errors@;
    let (fields, stop) = parse_fields(toks, text, start, &mut errors);
    proof {
        let ghost o = decl_of(toks@, text@);
        let ghost e1: Seq<ParseError> = if is_punct(toks@, name_at + 1, 44) {
            Seq::empty()
        } else {
            seq![err_at(ParseErrorKind::ExpectedComma, toks@, text@, name_at + 1)]
        };
        assert(head =~= ea + name_errors(toks@, text@, name_at as int) + e1);
        assert(errors@ =~= o.errors);
    }
    let decl = if stop {
        None
    } else {
        Some(BitfieldDecl { attrs, is_pub, name, fields })
    };
    Parsed { decl, errors }
}

/// Parses the text of a declaration, `attrs* pub? Name, field, ...`,
/// reporting each error and reading on past it where it can.
pub fn parse_decl(text: &[u8]) -> (r: Parsed)
    ensures
        parsed_as(r, parse_spec(text@)),
{
    let len = text.len();
    match tokenize(text) {
        Err(e) => stopped(ParseError { kind: ParseErrorKind::Lex(e.kind), pos: e.pos }),
        Ok(toks) => {
            proof {
                crate::lexer::lemma_tokens_in_order(text@, 0);
            }
            parse_tokens(toks.as_slice(), text)
        },
    }
}

/// A length from 1 to 128 bits, and an array of such elements with a count
/// from 1 on, is read as written, with no error; a length of 0 or above 128
/// is reported, and 1 stands in its place.
pub proof fn law_sizes_in_range_are_read(toks: Seq<Token>, text: Seq<u8>, i: int)
    requires
        0 <= i,
    ensures
        0 <= i < toks.len() && toks[i].kind is Int ==> {
            let n = toks[i].kind->Int_0;
            if 1 <= n <= 128 {
                size_at(toks, text, i) == (FieldSize::Scalar { length: n as u8 }, i + 1, Seq::<ParseError>::empty(), false)
            } else {
                size_at(toks, text, i) == (
                    FieldSize::Scalar { length: 1 },
                    i + 1,
                    seq![ParseError { kind: ParseErrorKind::FieldLength, pos: toks[i].lo }],
                    false,
                )
            }
        },
        ({
            &&& is_punct(toks, i, 91)
            &&& 0 <= i + 4 < toks.len()
            &&& toks[i + 1].kind is Int
            &&& 1 <= toks[i + 1].kind->Int_0 <= 128
            &&& is_punct(toks, i + 2, 59)
            &&& toks[i + 3].kind is Int
            &&& 1 <= toks[i + 3].kind->Int_0 <= usize::MAX
            &&& is_punct(toks, i + 4, 93)
        }) ==> size_at(toks, text, i) == (
            FieldSize::Array {
                count: toks[i + 3].kind->Int_0 as usize,
                element_length: toks[i + 1].kind->Int_0 as u8,
            },
            i + 5,
            Seq::<ParseError>::empty(),
            false,
        ),
{
    reveal(size_at);
    assert(Seq::<ParseError>::empty() + Seq::<ParseError>::empty() =~= Seq::<ParseError>::empty());
    if 0 <= i < toks.len() && toks[i].kind is Int {
        assert(opt_errors(None) + Seq::<ParseError>::empty() =~= Seq::<ParseError>::empty());
        assert(opt_errors(None) + seq![ParseError { kind: ParseErrorKind::FieldLength, pos: toks[i].lo }] =~= seq![
            ParseError { kind: ParseErrorKind::FieldLength, pos: toks[i].lo },
        ]);
    }
    if is_punct(toks, i, 91) && 0 <= i + 4 < toks.len() {
        let e: Seq<ParseError> = Seq::empty();
        assert(opt_errors(None) + e + e + opt_errors(None) + e + e =~= e);
    }
}

} // verus!
