//! Bitfield-like structs over a byte array. A declaration lists named
//! fields of given bit widths (or arrays of them); it expands to a struct
//! holding the bytes those bits need, with a getter and a setter for each
//! field. Bytes are in network order and bits most significant first, with
//! no padding between fields.
use vstd::prelude::*;
use crate::ast::Expansion;
use crate::expand::{BitfieldDecl, ExpandError, expand, expansion_of, too_large};
use crate::parser::{ParseError, decl_view, parse_decl, parse_spec};

pub mod ast;
pub mod bits;
pub mod expand;
pub mod field;
pub mod instance;
pub mod laws;
pub mod lexer;
pub mod misc;
pub mod parser;
pub mod plan;

verus! {

/// A problem found in a declaration.
#[derive(Clone, Copy, Debug, PartialEq, Eq, Structural)]
pub enum BitfieldError {
    Parse(ParseError),
    Expand(ExpandError),
}

/// What a declaration expands to, and the problems found in it.
pub struct Expanded {
    /// The struct and its methods; `None` where parsing stopped or the
    /// struct cannot be expanded.
    pub expansion: Option<Expansion>,
    /// The problems, in the order found.
    pub errors: Vec<BitfieldError>,
}

/// Parse errors as problems of a declaration.
pub open spec fn parse_problems(es: Seq<ParseError>) -> Seq<BitfieldError> {
    es.map_values(|e: ParseError| BitfieldError::Parse(e))
}

/// The struct and methods that the text of a bitfield declaration stands
/// for. Each error in the text is reported; where parsing could go on past
/// it, the declaration as read is expanded all the same. Every size read is
/// well formed, so the laws of `laws` hold of the expansion.
pub fn expand_bitfield(input: &[u8]) -> (r: Expanded)
    ensures
        match parse_spec(input@).decl {
            None => r.expansion is None && r.errors@ == parse_problems(parse_spec(input@).errors),
            Some(v) => exists|d: BitfieldDecl| {
                &&& #[trigger] decl_view(d) == v
                &&& forall|k: int| 0 <= k < d.fields@.len() ==> (#[trigger] d.fields@[k]).size.wf()
                &&& if too_large(d.fields@) {
                    &&& r.expansion is None
                    &&& r.errors@ == parse_problems(parse_spec(input@).errors).push(BitfieldError::Expand(ExpandError::TooLarge))
                } else {
                    &&& r.expansion matches Some(x) && expansion_of(x, d)
                    &&& r.errors@ == parse_problems(parse_spec(input@).errors)
                }
            },
        },
{
    let parsed = parse_decl(input);
    let mut errors: Vec<BitfieldError> = Vec::new();
    let mut k: usize = 0;
    while k < parsed.errors.len()
        invariant
            k <= parsed.errors@.len(),
            errors@ == parse_problems(parsed.errors@.take(k as int)),
        decreases parsed.errors@.len() - k,
    {
        errors.push(BitfieldError::Parse(parsed.errors[k]));
        proof {
            assert(parsed.errors@.take(k + 1) =~= parsed.errors@.take(k as int).push(parsed.errors@[k as int]));
            assert(parse_problems(parsed.errors@.take(k + 1)) =~= parse_problems(parsed.errors@.take(k as int)).push(BitfieldError::Parse(parsed.errors@[k as int])));
        }
        k += 1;
    }
    assert(parsed.errors@.take(k as int) =~= parsed.errors@);
    match parsed.decl {
        None => Expanded { expansion: None, errors },
        Some(decl) => {
            let ghost d = decl;
            assert(decl_view(d) == decl_view(d));
            match expand(decl) {
                Ok(x) => Expanded { expansion: Some(x), errors },
                Err(e) => {
                    errors.push(BitfieldError::Expand(e));
                    Expanded { expansion: None, errors }
                },
            }
        },
    }
}

} // verus!
