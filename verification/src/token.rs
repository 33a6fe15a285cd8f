//! Tokens, as the scanner produces them, and their release.
use vstd::prelude::*;
use crate::utf::yaml_encoding_t;

verus! {

/// A position in the input.
#[derive(PartialEq, Eq, Structural, Clone, Copy, Debug)]
pub struct yaml_mark_t {
    pub index: usize,
    pub line: usize,
    pub column: usize,
}

/// Scalar styles.
#[derive(PartialEq, Eq, Structural, Clone, Copy, Debug)]
pub enum yaml_scalar_style_t {
    YAML_ANY_SCALAR_STYLE,
    YAML_PLAIN_SCALAR_STYLE,
    YAML_SINGLE_QUOTED_SCALAR_STYLE,
    YAML_DOUBLE_QUOTED_SCALAR_STYLE,
    YAML_LITERAL_SCALAR_STYLE,
    YAML_FOLDED_SCALAR_STYLE,
}

/// What a token holds, by kind of token; `NoToken` for none.
pub enum yaml_token_data_t {
    NoToken,
    StreamStart { encoding: yaml_encoding_t },
    StreamEnd,
    VersionDirective { major: i32, minor: i32 },
    TagDirective { handle: Vec<u8>, prefix: Vec<u8> },
    DocumentStart,
    DocumentEnd,
    BlockSequenceStart,
    BlockMappingStart,
    BlockEnd,
    FlowSequenceStart,
    FlowSequenceEnd,
    FlowMappingStart,
    FlowMappingEnd,
    BlockEntry,
    FlowEntry,
    Key,
    Value,
    Alias { value: Vec<u8> },
    Anchor { value: Vec<u8> },
    Tag { handle: Vec<u8>, suffix: Vec<u8> },
    Scalar { value: Vec<u8>, style: yaml_scalar_style_t },
}

/// A token: what it holds and where it starts and ends.
pub struct yaml_token_t {
    pub data: yaml_token_data_t,
    pub start_mark: yaml_mark_t,
    pub end_mark: yaml_mark_t,
}

impl yaml_token_t {
    /// The empty token: no token, at the start of the input.
    pub open spec fn is_empty(&self) -> bool {
        &&& self.data is NoToken
        &&& self.start_mark == (yaml_mark_t { index: 0, line: 0, column: 0 })
        &&& self.end_mark == (yaml_mark_t { index: 0, line: 0, column: 0 })
    }

    /// An empty token.
    pub fn empty() -> (r: yaml_token_t)
        ensures
            r.is_empty(),
    {
        yaml_token_t {
            data: yaml_token_data_t::NoToken,
            start_mark: yaml_mark_t { index: 0, line: 0, column: 0 },
            end_mark: yaml_mark_t { index: 0, line: 0, column: 0 },
        }
    }
}

/// Releases what a token holds; the token is left empty.
pub fn yaml_token_delete(token: &mut yaml_token_t)
    ensures
        final(token).is_empty(),
{
    *token = yaml_token_t::empty();
}

} // verus!
