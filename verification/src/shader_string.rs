//! A code template with its placeholders filled in.

use crate::text::{decimal, decimal_string, replace, replaced};
use vstd::prelude::*;

verus! {

/// The placeholder for the name of the operator itself.
pub const TOKEN_NAME: &'static str = "NAME";

/// The placeholder for the operator's slot in the parameter buffer.
pub const TOKEN_INDEX: &'static str = "INDEX";

/// The placeholder for the name of the operator's first input.
pub const TOKEN_INPUT_A: &'static str = "INPUT_A";

/// The placeholder for the name of the operator's second input.
pub const TOKEN_INPUT_B: &'static str = "INPUT_B";

/// The characters of an optional string.
pub open spec fn text_of(s: Option<&str>) -> Option<Seq<char>> {
    match s {
        Some(s) => Some(s@),
        None => None,
    }
}

/// `code` with `token` replaced by `with`, where there is something to
/// replace it with.
pub open spec fn replaced_if(code: Seq<char>, token: Seq<char>, with: Option<Seq<char>>) -> Seq<
    char,
> {
    match with {
        Some(with) => replaced(code, token, with),
        None => code,
    }
}

/// `code` with its placeholders filled in, one after the other: the name,
/// then the slot index as a decimal numeral, then the first and the second
/// input. A placeholder for which nothing is given stays as it is.
pub open spec fn filled(
    code: Seq<char>,
    name: Seq<char>,
    index: Option<usize>,
    input_a: Option<Seq<char>>,
    input_b: Option<Seq<char>>,
) -> Seq<char> {
    let named = replaced(code, TOKEN_NAME@, name);
    let indexed = match index {
        Some(i) => replaced(named, TOKEN_INDEX@, decimal(i as nat)),
        None => named,
    };
    replaced_if(replaced_if(indexed, TOKEN_INPUT_A@, input_a), TOKEN_INPUT_B@, input_b)
}

/// Shader code whose placeholders have been filled in.
pub struct ShaderString {
    pub code: String,
}

impl ShaderString {
    /// Fills in the placeholders of `code`.
    pub fn new(
        code: String,
        name: &str,
        index: Option<usize>,
        input_a: Option<&str>,
        input_b: Option<&str>,
    ) -> (shader: ShaderString)
        ensures
            shader.code@ == filled(code@, name@, index, text_of(input_a), text_of(input_b)),
    {
        let mut code = replace(code.as_str(), TOKEN_NAME, name);
        if let Some(i) = index {
            let numeral = decimal_string(i);
            code = replace(code.as_str(), TOKEN_INDEX, numeral.as_str());
        }
        if let Some(a) = input_a {
            code = replace(code.as_str(), TOKEN_INPUT_A, a);
        }
        if let Some(b) = input_b {
            code = replace(code.as_str(), TOKEN_INPUT_B, b);
        }
        ShaderString { code }
    }

    /// The code itself.
    pub fn to_string(self) -> (code: String)
        ensures
            code == self.code,
    {
        self.code
    }
}

} // verus!
