use vstd::prelude::*;

verus! {

/// A region of the source, `len` bytes from byte `offset`, with an optional label.
#[derive(Debug)]
pub struct LabeledSpan {
    pub label: Option<String>,
    pub offset: usize,
    pub len: usize,
}

impl LabeledSpan {
    pub fn new(label: Option<String>, offset: usize, len: usize) -> (r: Self)
        ensures
            r.label == label,
            r.offset == offset,
            r.len == len,
    {
        LabeledSpan { label, offset, len }
    }
}

/// A token other than the expected one was found: its text (`None` at the
/// end of the input) and where it is.
#[derive(Debug)]
pub struct UnexpectedToken {
    pub found: Option<String>,
    pub unexpected_span: LabeledSpan,
}

impl UnexpectedToken {
    /// What `description` says of this error.
    pub open spec fn describe(self) -> Seq<char> {
        match self.found {
            Some(text) => "Unexpected token. Found "@ + text@ + "."@,
            None => "Unexpected end of input."@,
        }
    }

    /// A sentence that describes the error: the text that was found, or
    /// that the input ended.
    pub fn description(&self) -> (r: String)
        ensures
            r@ == self.describe(),
    {
        match &self.found {
            Some(text) => {
                let mut r = String::from_str("Unexpected token. Found ");
                r.append(text.as_str());
                r.append(".");
                r
            },
            None => String::from_str("Unexpected end of input."),
        }
    }
}

/// An error report: a message and the labelled regions of source it points at.
#[derive(Debug)]
pub struct Report {
    pub message: String,
    pub labels: Vec<LabeledSpan>,
}

} // verus!
