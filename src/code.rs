use vstd::prelude::*;

pub mod divisibility;
pub mod reed_solomon;

verus! {

/// A block code: messages of a fixed length map to codewords of a fixed length.
pub trait Code: Sized {
    type Symbol;

    type Error;

    /// The code's parameters are consistent.
    spec fn code_wf(&self) -> bool;

    /// Number of symbols in a message.
    spec fn message_size(&self) -> nat;

    /// Number of symbols in a codeword.
    spec fn code_size(&self) -> nat;

    /// `code` is what `encode` makes of `message`.
    spec fn encodes(&self, message: Seq<Self::Symbol>, code: Seq<Self::Symbol>) -> bool;

    /// `result` is what `decode` makes of `code`.
    spec fn decodes(&self, code: Seq<Self::Symbol>, result: Result<Vec<Self::Symbol>, Self::Error>) -> bool;

    fn code_len(&self) -> (r: usize)
        ensures
            r == self.code_size(),
    ;

    fn message_len(&self) -> (r: usize)
        ensures
            r == self.message_size(),
    ;

    fn encode(&self, message: &Vec<Self::Symbol>) -> (r: Vec<Self::Symbol>)
        requires
            self.code_wf(),
            message@.len() == self.message_size(),
        ensures
            r@.len() == self.code_size(),
            self.encodes(message@, r@),
    ;

    fn decode(&self, code: &Vec<Self::Symbol>) -> (r: Result<Vec<Self::Symbol>, Self::Error>)
        requires
            self.code_wf(),
            code@.len() == self.code_size(),
        ensures
            r matches Ok(m) ==> m@.len() == self.message_size(),
            self.decodes(code@, r),
    ;
}

} // verus!
