use vstd::prelude::*;

verus! {

/// Why terrain generation failed.
pub enum GenerationError {
    /// No block is registered under this name.
    BlockNotFoundError(String),
}

pub open spec fn block_not_found_message(name: Seq<char>) -> Seq<char> {
    "failed to find block entry for '"@ + name + "'"@
}

impl GenerationError {
    /// The error's description.
    pub fn message(&self) -> (r: String)
        ensures
            self matches GenerationError::BlockNotFoundError(name) ==> r@ == block_not_found_message(name@),
    {
        match self {
            GenerationError::BlockNotFoundError(name) => {
                let mut r = String::from_str("failed to find block entry for '");
                r.append(name.as_str());
                r.append("'");
                r
            },
        }
    }
}

} // verus!
