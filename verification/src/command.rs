//! Requests to run an outside program, built by the library and carried out
//! by the application, which hands the program's output back.
use vstd::prelude::*;

verus! {

/// A program to run and the arguments to give it.
pub struct CommandRequest {
    pub program: String,
    pub arguments: Vec<String>,
}

impl CommandRequest {
    /// The characters of each argument, in order.
    pub open spec fn argument_views(&self) -> Seq<Seq<char>> {
        self.arguments@.map_values(|a: String| a@)
    }
}

} // verus!
