use vstd::prelude::*;

pub mod command_processor;
pub mod database;
pub mod laws;
pub mod tokenizer;

verus! {

/// The character sequences of a list of strings.
pub open spec fn strings_view(v: Seq<String>) -> Seq<Seq<char>> {
    v.map_values(|t: String| t@)
}

} // verus!
