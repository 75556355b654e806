use vstd::prelude::*;

verus! {

/// The interface languages.
#[derive(Debug, Clone, Copy, PartialEq, Eq, Structural)]
pub enum Language {
    English,
    Polish,
    Russian,
}

impl Default for Language {
    /// English.
    fn default() -> (l: Self)
        ensures
            l == Language::English,
    {
        Language::English
    }
}

} // verus!
