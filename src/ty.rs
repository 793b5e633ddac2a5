//! Small values of the typing layer: approximation records and type names.

use vstd::prelude::*;

verus! {

/// The text that `{:?}` gives for a string: quoted, with escapes.
pub uninterp spec fn debug_of(s: Seq<char>) -> Seq<char>;

/// Relies on std's `Debug` for `str`, through `format!("{:?}", ..)`: the
/// result depends on the characters alone.
#[verifier::external_body]
fn debug_text(s: &str) -> (r: String)
    ensures
        r@ == debug_of(s@),
{
    format!("{:?}", s)
}

/// A typing operation could not give a precise result and approximated.
#[derive(Clone, Debug, Hash, PartialEq, Eq, PartialOrd, Ord)]
pub struct Approximation {
    /// The kind of approximation, e.g. `"Unknown type"`.
    pub category: String,
    /// What was approximated, as `{:?}` renders it.
    pub message: String,
}

impl Approximation {
    /// An approximation of kind `category` about `message`.
    pub fn new(category: &str, message: &str) -> (r: Approximation)
        ensures
            r.category@ == category@,
            r.message@ == debug_of(message@),
    {
        Approximation { category: category.to_owned(), message: debug_text(message) }
    }
}

/// The name of an atomic type.
#[derive(Clone, Debug, Hash, PartialEq, Eq, PartialOrd, Ord)]
pub struct TyName(String);

impl TyName {
    pub closed spec fn name(&self) -> Seq<char> {
        self.0@
    }

    /// The type named `name`.
    pub fn new(name: &str) -> (r: TyName)
        ensures
            r.name() == name@,
    {
        TyName(name.to_owned())
    }

    /// The name.
    pub fn as_str(&self) -> (r: &str)
        ensures
            r@ == self.name(),
    {
        self.0.as_str()
    }
}

} // verus!
