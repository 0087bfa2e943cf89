//! The local store as the rest of murmur sees it: a map from keys to values that
//! may fail.

use vstd::prelude::*;
use vstd::string::*;

verus! {

/// Errors surfaced by the local store.
///
/// The engine's own error type is collapsed into a string, so that callers depend
/// only on murmur types.
#[derive(Debug)]
pub enum StoreError {
    Engine(String),
}

/// What a [`StoreError`] stands for.
pub enum StoreErrorView {
    Engine(Seq<char>),
}

impl View for StoreError {
    type V = StoreErrorView;

    open spec fn view(&self) -> StoreErrorView {
        match self {
            StoreError::Engine(text) => StoreErrorView::Engine(text@),
        }
    }
}

impl StoreErrorView {
    /// The error in words.
    pub open spec fn message(self) -> Seq<char> {
        match self {
            StoreErrorView::Engine(text) => "sable engine error: "@ + text,
        }
    }
}

impl StoreError {
    /// The error in words.
    pub fn message(&self) -> (r: String)
        ensures
            r@ == self@.message(),
    {
        match self {
            StoreError::Engine(text) => {
                let mut r: String = String::from_str("sable engine error: ");
                r.append(text.as_str());
                r
            },
        }
    }
}

impl Clone for StoreError {
    fn clone(&self) -> (r: Self)
        ensures
            r@ == self@,
    {
        match self {
            StoreError::Engine(text) => StoreError::Engine(text.clone()),
        }
    }
}

/// What the store holds.
pub type Data = Map<Seq<u8>, Seq<u8>>;

// ---- laws ----
/// What the engine says of an error is told word for word, behind what names the engine.
pub proof fn errors_end_with_the_engines_words(text: String, r: String, i: int)
    requires
        call_ensures(StoreError::message, (&StoreError::Engine(text),), r),
        0 <= i < text@.len(),
    ensures
        r@.len() == 20 + text@.len(),
        r@[20 + i] == text@[i],
        r@.take(20) == "sable engine error: "@,
{
    reveal_strlit("sable engine error: ");
    assert(r@.take(20) =~= "sable engine error: "@);
}

} // verus!
