use vstd::prelude::*;

verus! {

/// The identifier part of a record address.
#[derive(Debug, Clone, PartialEq, Eq, PartialOrd)]
pub enum Id {
    Number(i64),
    String(String),
}

/// The mathematical value of an [`Id`].
pub enum IdView {
    Number(i64),
    Text(Seq<char>),
}

impl View for Id {
    type V = IdView;

    open spec fn view(&self) -> IdView {
        match self {
            Id::Number(n) => IdView::Number(*n),
            Id::String(s) => IdView::Text(s@),
        }
    }
}

impl Id {
    /// A copy of this identifier.
    pub fn copy(&self) -> (r: Id)
        ensures
            r@ == self@,
    {
        match self {
            Id::Number(n) => Id::Number(*n),
            Id::String(s) => Id::String(s.clone()),
        }
    }
}

} // verus!
