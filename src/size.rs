use vstd::prelude::*;

verus! {

/// How many bytes every value of a type encodes to.
#[derive(Clone, Copy, Debug, PartialEq, Eq, Structural)]
pub enum Size {
    /// Every value encodes to exactly this many bytes.
    Fixed(usize),
    /// The encoded length depends on the value.
    Variable,
}

/// The size of a value made of a part of size `a` followed by a part of size `b`.
pub open spec fn spec_compose(a: Size, b: Size) -> Size {
    match (a, b) {
        (Size::Fixed(x), Size::Fixed(y)) => Size::Fixed((x + y) as usize),
        _ => Size::Variable,
    }
}

impl Size {
    pub fn fixed(n: usize) -> (s: Size)
        ensures
            s == Size::Fixed(n),
    {
        Size::Fixed(n)
    }

    pub fn variable() -> (s: Size)
        ensures
            s == Size::Variable,
    {
        Size::Variable
    }

    pub fn is_fixed(&self) -> (r: bool)
        ensures
            r == (*self is Fixed),
    {
        match self {
            Size::Fixed(_) => true,
            Size::Variable => false,
        }
    }

    /// Composes the sizes of two consecutive parts: fixed only when both are.
    pub fn compose(self, other: Size) -> (s: Size)
        requires
            (self, other) matches (Size::Fixed(x), Size::Fixed(y)) ==> x + y <= usize::MAX,
        ensures
            s == spec_compose(self, other),
    {
        match (self, other) {
            (Size::Fixed(x), Size::Fixed(y)) => Size::Fixed(x + y),
            _ => Size::Variable,
        }
    }
}

} // verus!
