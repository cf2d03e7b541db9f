//! The constraint solver.
//!
//! Serotonin definitions may carry stack constraints such as `(a 0 @ S)`. A
//! definition is applicable to a stack state when the state is an element of the
//! set that its constraints describe.
use vstd::prelude::*;

pub mod definition;
pub mod positional;
pub mod union;

pub use definition::Constraint;
pub use positional::PositionalConstraint;
pub use union::Union;


verus! {

/// The abstract value of a [`StackValue`].
pub enum ValueModel {
    Byte(u8),
    Quotation(Seq<char>),
}

/// Serotonin constraints can only be applied when the stack arguments are constant byte values or quotations
#[derive(Debug, Clone, PartialEq, Eq, Hash)]
pub enum StackValue {
    Byte(u8),
    Quotation(String),
}

impl View for StackValue {
    type V = ValueModel;

    open spec fn view(&self) -> ValueModel {
        match self {
            StackValue::Byte(b) => ValueModel::Byte(*b),
            StackValue::Quotation(s) => ValueModel::Quotation(s@),
        }
    }
}

impl StackValue {
    /// Returns the byte value if the stack value is a byte
    pub fn byte(&self) -> (r: Option<u8>)
        ensures
            r == (match self@ {
                ValueModel::Byte(b) => Some(b),
                ValueModel::Quotation(_) => None::<u8>,
            }),
    {
        match self {
            StackValue::Byte(v) => Some(*v),
            _ => None,
        }
    }

    /// Returns the quotation value if the stack value is a quotation
    pub fn quotation(&self) -> (r: Option<&String>)
        ensures
            match self {
                StackValue::Quotation(s) => r == Some(s),
                StackValue::Byte(_) => r.is_none(),
            },
    {
        match self {
            StackValue::Quotation(s) => Some(s),
            _ => None,
        }
    }

    /// Returns if the stack value is a byte
    pub fn is_byte(&self) -> (r: bool)
        ensures
            r == (self@ is Byte),
    {
        matches!(self, StackValue::Byte(_))
    }

    /// Returns if the stack value is a quotation
    pub fn is_quotation(&self) -> (r: bool)
        ensures
            r == (self@ is Quotation),
    {
        matches!(self, StackValue::Quotation(_))
    }

    /// Compares two stack values by their contents.
    pub fn same_as(&self, other: &StackValue) -> (r: bool)
        ensures
            r == (self@ == other@),
    {
        match (self, other) {
            (StackValue::Byte(a), StackValue::Byte(b)) => *a == *b,
            (StackValue::Quotation(a), StackValue::Quotation(b)) => *a == *b,
            _ => false,
        }
    }

    /// Copies a stack value.
    pub fn duplicate(&self) -> (r: StackValue)
        ensures
            r@ == self@,
    {
        match self {
            StackValue::Byte(b) => StackValue::Byte(*b),
            StackValue::Quotation(s) => StackValue::Quotation(s.clone()),
        }
    }
}

/// The abstract value of a [`Reduction`].
pub enum ReductionModel {
    ExactByte(u8),
    AnyByte,
    ExactQuotation(Seq<char>),
    AnyQuotation,
}

impl ReductionModel {
    pub open spec fn is_byte(self) -> bool {
        self is ExactByte || self is AnyByte
    }

    /// The reduction that assigns no particular value of the given kind.
    pub open spec fn any(is_byte: bool) -> ReductionModel {
        if is_byte {
            ReductionModel::AnyByte
        } else {
            ReductionModel::AnyQuotation
        }
    }

    /// The reduction that assigns exactly the given value.
    pub open spec fn exact(v: ValueModel) -> ReductionModel {
        match v {
            ValueModel::Byte(b) => ReductionModel::ExactByte(b),
            ValueModel::Quotation(s) => ReductionModel::ExactQuotation(s),
        }
    }
}

/// A value given to the first positional constraint while solving subset problems.
#[derive(Debug, Clone, PartialEq, Eq, Hash)]
pub enum Reduction {
    ExactByte(u8),
    AnyByte,
    ExactQuotation(String),
    AnyQuotation,
}

impl View for Reduction {
    type V = ReductionModel;

    open spec fn view(&self) -> ReductionModel {
        match self {
            Reduction::ExactByte(b) => ReductionModel::ExactByte(*b),
            Reduction::AnyByte => ReductionModel::AnyByte,
            Reduction::ExactQuotation(s) => ReductionModel::ExactQuotation(s@),
            Reduction::AnyQuotation => ReductionModel::AnyQuotation,
        }
    }
}

impl From<StackValue> for Reduction {
    fn from(value: StackValue) -> (r: Self) {
        match value {
            StackValue::Byte(b) => Reduction::ExactByte(b),
            StackValue::Quotation(s) => Reduction::ExactQuotation(s),
        }
    }
}

impl vstd::std_specs::convert::FromSpecImpl<StackValue> for Reduction {
    open spec fn obeys_from_spec() -> bool {
        true
    }

    open spec fn from_spec(value: StackValue) -> Reduction {
        match value {
            StackValue::Byte(b) => Reduction::ExactByte(b),
            StackValue::Quotation(s) => Reduction::ExactQuotation(s),
        }
    }
}

impl TryFrom<PositionalConstraint> for Reduction {
    type Error = ();

    fn try_from(value: PositionalConstraint) -> (r: Result<Self, Self::Error>) {
        match value {
            PositionalConstraint::AnyByte => Ok(Reduction::AnyByte),
            PositionalConstraint::ExactByte(b) => Ok(Reduction::ExactByte(b)),
            PositionalConstraint::AnyQuotation => Ok(Reduction::AnyQuotation),
            PositionalConstraint::ExactQuotation(s) => Ok(Reduction::ExactQuotation(s)),
            PositionalConstraint::PositionalByte(n) => {
                if n == 0 {
                    Ok(Reduction::AnyByte)
                } else {
                    Err(())
                }
            },
            PositionalConstraint::PositionalQuotation(n) => {
                if n == 0 {
                    Ok(Reduction::AnyQuotation)
                } else {
                    Err(())
                }
            },
        }
    }
}

impl vstd::std_specs::convert::TryFromSpecImpl<PositionalConstraint> for Reduction {
    open spec fn obeys_try_from_spec() -> bool {
        true
    }

    open spec fn try_from_spec(value: PositionalConstraint) -> Result<Reduction, ()> {
        match value {
            PositionalConstraint::AnyByte => Ok(Reduction::AnyByte),
            PositionalConstraint::ExactByte(b) => Ok(Reduction::ExactByte(b)),
            PositionalConstraint::AnyQuotation => Ok(Reduction::AnyQuotation),
            PositionalConstraint::ExactQuotation(s) => Ok(Reduction::ExactQuotation(s)),
            PositionalConstraint::PositionalByte(n) => if n == 0 {
                Ok(Reduction::AnyByte)
            } else {
                Err(())
            },
            PositionalConstraint::PositionalQuotation(n) => if n == 0 {
                Ok(Reduction::AnyQuotation)
            } else {
                Err(())
            },
        }
    }
}

impl Reduction {
    /// The reduction that assigns no particular value of the given kind.
    pub fn new_any(is_byte: bool) -> (r: Self)
        ensures
            r@ == ReductionModel::any(is_byte),
    {
        if is_byte {
            Reduction::AnyByte
        } else {
            Reduction::AnyQuotation
        }
    }

    pub fn is_byte(&self) -> (r: bool)
        ensures
            r == self@.is_byte(),
    {
        matches!(self, Reduction::ExactByte(_) | Reduction::AnyByte)
    }

    pub fn is_quotation(&self) -> (r: bool)
        ensures
            r == !self@.is_byte(),
    {
        matches!(self, Reduction::ExactQuotation(_) | Reduction::AnyQuotation)
    }

    pub fn byte(&self) -> (r: Option<u8>)
        ensures
            r == (match self@ {
                ReductionModel::ExactByte(b) => Some(b),
                _ => None::<u8>,
            }),
    {
        match self {
            Reduction::ExactByte(b) => Some(*b),
            _ => None,
        }
    }

    pub fn quotation(&self) -> (r: Option<&String>)
        ensures
            match self {
                Reduction::ExactQuotation(s) => r == Some(s),
                _ => r.is_none(),
            },
    {
        match self {
            Reduction::ExactQuotation(s) => Some(s),
            _ => None,
        }
    }
}

} // verus!
