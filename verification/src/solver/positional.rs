use vstd::prelude::*;

use super::{StackValue, ValueModel};
use PositionalConstraint as PC;

verus! {

/// The abstract value of a [`PositionalConstraint`].
pub enum PcModel {
    AnyByte,
    PositionalByte(usize),
    ExactByte(u8),
    AnyQuotation,
    PositionalQuotation(usize),
    ExactQuotation(Seq<char>),
}

impl PcModel {
    pub open spec fn is_byte(self) -> bool {
        self is AnyByte || self is PositionalByte || self is ExactByte
    }

    pub open spec fn is_quotation(self) -> bool {
        self is AnyQuotation || self is PositionalQuotation || self is ExactQuotation
    }

    /// Positional constraint 0 counts as Any for the purposes of solving.
    pub open spec fn is_any(self) -> bool {
        match self {
            PcModel::AnyByte | PcModel::AnyQuotation => true,
            PcModel::PositionalByte(n) | PcModel::PositionalQuotation(n) => n == 0,
            _ => false,
        }
    }

    pub open spec fn exact_value(self) -> Option<ValueModel> {
        match self {
            PcModel::ExactByte(u) => Some(ValueModel::Byte(u)),
            PcModel::ExactQuotation(s) => Some(ValueModel::Quotation(s)),
            _ => None,
        }
    }

    pub open spec fn variant_eq(self, other: PcModel) -> bool {
        ||| (self is AnyByte && other is AnyByte)
        ||| (self is AnyQuotation && other is AnyQuotation)
        ||| (self is PositionalByte && other is PositionalByte)
        ||| (self is PositionalQuotation && other is PositionalQuotation)
        ||| (self is ExactByte && other is ExactByte)
        ||| (self is ExactQuotation && other is ExactQuotation)
    }
}

/// Types of constraints:
///
/// - AnyByte: @
/// - PositionalByte: \[a-z\] (all a's must be equal, all b's must be equal, etc)
/// - ExactByte: 0-255
/// - AnyQuotation: ?
/// - PositionalQuotation: \[A-Z\] (all A's must be equal, all B's must be equal, etc)
/// - ExactQuotation: "..."
#[derive(Debug, Clone, PartialEq, Eq, Hash)]
pub enum PositionalConstraint {
    AnyByte,
    PositionalByte(usize),
    ExactByte(u8),
    AnyQuotation,
    PositionalQuotation(usize),
    ExactQuotation(String),
}

impl View for PositionalConstraint {
    type V = PcModel;

    open spec fn view(&self) -> PcModel {
        match self {
            PositionalConstraint::AnyByte => PcModel::AnyByte,
            PositionalConstraint::PositionalByte(n) => PcModel::PositionalByte(*n),
            PositionalConstraint::ExactByte(b) => PcModel::ExactByte(*b),
            PositionalConstraint::AnyQuotation => PcModel::AnyQuotation,
            PositionalConstraint::PositionalQuotation(n) => PcModel::PositionalQuotation(*n),
            PositionalConstraint::ExactQuotation(s) => PcModel::ExactQuotation(s@),
        }
    }
}

/// Maps an optional stack value to its model.
pub open spec fn value_option_model(v: Option<StackValue>) -> Option<ValueModel> {
    match v {
        Some(x) => Some(x@),
        None => None,
    }
}

impl PositionalConstraint {
    /// Unwraps as ExactByte(u) or ExactQuotation(s)
    ///
    /// # Returns
    ///
    /// - Some(Byte(u)) if the constraint is ExactByte(u)
    /// - Some(Quotation(s)) if the constraint is ExactQuotation(s)
    /// - None otherwise
    pub fn exact_value(&self) -> (r: Option<StackValue>)
        ensures
            value_option_model(r) == self@.exact_value(),
    {
        match self {
            PositionalConstraint::ExactByte(u) => Some(StackValue::Byte(*u)),
            PositionalConstraint::ExactQuotation(s) => Some(StackValue::Quotation(s.clone())),
            _ => None,
        }
    }

    /// Returns true if 2 positional constraints are of the same type
    pub fn variant_eq(&self, other: &Self) -> (r: bool)
        ensures
            r == self@.variant_eq(other@),
    {
        matches!(
            (self, other),
            (PC::AnyByte, PC::AnyByte) | (PC::AnyQuotation, PC::AnyQuotation) | (
                PC::PositionalByte(_),
                PC::PositionalByte(_),
            ) | (PC::PositionalQuotation(_), PC::PositionalQuotation(_)) | (
                PC::ExactByte(_),
                PC::ExactByte(_),
            ) | (PC::ExactQuotation(_), PC::ExactQuotation(_))
        )
    }

    /// Returns if this PC is of type Byte
    pub fn is_byte(&self) -> (r: bool)
        ensures
            r == self@.is_byte(),
    {
        matches!(
            self,
            PositionalConstraint::AnyByte | PositionalConstraint::PositionalByte(_)
                | PositionalConstraint::ExactByte(_)
        )
    }

    /// Returns if this PC is of type Quotation
    pub fn is_quotation(&self) -> (r: bool)
        ensures
            r == self@.is_quotation(),
    {
        matches!(
            self,
            PositionalConstraint::AnyQuotation | PositionalConstraint::PositionalQuotation(_)
                | PositionalConstraint::ExactQuotation(_)
        )
    }

    /// Returns if this PC is of type Any.
    ///
    /// Positional constraint 0 are considered as Any for the purposes of solving
    pub fn is_any(&self) -> (r: bool)
        ensures
            r == self@.is_any(),
    {
        match self {
            PC::AnyByte | PC::AnyQuotation => true,
            PC::PositionalByte(n) | PC::PositionalQuotation(n) => *n == 0,
            _ => false,
        }
    }

    /// Copies a positional constraint.
    pub fn duplicate(&self) -> (r: PositionalConstraint)
        ensures
            r@ == self@,
    {
        match self {
            PositionalConstraint::AnyByte => PositionalConstraint::AnyByte,
            PositionalConstraint::PositionalByte(n) => PositionalConstraint::PositionalByte(*n),
            PositionalConstraint::ExactByte(b) => PositionalConstraint::ExactByte(*b),
            PositionalConstraint::AnyQuotation => PositionalConstraint::AnyQuotation,
            PositionalConstraint::PositionalQuotation(n) => PositionalConstraint::PositionalQuotation(
                *n,
            ),
            PositionalConstraint::ExactQuotation(s) => PositionalConstraint::ExactQuotation(
                s.clone(),
            ),
        }
    }
}

} // verus!
