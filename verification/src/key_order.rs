//! The comparison operators of internal keys, and the conversions between
//! a value kind and its byte.

use crate::codec::{
    timestamp_of, user_key_of, version_order, InternalKey, ParsedInternalKey, ValueKind,
};
use crate::lex::{same_bytes, Order};
use std::cmp::Ordering;
use vstd::prelude::*;
use vstd::std_specs::cmp::{PartialEqSpecImpl, PartialOrdSpecImpl};
use vstd::std_specs::convert::FromSpecImpl;

verus! {

/// The standard library's name for an outcome.
pub open spec fn std_order(order: Order) -> Ordering {
    match order {
        Order::Less => Ordering::Less,
        Order::Equal => Ordering::Equal,
        Order::Greater => Ordering::Greater,
    }
}

/// The standard library's name for an outcome.
pub fn to_std_order(order: Order) -> (r: Ordering)
    ensures
        r == std_order(order),
{
    match order {
        Order::Less => Ordering::Less,
        Order::Equal => Ordering::Equal,
        Order::Greater => Ordering::Greater,
    }
}

impl From<ValueKind> for u8 {
    fn from(v: ValueKind) -> (byte: u8) {
        v.to_u8()
    }
}

impl FromSpecImpl<ValueKind> for u8 {
    open spec fn obeys_from_spec() -> bool {
        true
    }

    open spec fn from_spec(v: ValueKind) -> u8 {
        v.spec_to_u8()
    }
}

impl From<u8> for ValueKind {
    fn from(v: u8) -> (kind: ValueKind) {
        ValueKind::from_u8(v)
    }
}

impl FromSpecImpl<u8> for ValueKind {
    open spec fn obeys_from_spec() -> bool {
        true
    }

    open spec fn from_spec(v: u8) -> ValueKind {
        ValueKind::spec_from_u8(v)
    }
}

impl<'a> PartialEq for ParsedInternalKey<'a> {
    /// Two keys are equal if they name the same version; the kind plays no
    /// part.
    fn eq(&self, other: &Self) -> (r: bool) {
        same_bytes(self.user_key, other.user_key) && self.timestamp == other.timestamp
    }
}

impl<'a> PartialEqSpecImpl for ParsedInternalKey<'a> {
    open spec fn obeys_eq_spec() -> bool {
        true
    }

    open spec fn eq_spec(&self, other: &Self) -> bool {
        self.user_key@ == other.user_key@ && self.timestamp == other.timestamp
    }
}

impl<'a> Eq for ParsedInternalKey<'a> {

}

impl<'a> PartialOrd for ParsedInternalKey<'a> {
    /// Keys order by user key, and under one user key the newer first.
    fn partial_cmp(&self, other: &Self) -> (r: Option<Ordering>) {
        Some(to_std_order(self.compare(other)))
    }
}

impl<'a> PartialOrdSpecImpl for ParsedInternalKey<'a> {
    open spec fn obeys_partial_cmp_spec() -> bool {
        true
    }

    open spec fn partial_cmp_spec(&self, other: &Self) -> Option<Ordering> {
        Some(
            std_order(
                version_order(self.user_key@, self.timestamp, other.user_key@, other.timestamp),
            ),
        )
    }
}

impl PartialEq for InternalKey {
    /// Two encoded keys are equal if their bytes are.
    fn eq(&self, other: &Self) -> (r: bool) {
        same_bytes(self.as_bytes(), other.as_bytes())
    }
}

impl PartialEqSpecImpl for InternalKey {
    open spec fn obeys_eq_spec() -> bool {
        true
    }

    open spec fn eq_spec(&self, other: &Self) -> bool {
        self@ == other@
    }
}

impl Eq for InternalKey {

}

impl PartialOrd for InternalKey {
    /// Encoded keys order as the versions that they name.
    fn partial_cmp(&self, other: &Self) -> (r: Option<Ordering>) {
        Some(to_std_order(self.compare(other)))
    }
}

impl PartialOrdSpecImpl for InternalKey {
    open spec fn obeys_partial_cmp_spec() -> bool {
        true
    }

    open spec fn partial_cmp_spec(&self, other: &Self) -> Option<Ordering> {
        Some(
            std_order(
                version_order(
                    user_key_of(self@),
                    timestamp_of(self@),
                    user_key_of(other@),
                    timestamp_of(other@),
                ),
            ),
        )
    }
}

} // verus!
