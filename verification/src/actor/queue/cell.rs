use vstd::prelude::*;

verus! {

/// `std::cell::Cell`, held opaque: Verus sees nothing of what the cell contains.
#[verifier::external_type_specification]
#[verifier::external_body]
#[verifier::reject_recursive_types(T)]
pub struct ExCell<T: ?Sized>(std::cell::Cell<T>);

/// Calls `std::cell::Cell::new`, which creates a cell containing `value`. Nothing is stated
/// of the result: what a cell contains is not visible to Verus.
#[verifier::external_body]
pub(crate) fn new_cell<T>(value: T) -> std::cell::Cell<T> {
    std::cell::Cell::new(value)
}

/// Calls `std::cell::Cell::replace`, which puts `value` into the cell and returns what the
/// cell contained before. Nothing is stated of the result: what a cell contains is not
/// visible to Verus, so the value returned is only known to be of its type (and so to keep
/// that type's invariant).
#[verifier::external_body]
pub(crate) fn replace_in_cell<T>(cell: &std::cell::Cell<T>, value: T) -> T {
    cell.replace(value)
}

} // verus!
