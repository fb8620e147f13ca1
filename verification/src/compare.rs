//! `<` and `partial_cmp` on values, entries and objects, by the order of
//! the `order` module.
use vstd::prelude::*;
use vstd::std_specs::cmp::PartialOrdSpecImpl;
use core::cmp::Ordering;
use crate::value::{Value, JValue};
use crate::object::{Object, Entry};
use crate::order::{
    value_order, entry_order, entry_model, value_compare, entry_compare, entries_order,
    entries_compare,
};

verus! {

/// The `Ordering` of a comparison result (-1, 0 or 1).
pub open spec fn ordering_of(c: int) -> Ordering {
    if c < 0 {
        Ordering::Less
    } else if c == 0 {
        Ordering::Equal
    } else {
        Ordering::Greater
    }
}

fn to_ordering(c: i8) -> (r: Ordering)
    ensures
        c < 0 ==> r == Ordering::Less,
        c == 0 ==> r == Ordering::Equal,
        c > 0 ==> r == Ordering::Greater,
{
    if c < 0 {
        Ordering::Less
    } else if c == 0 {
        Ordering::Equal
    } else {
        Ordering::Greater
    }
}

impl PartialOrd for Value {
    fn partial_cmp(&self, other: &Value) -> (r: Option<Ordering>) {
        Some(to_ordering(value_compare(self, other)))
    }
}

impl PartialOrdSpecImpl for Value {
    open spec fn obeys_partial_cmp_spec() -> bool {
        true
    }

    open spec fn partial_cmp_spec(&self, other: &Value) -> Option<Ordering> {
        Some(ordering_of(value_order(self.view_json(), other.view_json())))
    }
}

impl PartialOrd for Entry {
    fn partial_cmp(&self, other: &Entry) -> (r: Option<Ordering>) {
        Some(to_ordering(entry_compare(self, other)))
    }
}

impl PartialOrdSpecImpl for Entry {
    open spec fn obeys_partial_cmp_spec() -> bool {
        true
    }

    open spec fn partial_cmp_spec(&self, other: &Entry) -> Option<Ordering> {
        Some(ordering_of(entry_order(entry_model(*self), entry_model(*other))))
    }
}

impl PartialOrd for Object {
    fn partial_cmp(&self, other: &Object) -> (r: Option<Ordering>) {
        Some(to_ordering(entries_compare(&self.entries, &other.entries)))
    }
}

impl PartialOrdSpecImpl for Object {
    open spec fn obeys_partial_cmp_spec() -> bool {
        true
    }

    open spec fn partial_cmp_spec(&self, other: &Object) -> Option<Ordering> {
        Some(ordering_of(entries_order(self.view_json(), other.view_json())))
    }
}

} // verus!
