//! Small generic helpers.

use core::ops::{Div, Sub};
use vstd::prelude::*;
use vstd::std_specs::ops::{DivSpec, SubSpec};

verus! {

/// Where `x` lies between `min` and `max`, as the ratio of its distance from `min` to the
/// distance between the two bounds.
pub fn _normalize<T>(x: T, min: T, max: T) -> (ratio: <<T as Sub>::Output as Div>::Output) where
    T: Div + Sub + Copy,
    <T as Sub>::Output: Div,

    requires
        T::obeys_sub_spec(),
        x.sub_req(min),
        max.sub_req(min),
        x.sub_spec(min).div_req(max.sub_spec(min)),
    ensures
        <T as Sub>::Output::obeys_div_spec() ==> ratio == x.sub_spec(min).div_spec(
            max.sub_spec(min),
        ),
{
    (x - min) / (max - min)
}

/// The three components of a triple, in order.
pub fn _flatten_tuple<T>(tuple: (T, T, T)) -> (flat: [T; 3])
    ensures
        flat@ == seq![tuple.0, tuple.1, tuple.2],
{
    [tuple.0, tuple.1, tuple.2]
}

} // verus!
