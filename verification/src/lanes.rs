use vstd::prelude::*;

verus! {

/// The mask that selects lane `index` alone.
pub open spec fn lane_mask_spec(index: int) -> Seq<bool> {
    Seq::new(4, |i: int| i == index)
}

/// The mask with lane `index` alone set.
pub fn lane_mask(index: usize) -> (m: [bool; 4])
    requires
        index < 4,
    ensures
        m@ == lane_mask_spec(index as int),
{
    let m = if index == 0 {
        [true, false, false, false]
    } else if index == 1 {
        [false, true, false, false]
    } else if index == 2 {
        [false, false, true, false]
    } else {
        [false, false, false, true]
    };
    assert(m@ =~= lane_mask_spec(index as int));
    m
}

/// Lane by lane, `a` where the mask is set and `b` where it is not.
pub fn select<T: Copy>(mask: [bool; 4], a: [T; 4], b: [T; 4]) -> (r: [T; 4])
    ensures
        forall|i: int| 0 <= i < 4 ==> #[trigger] r@[i] == if mask@[i] { a@[i] } else { b@[i] },
{
    [
        if mask[0] { a[0] } else { b[0] },
        if mask[1] { a[1] } else { b[1] },
        if mask[2] { a[2] } else { b[2] },
        if mask[3] { a[3] } else { b[3] },
    ]
}

/// `array` with lane `index` replaced by `value`, the other lanes kept.
pub fn replace_lane<T: Copy>(array: [T; 4], value: T, index: usize) -> (r: [T; 4])
    requires
        index < 4,
    ensures
        r@ == array@.update(index as int, value),
{
    let filter = lane_mask(index);
    let r = select(filter, [value, value, value, value], array);
    assert(r@ =~= array@.update(index as int, value));
    r
}

/// A four-lane boolean mask with lane `index` replaced by `value`.
pub fn replace_ps_m32x4(array: [bool; 4], value: bool, index: usize) -> (r: [bool; 4])
    requires
        index < 4,
    ensures
        r@ == array@.update(index as int, value),
{
    replace_lane(array, value, index)
}

/// Whether any lane of a mask is set.
pub fn any(mask: [bool; 4]) -> (r: bool)
    ensures
        r == exists|i: int| 0 <= i < 4 && mask@[i],
{
    mask[0] || mask[1] || mask[2] || mask[3]
}

} // verus!
