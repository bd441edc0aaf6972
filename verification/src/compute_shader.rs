//! Dispatch sizes for a compute shader that runs 128 invocations per
//! workgroup over an array of `num_values` elements.

use vstd::prelude::*;

verus! {

/// Invocations per workgroup, as the shaders declare with `@workgroup_size(128)`.
pub const WORKGROUP_SIZE: u32 = 128;

/// Workgroups along `x` in the two-dimensional dispatch.
pub const WORKGROUPS_X: u32 = 65535;

/// The workgroup counts `(x, y, z)` to dispatch: one-dimensional
/// `ceil(n / 128)` groups for `small` inputs, otherwise `65535` groups along
/// `x` and `(n + 127) / 65535` along `y`.
pub fn workgroup_counts(num_values: u32, small: bool) -> (counts: (u32, u32, u32))
    requires
        num_values + WORKGROUP_SIZE - 1 <= u32::MAX,
    ensures
        small ==> counts.0 == (num_values + 127) / 128 && counts.1 == 1 && counts.2 == 1,
        !small ==> counts.0 == 65535 && counts.1 == (num_values + 127) / 65535 && counts.2 == 1,
{
    let workgroup_size: u32 = WORKGROUP_SIZE;
    if small {
        let workgroups = (num_values + (workgroup_size - 1)) / workgroup_size;
        (workgroups, 1, 1)
    } else {
        let workgroups_x: u32 = WORKGROUPS_X;
        let workgroups_y = (num_values + (workgroup_size - 1)) / workgroups_x;
        (workgroups_x, workgroups_y, 1)
    }
}

/// A one-dimensional dispatch starts an invocation for every element, and
/// fewer than a full workgroup more.
pub proof fn lemma_small_dispatch_covers(num_values: u32)
    requires
        num_values + WORKGROUP_SIZE - 1 <= u32::MAX,
    ensures
        ({
            let groups = (num_values + 127) / 128;
            &&& groups * 128 >= num_values
            &&& groups * 128 < num_values + 128
        }),
{
}

} // verus!
