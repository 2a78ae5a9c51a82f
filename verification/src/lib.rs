use vstd::prelude::*;

pub mod area;
pub mod arith;
pub mod bounds;
pub mod clip;
pub mod collinear;
pub mod lines;
pub mod edges;
pub mod intervals;
pub mod layers;
pub mod overlay;
pub mod requests;
pub mod scene;
pub mod validate;
pub mod wire;

verus! {

/// The version string of this kernel, as ASCII bytes.
pub open spec fn spec_kernel_version() -> Seq<u8> {
    seq![0x30u8, 0x2eu8, 0x31u8, 0x2eu8, 0x30u8]
}

/// Returns the kernel's package version as ASCII bytes ("0.1.0").
pub fn kernel_version() -> (version: Vec<u8>)
    ensures
        version@ == spec_kernel_version(),
{
    let version: Vec<u8> = vec![0x30u8, 0x2eu8, 0x31u8, 0x2eu8, 0x30u8];
    version
}

} // verus!
