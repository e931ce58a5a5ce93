//! The instruction-set extensions of the machine, as far as the kernels ask
//! for them.

use vstd::prelude::*;

verus! {

/// Which instruction-set extensions the processor offers. The caller finds
/// them out once, when the program starts; the predicates of the kernel
/// modules decide from them which kernels may be run.
#[derive(Clone, Copy, Debug, PartialEq, Eq)]
pub struct CpuFeatures {
    pub popcnt: bool,
    pub sse42: bool,
    pub avx2: bool,
    pub avx512f: bool,
    pub avx512bw: bool,
    pub avx512vbmi2: bool,
}

} // verus!
