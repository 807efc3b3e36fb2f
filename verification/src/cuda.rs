//! The GPU runtime, as far as a build without it and the reading of its answers go.

use crate::error::FlipError;
use vstd::prelude::*;

verus! {

/// Free and total device memory, in bytes.
#[derive(Debug, Clone, Copy, PartialEq, Eq, Structural)]
pub struct DeviceMemory {
    pub free: u64,
    pub total: u64,
}

/// The code by which the GPU runtime says that a call succeeded.
pub const CUDA_SUCCESS: i32 = 0;

/// Free and total device memory. Without GPU support there is no device to ask.
pub fn mem_get_info() -> (r: Result<DeviceMemory, FlipError>)
    ensures
        r matches Err(FlipError::CudaUnavailable(api)) && api@ == "cudaMemGetInfo"@,
{
    Err(FlipError::CudaUnavailable("cudaMemGetInfo"))
}

/// Reads the answer of the GPU runtime to the question for its memory.
pub fn mem_info_of(code: i32, free: usize, total: usize) -> (r: Result<DeviceMemory, FlipError>)
    ensures
        code == 0 <==> r is Ok,
        code == CUDA_SUCCESS ==> (r matches Ok(m) && m.free == free && m.total == total),
        code != CUDA_SUCCESS ==> (r matches Err(FlipError::Cuda { api, code: c }) && api@
            == "cudaMemGetInfo"@ && c == code),
{
    if code != CUDA_SUCCESS {
        return Err(FlipError::Cuda { api: "cudaMemGetInfo", code });
    }
    Ok(DeviceMemory { free: free as u64, total: total as u64 })
}

/// Whether this library was built with GPU support.
pub fn is_available() -> (r: bool)
    ensures
        !r,
{
    false
}

} // verus!
