//! Platform status codes: zero is success, anything else is the error.

use vstd::prelude::*;

verus! {

/// `Ok(value)` for status 0; `Err(status)` for any other status.
pub fn result_from_status<T>(status: i32, value: T) -> (r: Result<T, i32>)
    ensures
        status == 0 ==> r == Ok::<T, i32>(value),
        status != 0 ==> r == Err::<T, i32>(status),
{
    if status == 0 {
        Ok(value)
    } else {
        Err(status)
    }
}

/// `Ok(())` for status 0; `Err(status)` for any other status.
pub fn unit_result_from_status(status: i32) -> (r: Result<(), i32>)
    ensures
        status == 0 ==> r == Ok::<(), i32>(()),
        status != 0 ==> r == Err::<(), i32>(status),
{
    result_from_status(status, ())
}

} // verus!
