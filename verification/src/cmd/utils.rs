//! Small helpers shared by command handling and by clients.

use vstd::prelude::*;

use crate::frame::acceptable_decimal;
use crate::frame::dec_val;
use crate::frame::parse_strict_decimal;
use crate::StringSliceAdditionalSpecFns;

verus! {

/// Read a millisecond duration from decimal text.
pub fn duration_from_ms_str(src: &str) -> (r: Result<u64, ()>)
    ensures
        match r {
            Ok(ms) => acceptable_decimal(src.spec_bytes()) && ms == dec_val(src.spec_bytes()),
            Err(()) => !acceptable_decimal(src.spec_bytes()),
        },
{
    match parse_strict_decimal(src.as_bytes()) {
        Some(ms) => Ok(ms),
        None => Err(()),
    }
}

} // verus!
