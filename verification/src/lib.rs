//! An in-memory key/value store speaking the RESP wire format.
//!
//! The crate holds the verified core of the server: the RESP frame codec,
//! the shared database state with its TTL index, the command model, and the
//! per-connection session state machine. Socket handling and task plumbing
//! live outside the library and drive these functions.

pub mod bulk;
pub mod cmd;
pub mod frame;
pub mod db;
pub mod parse;
pub mod server;

use vstd::prelude::*;

verus! {

pub use vstd::string::StringSliceAdditionalSpecFns;

/// The TCP port the server listens on when none is given.
pub const DEFAULT_PORT: u16 = 6379;

/// The ASCII lowercase mapping used when matching command names.
pub open spec fn lower_byte(b: u8) -> u8 {
    if 65 <= b <= 90 {
        (b + 32) as u8
    } else {
        b
    }
}

/// Lowercase a byte string in place, ASCII-wise.
pub fn to_lowercase(s: &mut Vec<u8>)
    ensures
        final(s)@ == old(s)@.map_values(|b: u8| lower_byte(b)),
{
    let ghost orig: Seq<u8> = s@;
    let mut i: usize = 0;
    while i < s.len()
        invariant
            s@.len() == orig.len(),
            0 <= i <= s@.len(),
            forall|j: int| 0 <= j < i ==> s@[j] == lower_byte(orig[j]),
            forall|j: int| i <= j < s@.len() ==> s@[j] == orig[j],
        decreases s@.len() - i,
    {
        let b = s[i];
        if 65 <= b && b <= 90 {
            s.set(i, b + 32);
        }
        i = i + 1;
    }
    assert(s@ =~= orig.map_values(|b: u8| lower_byte(b)));
}

/// The bytes of a string slice, as a fresh vector.
pub fn str_bytes(s: &str) -> (v: Vec<u8>)
    ensures
        v@ == s.spec_bytes(),
{
    vstd::slice::slice_to_vec(s.as_bytes())
}

/// A fresh copy of a byte vector.
pub fn copy_bytes(v: &Vec<u8>) -> (r: Vec<u8>)
    ensures
        r@ == v@,
{
    vstd::slice::slice_to_vec(v.as_slice())
}

/// Compare two byte vectors for equality.
pub fn bytes_equal(a: &Vec<u8>, b: &Vec<u8>) -> (r: bool)
    ensures
        r <==> a@ == b@,
{
    if a.len() != b.len() {
        return false;
    }
    let mut i: usize = 0;
    while i < a.len()
        invariant
            a@.len() == b@.len(),
            0 <= i <= a@.len(),
            forall|j: int| 0 <= j < i ==> a@[j] == b@[j],
        decreases a@.len() - i,
    {
        if a[i] != b[i] {
            return false;
        }
        i = i + 1;
    }
    assert(a@ =~= b@);
    true
}

} // verus!
