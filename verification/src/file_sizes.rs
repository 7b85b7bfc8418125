//! Byte-size units and human-readable size formatting.

use crate::text::spec_dec;
use crate::text::u64_to_dec_string;
use vstd::prelude::*;
use vstd::string::StringExecFns;

verus! {

pub const KILOBYTE: usize = 1000;

pub const MEGABYTE: usize = 1000 * 1000;

pub const GIGABYTE: usize = 1000 * 1000 * 1000;

/// `size` rendered with the largest unit it reaches, the quotient truncated
/// to a whole number of that unit.
pub open spec fn spec_format_size(size: usize) -> Seq<char> {
    if size >= GIGABYTE {
        spec_dec((size / GIGABYTE) as nat) + " GB"@
    } else if size >= MEGABYTE {
        spec_dec((size / MEGABYTE) as nat) + " MB"@
    } else if size >= KILOBYTE {
        spec_dec((size / KILOBYTE) as nat) + " KB"@
    } else {
        spec_dec(size as nat) + " bytes"@
    }
}

/// Converts a byte count into a human-readable form (bytes, KB, MB, GB).
pub fn format_size(size: usize) -> (r: String)
    ensures
        r@ == spec_format_size(size),
{
    if size >= GIGABYTE {
        let mut s = u64_to_dec_string((size / GIGABYTE) as u64);
        s.append(" GB");
        s
    } else if size >= MEGABYTE {
        let mut s = u64_to_dec_string((size / MEGABYTE) as u64);
        s.append(" MB");
        s
    } else if size >= KILOBYTE {
        let mut s = u64_to_dec_string((size / KILOBYTE) as u64);
        s.append(" KB");
        s
    } else {
        let mut s = u64_to_dec_string(size as u64);
        s.append(" bytes");
        s
    }
}

} // verus!
