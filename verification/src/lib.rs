//! Deterministic scheduling-laboratory core: workload decoding and the event kernel.
use vstd::prelude::*;

pub mod decode_laws;
pub mod fcfs;
pub mod input;
pub mod json;
pub mod kernel;
pub mod text;

use crate::text::{read_u32, u32_text};
use vstd::utf8::encode_utf8;

verus! {

/// Adds unsigned 32-bit operands modulo 2^32.
pub fn build_probe(left: u32, right: u32) -> (sum: u32)
    ensures
        sum == (left as int + right as int) % 0x1_0000_0000,
{
    left.wrapping_add(right)
}

/// The operands of the build probe given as command-line arguments: exactly two, each
/// read as a `u32`.
pub open spec fn probe_operands(args: Seq<String>) -> Option<(u32, u32)> {
    if args.len() == 2 {
        match (u32_text(encode_utf8(args[0]@)), u32_text(encode_utf8(args[1]@))) {
            (Some(a), Some(b)) => Some((a, b)),
            _ => None,
        }
    } else {
        None
    }
}

/// Reads the build probe's operands from the command-line arguments.
pub fn probe_args(args: &Vec<String>) -> (r: Option<(u32, u32)>)
    ensures
        r == probe_operands(args@),
{
    if args.len() != 2 {
        return None;
    }
    let a = read_u32(args[0].as_str().as_bytes());
    let b = read_u32(args[1].as_str().as_bytes());
    match (a, b) {
        (Some(x), Some(y)) => Some((x, y)),
        _ => None,
    }
}

} // verus!
