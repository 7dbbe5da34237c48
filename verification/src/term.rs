//! Minimal ANSI color helpers. Whether color is on is decided by the caller
//! (the command line turns it on only for a terminal without `NO_COLOR`).

use vstd::prelude::*;
use crate::text::push_str;

verus! {

pub const RESET: &'static str = "\x1b[0m";
pub const BOLD: &'static str = "\x1b[1m";
pub const DIM: &'static str = "\x1b[2m";
pub const GREEN: &'static str = "\x1b[32m";
pub const YELLOW: &'static str = "\x1b[33m";
pub const CYAN: &'static str = "\x1b[36m";
pub const MAGENTA: &'static str = "\x1b[35m";
pub const BOLD_RED: &'static str = "\x1b[1;31m";

/// `s` wrapped in `code` ... `RESET` when color is on, `s` itself otherwise.
pub open spec fn painted(code: Seq<char>, s: Seq<char>, color: bool) -> Seq<char> {
    if color {
        code + s + RESET@
    } else {
        s
    }
}

/// Wrap `s` with `code` ... `RESET` only if color is enabled.
pub fn paint(code: &str, s: &str, color: bool) -> (r: String)
    ensures
        r@ == painted(code@, s@, color),
{
    let mut out = String::new();
    if color {
        push_str(&mut out, code);
        push_str(&mut out, s);
        push_str(&mut out, RESET);
    } else {
        push_str(&mut out, s);
    }
    out
}

} // verus!
