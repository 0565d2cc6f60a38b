//! Colours typed in by the user as three decimal components.
use vstd::prelude::*;

use crate::log_line::Color;
use crate::text::{number_value, parse_number};

verus! {

/// A colour component read from text: a number up to 255, else nothing.
pub open spec fn component(s: Seq<char>) -> Option<u8> {
    match number_value(s) {
        Some(v) => if v <= 255 { Some(v as u8) } else { None },
        None => None,
    }
}

/// Reads a colour from its three components. `None` when none of them is a
/// number up to 255; otherwise the components that are not count as 0.
pub fn parse_color(r: &str, g: &str, b: &str) -> (c: Option<Color>)
    ensures
        c == if component(r@) is None && component(g@) is None && component(b@) is None {
            None::<Color>
        } else {
            Some(
                (
                    match component(r@) { Some(x) => x, None => 0u8 },
                    match component(g@) { Some(x) => x, None => 0u8 },
                    match component(b@) { Some(x) => x, None => 0u8 },
                ),
            )
        },
{
    let pr = parse_number(r, 255);
    let pg = parse_number(g, 255);
    let pb = parse_number(b, 255);
    if pr.is_none() && pg.is_none() && pb.is_none() {
        return None;
    }
    let cr: u8 = match pr { Some(x) => x as u8, None => 0 };
    let cg: u8 = match pg { Some(x) => x as u8, None => 0 };
    let cb: u8 = match pb { Some(x) => x as u8, None => 0 };
    Some((cr, cg, cb))
}

} // verus!
