use vstd::prelude::*;

verus! {

/// Converts an integer field's value to a byte, keeping its low eight bits; the fields it is
/// used for hold values in `0..=255`.
pub struct U8Converter;

impl U8Converter {
    pub fn convert(&self, v: i64) -> (r: u8)
        ensures
            r as int == v % 256,
            0 <= v <= 255 ==> r == v,
    {
        let low = if v >= 0 {
            v % 256
        } else {
            255 - ((-(v + 1)) % 256)
        };
        low as u8
    }
}

} // verus!
