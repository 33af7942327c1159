//! Configuration of a file-backed map: the record format and the
//! integrity mode.

use vstd::prelude::*;
use crate::integrity::Integrity;

verus! {

/// Format of stored data, binary or text.
#[derive(Clone, Copy)]
pub enum Format {
    /// Text format: each operation is one line ending with a newline,
    /// starting with `ins ` or `rem `, followed by the encoded data and,
    /// optionally, an integrity tag after a space.
    Text,
    /// Binary format: each operation is a length-prefixed block holding an
    /// opcode byte, the encoded data and, optionally, trailing integrity
    /// bytes.
    Bin,
}

/// Config of a file-backed map.
pub struct Cfg {
    /// Format of stored data, binary or text.
    pub format: Format,
    /// Method of controlling the integrity of stored data, if any.
    pub integrity: Option<Integrity>,
}

impl Default for Cfg {
    /// Default config: text format, no integrity.
    fn default() -> (r: Self)
        ensures
            r.format is Text,
            r.integrity is None,
    {
        Cfg { format: Format::Text, integrity: None }
    }
}

} // verus!
