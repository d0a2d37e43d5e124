use vstd::prelude::*;

verus! {

/// The kinds of data a cell's text may represent once interpreted. The
/// store itself types nothing — every cell is opaque text — so nothing in
/// this crate consumes the classification; it is the seam kept for
/// interpreting layers above the store.
#[derive(Debug, Clone, Copy, PartialEq, Eq, Structural, Hash)]
pub enum DataType {
    Bytes,
    String,
    UInt,
    IInt,
    F64,
    Bool,
    F32,
    Null,
}

} // verus!
