//! Reading bencoded data value by value from a cursor over its bytes.
pub mod de;
pub mod error;
