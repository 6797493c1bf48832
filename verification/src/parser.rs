pub mod bounds;
pub mod patterns;
pub mod predicates;
pub mod reader;
pub mod source;
pub mod utf8;

pub use bounds::URangeBounds;
pub use patterns::Pattern;
pub use predicates::{
    alphabetic, alphanumeric, any, ascii, bindigit, digit, hexdigit, newline, octdigit, whitespace,
    xid_continue, xid_start, Class, Nor, Not, Or, Predicate,
};
pub use reader::{ReadError, Utf8Reader};
pub use source::{ByteSource, NoSource, SliceSource};
pub use utf8::Utf8Fault;
