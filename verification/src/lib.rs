//! A codec between a dynamically shaped value model and a compact textual
//! notation, with every function proved against a mathematical model of the
//! notation.
//!
//! # The notation
//!
//! | value | text |
//! |---|---|
//! | null | `null` |
//! | boolean | `true`, `false` |
//! | 32-bit integer | `-12` |
//! | 32-bit float | `15e-1`; the decoder also reads `1.5` and `1.5e0` |
//! | string | `"a\"b"`; the escapes are `\"`, `\\`, `\n`, `\t`, `\r` |
//! | array | `[1,2]` |
//! | map | `{"a":1,"b":2}` |
//! | variant | `@"Tag"` and the payload |
//! | node | `#[1,2]` or `#{"x":1}` |
//!
//! Blanks, tabs, line feeds and carriage returns may stand between tokens.
pub mod de;
pub mod decoding;
pub mod encoding;
pub mod error;
pub mod grammar;
pub mod laws;
pub mod readback;
pub mod ser;
pub mod value;

pub use crate::de::{from_str, Deserializer};
pub use crate::error::Error;
pub use crate::ser::{to_string, Serializer};
pub use crate::value::{Decimal, Node, Shape, Value};
