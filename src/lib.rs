//! A codec between a structured value model and the relaxed property notation
//! used by the audio server's configuration subsystem.
pub mod de;
pub mod error;
pub mod laws;
pub mod pw;
pub mod ser;
pub mod text;
pub mod value;

pub use crate::de::from_str;
pub use crate::error::{Error, ErrorCode};
pub use crate::ser::{to_string, to_string_pretty, to_vec, to_vec_pretty};
pub use crate::value::{Number, Value};
