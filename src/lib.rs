//! A self-describing value tree with a width-preserving number model, text
//! codecs for JSON and a YAML subset, and the building blocks of a
//! visitor-style bridge between typed data and values.
pub mod bridge;
pub mod decode;
pub mod json;
pub mod number;
pub mod round_trip;
pub mod text;
pub mod value;
pub mod yaml;

pub use bridge::SerdeValueError;
pub use decode::Error;
pub use json::JsonMode;
pub use number::{Float, Number, NumberType};
pub use value::{DateTime, Object, ToValueBehavior, Value};
