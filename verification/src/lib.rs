//! Strict JSON parsing, printing and mapping library.
pub mod array;
pub mod code_map;
pub mod kind;
pub mod number;
pub mod object;
pub mod value;
pub mod order;
pub mod compare;
pub mod try_from;
pub mod fragment;
pub mod unordered;

pub use code_map::CodeMap;
pub use number::NumberBuf;
pub use object::Object;
pub use value::{JValue, Value};
pub mod parse;
pub mod print;
pub use unordered::{BorrowUnordered, Unordered, UnorderedEq, UnorderedHash, UnorderedPartialEq};
pub use kind::{Kind, KindSet};
pub use parse::document::Parse;
pub use print::Print;
pub use try_from::{NumberType, TryFromJson, TryFromJsonObject, TryIntoNumberError, Unexpected};
pub use fragment::FragmentRef;
pub use array::JsonArray;
