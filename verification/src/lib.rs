use vstd::prelude::*;

pub mod decode;
pub mod encode;
pub mod primitive;
pub mod tree;
pub mod value;

verus! {

pub use crate::decode::decode_document;
pub use crate::decode::decode_envelope;
pub use crate::decode::decode_value;
pub use crate::encode::encode_document;
pub use crate::tree::lookup;
pub use crate::tree::materialize_tree;
pub use crate::tree::TreeNodeRecord;
pub use crate::value::DecodeError;
pub use crate::value::Document;
pub use crate::value::TagValue;

} // verus!
