//! Builders that encode semi-structured values in the Variant binary format:
//! a metadata blob holding a shared dictionary of field names, and a value
//! blob holding typed primitives, arrays and objects.
pub mod builder;
pub mod encoding;
pub mod error;
pub mod metadata;
pub mod names;
pub mod reading;
pub mod value_buffer;
pub mod variant;

pub use builder::{ListBuilder, ObjectBuilder, ParentState, VariantBuilder, VariantBuilderExt};
pub use error::VariantError;
pub use metadata::MetadataBuilder;
pub use value_buffer::ValueBuffer;
pub use variant::{ShortString, Variant, VariantDecimal16, VariantDecimal4, VariantDecimal8};
