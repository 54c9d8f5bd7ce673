//! Format-preserving source rewriting: rule matches on a syntax tree become
//! byte-range patches, which are ordered, deduplicated and applied to the
//! source text. Whatever lies outside the patched ranges stays byte for byte.

pub mod collect;
pub mod collection;
pub mod imports;
pub mod patch;
pub mod prefix;
pub mod rules;
pub mod scan;
pub mod syntax;
pub mod text;
pub mod transform;

pub use collection::Collection;
pub use rules::{AddImport, ImportTransforms, ReplaceTextRule, TextMap, TransformOptions};
pub use transform::{transform_code, try_transform_code, TransformResult};
