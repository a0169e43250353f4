//! Resolves translation placeholders such as `{{ 'menu.items.0.label' | translate }}`
//! against JSON dictionaries: a key path walks the dictionary tree, and each
//! placeholder whose key names a string is replaced by that string.
pub mod json;
pub mod key_path;
pub mod placeholder;
pub mod finder;
pub mod plan;
pub mod laws;
