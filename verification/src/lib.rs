//! Namespace-scoped secret resolution and single-pass placeholder rendering.
//!
//! A configuration maps secret keys to values scoped to sets of namespaces.
//! For each namespace, templates containing `${identifier}` placeholders are
//! rendered by one non-recursive substitution pass; templates with
//! placeholders that no configured key resolves are skipped, and a rendered
//! document gets the namespace stamped into it where the template asks for it.

pub mod chars;
pub mod config;
pub mod inject;
pub mod pipeline;
pub mod placeholder;
pub mod vars;
