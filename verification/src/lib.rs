//! Keeps ingress metadata annotations in sync with values stored in a
//! companion secret: placeholder tokens of the form `$key$` inside annotation
//! values are replaced by the secret's value for `key`, and a journal of the
//! pre-substitution originals is kept in a reserved state annotation so that
//! repeated runs and secret rotations stay idempotent.

pub mod order;
pub mod keys;
pub mod strmap;
pub mod journal;
pub mod laws;
pub mod reconcile;
pub mod secret;
pub mod template;
pub mod engine;

