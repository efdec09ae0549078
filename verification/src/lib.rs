//! A bidirectional one-to-one associative container.
//!
//! A [`BiMap`] keeps a set of `(key, value)` pairs and answers lookups in
//! either direction, while guaranteeing that every key maps to exactly one
//! value and every value to exactly one key.  The guarantee is stated as a
//! pair of mirrored `Map` views and proved for every operation.

mod bimap;
mod laws;
mod table;

pub use bimap::BiMap;
pub use bimap::CollisionError;
pub use bimap::collides;
pub use laws::lemma_empty_absent;
pub use laws::lemma_eq_is_view_eq;
pub use laws::lemma_insert_idempotent;
pub use laws::lemma_other_value_collides;
pub use laws::lemma_remove_all_keys_empties;
pub use laws::remove_keys_in_turn;
