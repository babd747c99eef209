//! Key chords, a command registry and schema-described settings for an
//! interactive application.
//!
//! * [`chord`] turns a key and the modifiers held with it into the canonical
//!   string by which key bindings are stored and looked up.
//! * [`registry`] keeps the commands of an application in registration order
//!   and finds them by name and by key binding.
//! * [`schema`] describes the settings of an application field by field and
//!   registers one editing command per field.
//! * [`settings`] holds one value per field of a schema: the defaults, or
//!   what a settings document gives, read whole or not at all.
//! * [`value`] has the values that a setting can take and their kinds,
//!   [`error`] the ways in which loading and saving fail.

pub mod chord;
pub mod error;
pub mod registry;
pub mod schema;
pub mod settings;
pub mod value;
