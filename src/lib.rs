//! Validation of the item form that a modal dialog edits, and the dialog's
//! own state machine.

pub mod item;
pub mod modal;
