//! Jump-to-label navigation: every match in the visible text gets a label of one or two
//! letters, and typing a label picks its match.
//!
//! The library decides; a host editor acts. The host hands [`Hopper::on_switch`] the text
//! and the visible range, and installs the overlays that come back. It hands each key to
//! [`Hopper::send_key`] and does what the [`KeyOutcome`] says: take overlays away, move the
//! selection, leave the mode. When the mode is left it calls [`Hopper::before_exit`] and
//! takes away whatever it still shows.
//!
//! - [`labels`]: the labels, no one the beginning of another.
//! - [`text`]: characters and the byte positions at which they begin.
//! - [`locate`]: the words and lines of a range, and the check of matches found by the host.
//! - [`overlay`]: what is drawn for a match, and how much of the text it hides.
//! - [`session`]: the mode itself, from entering it to the jump or the abort.
//! - [`theorems`]: what holds of every session.

pub mod labels;
pub mod locate;
pub mod overlay;
pub mod session;
pub mod text;
pub mod theorems;

pub use labels::key_seqs;
pub use locate::Span;
pub use overlay::{Glyph, Overlay, Role, BACKDROP_PRIORITY, LABEL_PRIORITY};
pub use session::{Entry, HopError, Hopper, Key, KeyOutcome, Pattern, Phase};
