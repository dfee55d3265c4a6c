//! Direct terminal graphics on the client side of a terminal multiplexer.
//!
//! A client that hands an image straight to its terminal sends a graphics
//! command and waits for the terminal's reply. The reply arrives in the same
//! byte stream as the keys the user types. This crate lifts that reply out of
//! the stream, forwards everything else byte for byte, and checks the control
//! data of a command before it is sent.
//!
//! [`ResponseMatcher`] knows which reply is awaited and for how long,
//! [`InputFilter`] separates replies from other input, and [`valid_control`]
//! checks outgoing control data. The modules whose names end in `_laws` state
//! and prove what holds of the operations, one by one and together.

pub mod bytes;
pub mod bytes_laws;
pub mod clock;
pub mod controls;
pub mod controls_laws;
pub mod filter;
pub mod filter_laws;
pub mod flag;
pub mod matcher;
pub mod matcher_laws;
pub mod operation_laws;

pub use controls::valid_control;
pub use filter::InputFilter;
pub use matcher::{Response, ResponseMatcher};
