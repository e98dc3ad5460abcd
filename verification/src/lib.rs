//! Choosing and switching the default output device of an audio server.
//!
//! The library decides; it never talks to the server itself. A caller hands
//! it what the server reported (the output devices, the current default, the
//! live streams) and carries out the requests it gets back.
//!
//! * [`device`]: the devices and streams as the server reports them.
//! * [`candidates`]: which devices may become the next default.
//! * [`select`]: the successor of the current default, with wrap-around.
//! * [`listing`]: the device list as shown to a user.
//! * [`text`]: that list as text, line by line.
//! * [`migrate`]: making a device the default and moving every stream onto it.
//! * [`error`]: what can go wrong.

pub mod candidates;
pub mod device;
pub mod error;
pub mod listing;
pub mod migrate;
pub mod select;
pub mod text;
