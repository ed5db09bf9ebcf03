//! The logic of a packet logger for a game client: what the capture side puts on the
//! wire, how the viewer takes it apart again, and how it is shown.

pub mod bytes;
pub mod clock;
pub mod detour;
pub mod display;
pub mod dml;
pub mod game_hooks;
pub mod hook;
pub mod iat;
pub mod iat_memory;
pub mod injector;
pub mod kinp;
pub mod packet_log;
pub mod pipe;
pub mod schema;
pub mod session;
pub mod text;
pub mod wad;
pub mod xml;
