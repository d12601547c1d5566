//! Driver core for SH1122-class grayscale OLED controllers.
//!
//! The driver keeps an in-memory framebuffer packed at 4 bits per pixel and
//! synchronizes it, in full or by sub-rectangle, to the device through an
//! injected bus transport (`Sh1122Interface`).

pub mod cmds;
pub mod dev;
pub mod ifce;
pub mod mock;

pub use dev::Sh1122Device;
pub use ifce::{BusOp, Framebuffer, Sh1122Interface, TransportError};
pub use mock::{BusRecord, RecordingInterface};
