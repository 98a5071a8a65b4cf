//! Streaming the pixels of an image to a pixelflut server, again and again.
//!
//! The library decides; it does no input or output of its own. Its caller
//! opens sockets, writes to them, sleeps and reports what happened, and is
//! told what to do next:
//!
//! - `wire` renders a pixel as one line of the protocol, or as nothing if
//!   the pixel is fully transparent;
//! - `transfer` pushes one such line through a non-blocking socket, however
//!   few bytes the socket takes at a time and however often it would block;
//! - `socket` reads the result of a write as an outcome for a transfer;
//! - `connection` keeps one socket handle and replaces it after a failure;
//! - `stripe` cuts the image into stripes and walks one of them forever;
//! - `raster` is what the stripes know of the decoded image.

pub mod pixel;
pub mod wire;
pub mod transfer;
pub mod socket;
pub mod connection;
pub mod raster;
pub mod stripe;
