//! Comparing two pictures on a terminal.
//!
//! - [`raster`], [`picture`], [`scale`], [`svg`] and [`vector`]: pictures, their
//!   sizes, and where they come from.
//! - [`compose`] and [`compare`]: putting two pictures into one.
//! - [`palette`], [`sixel`], [`graphics`] and [`halfblock`]: showing a picture by
//!   the protocols of terminals; [`repaint`] and [`screen`]: what that paints
//!   and prints.
//! - [`mode`], [`session`], [`status`] and [`frame`]: the interactive comparison
//!   and the still one.
//! - [`args`], [`protocol`] and [`terminal`]: the command line, and what the
//!   terminal is and can do.
//! - [`rounding`] and [`fraction`]: floating-point arithmetic on integers.
//! - [`text`], [`search`] and [`profile`]: smaller things.
pub mod args;
pub mod compare;
pub mod compose;
pub mod fraction;
pub mod frame;
pub mod graphics;
pub mod halfblock;
pub mod mode;
pub mod palette;
pub mod picture;
pub mod profile;
pub mod protocol;
pub mod raster;
pub mod repaint;
pub mod rounding;
pub mod scale;
pub mod screen;
pub mod search;
pub mod session;
pub mod sixel;
pub mod status;
pub mod svg;
pub mod terminal;
pub mod text;
pub mod vector;
