//! Brightness control for monitors that answer over DDC/CI, over a Wayland
//! gamma table, or over both.
//!
//! - `brightness` splits a wanted brightness between the two controls;
//!   `binary64` and `rounding` are the arithmetic that it is done in.
//! - `drm`, `ddc`, `grouping` and `backend` find monitors behind I2C buses and
//!   write to them.
//! - `gamma` keeps the outputs of a Wayland compositor.
//! - `adjustment`, `config` and `manager` are the daemon: what is wanted of a
//!   display, and how it is led there. `settling` is the law that a refresh
//!   restores what is saved, and that the next one finds it settled.
//! - `request` checks what is asked for, and `applet` is the state behind the
//!   sliders.
//! - `model`, `text`, `order` and `keyed` are what the others are built on.

pub mod model;
pub mod text;
pub mod order;
pub mod keyed;
pub mod rounding;
pub mod binary64;
pub mod brightness;
pub mod drm;
pub mod ddc;
pub mod grouping;
pub mod backend;
pub mod gamma;
pub mod adjustment;
pub mod config;
pub mod manager;
pub mod settling;
pub mod request;
pub mod applet;
