//! A small game engine: the parts of it that decide, verified.
//!
//! `input` keeps track of which keys are held down, where the mouse is and
//! which key events happened during a frame; `image_data` decodes PNG images
//! and lays out their pixels for upload as a texture.

mod image_data;
mod input;

pub use image_data::{RgbaImage, TextureError};
pub use input::{events_after_close, InputEvent, InputState, Update};
