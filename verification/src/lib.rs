//! Hald colour lookup tables: the layout of an identity Hald image, its
//! inversion, and the rendering of a bordered, marked Hald image.

pub mod canvas;
pub mod grid_overlay;
pub mod hald_frame;
pub mod hald_generator;
pub mod laws;
pub mod layout;
pub mod operation_laws;
pub mod pixel;
pub mod reconstruct;
pub mod tones;
