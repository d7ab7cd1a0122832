//! Verified core of an image comparison viewer: pixel operations, image
//! decoding front-ends, path filtering and ordering, and the grid state
//! machine that places image and folder cells.

pub mod decode;
pub mod exif;
pub mod folders;
pub mod loading;
pub mod paths;
pub mod pixels;
pub mod session;
pub mod state;
