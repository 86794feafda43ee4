//! Audio buffers and the files they are read from and written to.
pub mod buffer;
pub mod io_read;
pub mod io_write;
pub mod planar;
