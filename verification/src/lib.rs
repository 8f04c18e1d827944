//! A minimal character-style in-memory device: a fixed-size byte buffer
//! with bounds-checked reads and writes.
//!
//! The buffer has a fixed length of [`device::BUFFER_SIZE`] bytes. A read
//! copies bytes starting at an offset, up to the destination capacity; a
//! write either fits entirely within the buffer or is rejected as a whole,
//! transferring zero bytes. Out-of-range offsets are not errors: they yield
//! zero-byte transfers, which callers interpret as end-of-data.

pub mod device;
