//! What holds of the reader as a whole: how the bytes of a file and what is read from them
//! relate.
pub mod blocks;
pub mod chains;
pub mod compressed;
pub mod encoding;
pub mod files;
pub mod layouts;
pub mod records;
pub mod signals;
pub mod values;
pub mod views;
pub mod walks;
