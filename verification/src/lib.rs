//! Verified core of a DXF cleaner: the DXF group-code reader, the DXF text
//! writer, and the bookkeeping of the command line and the window.
pub mod text;
pub mod dxf_read;
pub mod dxf_write;
pub mod gui;
pub mod cli;
pub mod convert;
pub mod svg_read;
pub mod icon;
