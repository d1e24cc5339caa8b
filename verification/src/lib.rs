//! Transcoding between UTF-8 text and the four wire forms of UTF-16:
//! little or big endian, with or without a leading byte-order mark.
//!
//! [`codec`] turns whole texts into whole buffers and back; [`ext`] offers
//! the same as methods on `&str` and `String`. [`reader`] and [`writer`]
//! do the work in pieces, for streams: they hold back what a piece leaves
//! unfinished, and are proved to give, over any cutting of the input, what
//! the codec gives on the whole.

pub mod bytes;
pub mod codec;
pub mod error;
pub mod ext;
pub mod reader;
pub mod units;
pub mod utf8;
pub mod variant;
pub mod writer;

pub use codec::{decode_utf16, encode_utf16};
pub use error::{DecodeUtf16Error, ErrorKind};
pub use ext::Utf16Ext;
pub use reader::{ReadAction, Utf16Reader};
pub use variant::{
    Utf16, Utf16Be, Utf16BeBom, Utf16Le, Utf16LeBom, BOM_BE, BOM_BE_BYTES, BOM_LE, BOM_LE_BYTES,
};
pub use writer::Utf16Writer;
