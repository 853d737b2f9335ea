//! Decoder for the bencoding format used by BitTorrent metadata files,
//! tracker responses and peer-wire messages, together with a renderer that
//! turns a decoded value tree into readable text.
//!
//! Every executable function carries a contract over a mathematical model
//! of the input bytes and of the decoded tree.
//!
//! - `model`: decoded values, decode failures, and their views.
//! - `ascii`: the reader of decimal integers.
//! - `grammar`: what decoding gives, as a function on byte sequences.
//! - `decoder`: the decoders, proved to compute the grammar.
//! - `text`: decimal numbers, escaping, and the calls into other libraries.
//! - `render`: the text of a decoded tree or of a failure.
//! - `laws`: what holds of decoding and rendering on all inputs.

pub mod ascii;
pub mod decoder;
pub mod grammar;
pub mod laws;
pub mod model;
pub mod render;
pub mod text;

pub use ascii::decode_ascii_integer;
pub use decoder::{
    decode, decode_bytestring, decode_dict, decode_dict_entry, decode_integer, decode_list, dispatch,
};
pub use model::{
    DecodeError, DecodeErrorType, DecodeErrorView, DecodeResult, Decoded, DecodedDocument, DictEntry,
    DictEntryView, Document, Element, ElementDecoded, ElementView,
};
pub use render::{base64_fits, is_bytes_renderable, quote, render_bytes};
pub use text::{push_decimal, push_escaped, push_integer};
