//! `fastmulp_core` parses `multipart/form-data` bodies (RFC 7578, RFC 2046
//! section 5.1.1) without copying part bodies: each part records the range of its
//! body in the original buffer.
//!
//! For deployed compatibility the parser accepts `filename*=` parameters even
//! though RFC 7578 says senders must not generate them.
mod boundary;
mod boundary_scan;
mod buffers;
mod casefold;
mod content_disposition;
mod deps;
mod error;
mod header;
mod names;
mod parser;
mod part;
mod shifting;
mod text;
mod util;

pub mod bindings;
pub mod field_laws;
pub mod laws;

pub use bindings::{BindingError, JsHeader, JsPart};
pub use boundary::{boundary_from_content_type, Boundary};
pub use content_disposition::{parse_content_disposition, ContentDisposition, DispositionKind};
pub use deps::{HeaderList, OpeningBuf, PartList, TextBuf};
pub use error::Error;
pub use error::Result;
pub use header::Header;
pub use parser::{parse, Multipart, MultipartParser};
pub use part::Part;
pub use text::TextValue;
