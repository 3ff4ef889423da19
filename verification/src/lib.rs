//! Bunle: a page-image container. Pages are packed back to back behind a small
//! index, optionally inside a RIFF/WebP cover so that the archive also reads as an image.
use vstd::prelude::*;

pub mod encode;
pub mod format;
pub mod info;
pub mod jxl;
pub mod messages;
pub mod pack;
pub mod select;
pub mod roundtrip;
pub mod unpack;
pub mod validate;

pub use format::{extract_page, read_index, ExtractError, ImageFormat, MCZIndex, PageInfo, ParseError};
pub use pack::{pack, EncodedPage, PackError, MAX_ARCHIVE_BYTES, MAX_PAGES, MAX_PAGE_BYTES};
pub use validate::{validate, ValidateError, ValidateReport};
pub use unpack::{digit_width, page_file_name, unpack_files, PageFile, UnpackError, Unpacked};
pub use encode::{is_image_extension, prepare_as, prepare_page, PreparedPage, SourceKind};

pub use info::{info_json, info_text, pack_summary};
pub use jxl::jxl_dimensions;
pub use select::{is_source_name_exec, select_pages};
