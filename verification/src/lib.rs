//! Building PDF documents out of images, and editing their pages: inserting
//! image pages, removing a page, swapping two pages.
//!
//! Documents are `lopdf` documents. The contracts see a document through the
//! objects it holds, its trailer and its `max_id` counter (see `document`).

pub mod document;
pub mod edit;
pub mod error;
pub mod imaging;
pub mod laws;
pub mod model;
pub mod names;
pub mod pages;
pub mod text;
pub mod tree;

pub use edit::{remove_page, swap_pages, try_remove_page};
pub use error::PdfError;
pub use imaging::{ImageError, image_from_jpeg, image_from_other, image_orientation, is_jpeg};
pub use pages::{ImageData, create_pdf, insert_pages, try_insert_pages};
