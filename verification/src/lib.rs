//! Verified core of a screen-sharing service: tiling and colour conversion of
//! captured frames, the key-state bitmap of the browser side, the control and
//! transfer protocols, the framing of compressed tiles and the routing of the
//! file server.

pub mod bitmap;
pub mod capture;
pub mod codec;
pub mod convert;
pub mod ctrl;
pub mod dscom;
pub mod http;
pub mod imop;
pub mod stream;
pub mod transfer;

pub use bitmap::Bitmap;
pub use convert::i420_to_rgba;
pub use dscom::get_rgb_block;
pub use imop::{split_i420_into_subimages, split_meta_info};
