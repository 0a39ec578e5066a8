//! Reading and writing HLS playlists: master playlists, which list the variant
//! streams and renditions of a stream, and media playlists, which list its
//! segments.
//!
//! Every function comes with a contract over the characters of the text, and
//! Verus proves that the function keeps it.
pub mod attrs;
pub mod encoding;
pub mod error;
pub mod laws;
pub mod master;
pub mod media;
pub mod numbers;
pub mod reread;
pub mod tags;
pub mod text;

pub use crate::attrs::{
    attribute_key_val, attributes, read_quoted_attribute, rejoin_attributes,
};
pub use crate::master::{read_playlist, Playlist, PlaylistExtInfo};
pub use crate::media::{
    comma_sep_pair, read_media_list, MediaExtInfo, MediaList, MediaSegment,
};
pub use crate::tags::{ext_identifier, ext_type, MediaExtType, PlaylistExtType};
