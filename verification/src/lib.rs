//! A zero-copy decoder for the container structure of FLV files.
//!
//! The decoder turns a byte buffer into a tree of file header, tags and
//! typed tag payloads, without touching the coded audio and video inside.
//! Every parser is a total function of the bytes it is given: it yields a
//! value and the remaining input, reports that more bytes are needed, or
//! reports that the bytes are malformed. The contract of each parser equates
//! its result with a spec function over `Seq<u8>`.

pub mod audio;
pub mod error;
pub mod file;
pub mod mapping;
pub mod primitive;
pub mod script;
pub mod tag;
pub mod video;

pub use crate::audio::{AudioTag, AudioTagHeader, SoundFormat, SoundRate, SoundSize, SoundType};
pub use crate::error::{FormatError, ParseError};
pub use crate::file::{FlvFile, FlvFileBody, FlvFileHeader};
pub use crate::script::{ScriptDataDate, ScriptDataObjectProperty, ScriptDataValue, ScriptTag};
pub use crate::tag::{FlvTag, FlvTagData, FlvTagHeader, FlvTagType};
pub use crate::video::{CodecID, FrameType, VideoTag, VideoTagHeader};
