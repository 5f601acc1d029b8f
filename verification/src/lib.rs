//! Reading and writing of TrackVis (`.trk`) tractography data.
//!
//! Every single-precision value is carried as its IEEE-754 bit pattern (`u32`),
//! so that the codecs are exact down to the last bit.

pub mod affine;
pub mod array_sequence;
pub mod bytes;
pub mod cheader;
pub mod header;
pub mod orientation;
pub mod reader;
pub mod record;
pub mod round_trip;
pub mod tractogram;
pub mod writer;

pub use array_sequence::{
    ArraySequence, ArraySequenceError, ArraySequenceIterator, ArraySequenceIteratorMut,
};
pub use bytes::Endianness;
pub use cheader::{CHeader, HeaderError};
pub use header::Header;
pub use reader::{Reader, StreamlinesIter};
pub use record::{ModeConflict, ReadError, WriteError};
pub use writer::Writer;
pub use tractogram::{Point, Points, Streamlines, Tractogram, TractogramItem, TractogramIterator};
