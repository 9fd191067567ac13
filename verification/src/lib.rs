//! Signature carving with validators that decode structure.
//!
//! Carving finds files by their content when the metadata that described them
//! is gone. A header match is only a hypothesis: `FF D8 FF` turns up by chance
//! about once in every 16 MB of random data. Every candidate is therefore put
//! to a validator that walks the format's own accounting, says whether the
//! bytes really are that format, and says how long the file is.

pub mod bifrag;
pub mod bytes;
pub mod cmd;
pub mod crc32;
pub mod error;
pub mod figures;
pub mod hash;
pub mod loading;
pub mod numerals;
pub mod output;
pub mod prefilter;
pub mod scan;
pub mod search;
pub mod signature;
pub mod sorting;
pub mod text;
pub mod validate;

pub use error::{CarveError, Result};
pub use prefilter::{Prefilter, ScanIndex};
pub use signature::{Category, Signature, SignatureDb};
pub use validate::{Outcome, Status};
