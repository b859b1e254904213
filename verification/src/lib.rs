//! Reading dictionaries in the DSL format (UTF-16LE text with inline markup)
//! and turning their entries into HTML flash cards.
//!
//! - [`reader`] splits the byte stream of a DSL file into lines;
//! - [`dict`] reads the lines into entries, keyed by headword;
//! - [`markup`] renders the markup of a definition line to HTML;
//! - [`word`] holds an entry and renders all of its definitions;
//! - [`card`] looks words up in several dictionaries and writes card lines.
use vstd::prelude::*;

pub mod card;
pub mod dict;
pub mod error;
pub mod markup;
pub mod reader;
pub mod text;
pub mod word;

pub use dict::{Dict, DslDict, LineKind};
pub use error::Error;
pub use reader::BufReader;
pub use word::Word;
