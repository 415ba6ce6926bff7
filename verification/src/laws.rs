//! What holds of the library as a whole: laws that relate several of its
//! functions, stated over the models in their contracts.

pub mod answers;
pub mod attribute_values;
pub mod characters;
pub mod codes;
pub mod encodings;
pub mod extraction;
pub mod links;
pub mod listing;
pub mod markup;
pub mod numbering;
pub mod options;
pub mod passes;
pub mod plain_text;
pub mod references;
pub mod removal;
pub mod requests;
pub mod search;
pub mod spacing;
pub mod structures;
pub mod tag_reading;
pub mod whitespace;
