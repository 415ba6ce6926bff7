//! Web fetch, search and screenshot tools of a browser skill.

pub mod attributes;
pub mod decode;
pub mod encode;
pub mod entities;
pub mod error;
pub mod format;
pub mod host;
pub mod html;
pub mod json;
pub mod laws;
pub mod lists;
pub mod normalize;
pub mod offsets;
pub mod request;
pub mod search;
pub mod session;
pub mod skill;
pub mod tags;
pub mod text;
