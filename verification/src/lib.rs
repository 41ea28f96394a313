//! A static site generator: markdown pages with JSON frontmatter, rendered
//! through templates into a directory of HTML files.
use vstd::prelude::*;

pub mod builder;
pub mod config;
pub mod content;
pub mod frontmatter;
pub mod json;
pub mod markdown;
pub mod text;

verus! {

} // verus!
