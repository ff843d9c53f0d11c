//! Markdown documentation sites: parsing, routing and the shared page types.
pub mod types;
pub mod text;
pub mod ast;
pub mod parser;
pub mod slug;
pub mod tag;
pub mod directive;
pub mod lang;
pub mod highlight;
pub mod colour;
pub mod frontmatter;
pub mod config;
pub mod site;
pub mod links;
pub mod check;
pub mod rsx;
pub mod template;
pub mod search;
