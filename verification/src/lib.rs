//! Extraction core for a Hacker News front-page reader.
//!
//! A parsed HTML document, modelled as a tree of [`dom::Node`] values, is
//! searched for elements carrying a given class name ([`search`]), and the
//! matching elements are turned into post records of title, link and id
//! ([`posts`]). Fetching the page, parsing the HTML and rendering the list
//! are left to the surrounding program.

pub mod dom;
pub mod posts;
pub mod search;
