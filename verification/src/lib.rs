//! Web pages as Markdown, and web search: the verified core.
pub mod asking;
pub mod command;
pub mod convert;
pub mod deep;
pub mod flow;
pub mod letters;
pub mod links;
pub mod markup;
pub mod number;
pub mod page;
pub mod providers;
pub mod race;
pub mod relevance;
pub mod report;
pub mod results;
pub mod text;
pub mod title;
pub mod urls;
