//! Breadcrumb-driven syntax classification.
//!
//! A `BreadcrumbsMatcher` decides, while a syntax tree is walked with
//! paired enter/leave events, whether the open ancestor path satisfies a
//! pattern of required and excluded node labels.  A `SyntaxMatcher` compiles
//! a rule set into many such matchers, fans traversal events out to them,
//! and resolves the raw byte-range matches into per-line highlight spans.

pub mod colors;
pub mod matcher;
pub mod preprocess;
pub mod strutil;
pub mod syntax_matcher;
