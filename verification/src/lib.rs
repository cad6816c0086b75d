//! Nota: a markup-outer, JavaScript-embedded document notation.
//!
//! A source is read into a tree, the tree is lowered to the text of a JavaScript module, and beside
//! the module come diagnostics, source mappings and highlighting.
//!
//! * The scans ([`bytes`], [`lines`], [`unicode`], [`statements`], [`escapes`], [`embedded`],
//!   [`raw`], [`links`], [`heads`], [`docstate`], [`blocks`], [`emphasis`], [`token`]) say where the
//!   pieces of the notation start and end, and [`spellings`] how these are spelled.
//! * [`grammar`] says what a source reads as, and [`prologue`] what holds of its statements;
//!   [`reader`] reads it into a [`tree`]. [`anatomy`] says what every node of such a tree holds and
//!   what stands at its place in the source, and [`reading`] that what is read is so;
//!   [`constructs`] says which node the bytes at a place make. What is known of the embedded
//!   JavaScript comes from outside, as the facts of [`js`]; [`literals`] says what a string literal
//!   of it spells.
//! * [`scribble`] settles the white space of a body, and [`settling`] and [`indents`] say what it
//!   keeps and what indentation means to it; [`encoding`] says that the text of a settled body is
//!   UTF-8. [`lowering`] holds what every lowering rests on, [`output`] the text under way; [`hyper`]
//!   and [`jsx`] are the two lowerings, [`hyper_text`] and [`jsx_text`] say what stands in their
//!   text, [`names`] are the names that they take, and [`marks`] is what they report.
//! * [`mapping`] joins marks and text into source mappings; [`highlight`] and [`lexemes`] paint,
//!   and [`painting`] says that no construct goes unpainted.
//! * [`lower`] and [`compile`] are the entries.

pub mod ascii;
pub mod bytes;
pub mod lines;
pub mod statements;
pub mod escapes;
pub mod embedded;
pub mod unicode;
pub mod raw;
pub mod links;
pub mod heads;
pub mod docstate;
pub mod blocks;
pub mod emphasis;
pub mod token;
pub mod tree;
pub mod anatomy;
pub mod js;
pub mod literals;
pub mod grammar;
pub mod prologue;
pub mod spellings;
pub mod constructs;
pub mod reading;
pub mod reader;
pub mod scribble;
pub mod settling;
pub mod indents;
pub mod encoding;
pub mod mapping;
pub mod output;
pub mod lowering;
pub mod hyper;
pub mod jsx;
pub mod jsx_text;
pub mod hyper_text;
pub mod names;
pub mod marks;
pub mod highlight;
pub mod painting;
pub mod lexemes;
pub mod lower;
pub mod compile;
