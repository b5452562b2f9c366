//! Loads XML Schema documents and finds out what their definitions depend on.
//!
//! A [`parser::Parser`] collects documents and the requests for further documents that they make.
//! Finishing it gives the [`schemas::Schemas`], in which every schema and every namespace has a
//! number, and a namespace has the prefix that was found or made up for it. From them
//! [`processor::State::create_node_cache`] makes an entry for every definition, with everything
//! that the definition depends on.
//!
//! The modules `order`, `ordmap` and `text` hold the collections and the texts that the others are
//! built on. `steps`, `walk`, `schemawalk` and `buildmodel` say what the library computes.
//! `contents` says what stands in a definition. The other modules say what follows:
//!
//! - `textlaws` and `bindinglaws`, how texts are read, and what tags bind,
//! - `requestlaws`, `settinglaws`, `parserlaws` and `loadlaws`, what a parser asks for and holds,
//! - `collectionlaws`, `prefixlaws` and `buildlaws`, what it finishes with,
//! - `stepcontents`, `recordlaws`, `readinglaws`, `mentionlaws`, `keys` and `naminglaws`, what an
//!   entry depends on,
//! - `resolvelaws`, `scopelaws` and `walklaws`, what names refer to,
//! - `entrylaws`, `partlaws`, `copylaws`, `finallaws`, `visitlaws` and `replacelaws`, which entries
//!   there are,
//! - `failurelaws`, what fails.

pub mod order;
pub mod ordmap;
pub mod text;

pub mod models;
pub mod xs;
pub mod textlaws;

pub mod reader;
pub mod bindinglaws;
pub mod request;
pub mod parser;
pub mod load;
pub mod schemas;
pub mod buildmodel;
pub mod builder;
pub mod buildlaws;
pub mod collectionlaws;
pub mod prefixlaws;
pub mod parserlaws;
pub mod requestlaws;
pub mod settinglaws;
pub mod loadlaws;

pub mod ident;
pub mod identcache;
pub mod naming;
pub mod nodes;
pub mod steps;
pub mod walk;
pub mod contents;
pub mod stepcontents;
pub mod keys;
pub mod schemawalk;
pub mod processor;
pub mod walklaws;
pub mod resolvelaws;
pub mod recordlaws;
pub mod naminglaws;
pub mod readinglaws;
pub mod entrylaws;
pub mod mentionlaws;
pub mod visitlaws;
pub mod scopelaws;
pub mod replacelaws;
pub mod partlaws;
pub mod copylaws;
pub mod failurelaws;
pub mod finallaws;
