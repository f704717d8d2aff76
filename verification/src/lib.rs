//! A spreadsheet as something that can be asked.
//!
//! A workbook is read into sparse sheets ([`workbook`]), its structure is found
//! ([`region`], [`formula_group`], [`table`], [`profile`]), and a question is
//! answered with the part of its graph that explains it ([`search`], [`expand`],
//! [`context`]). The rest is the server that offers this as tools ([`rpc`],
//! [`server`], [`tools`]).

pub mod address;
pub mod args;
pub mod asking;
pub mod blocks;
pub mod cell;
pub mod columns;
pub mod context;
pub mod expand;
pub mod finding;
pub mod formula;
pub mod formula_group;
pub mod fx;
pub mod graph;
pub mod headers;
pub mod json;
pub mod literals;
pub mod naming;
pub mod profile;
pub mod reading;
pub mod region;
pub mod rpc;
pub mod scanning;
pub mod schema;
pub mod search;
pub mod server;
pub mod shaping;
pub mod sort;
pub mod state;
pub mod table;
pub mod text;
pub mod toolbox;
pub mod tools;
pub mod walking;
pub mod workbook;
