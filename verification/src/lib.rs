//! A scheme-driven input-method engine: spelling algebra, segmentation,
//! translation, filtering and session control, with every rule stated as a
//! contract and proved.

pub mod text;
pub mod regex;
pub mod code;
pub mod order;
mod share;
pub mod spelling;
pub mod candidate;
pub mod lexicon;
pub mod translator;
pub mod tag;
pub mod keyspec;
pub mod spec;
pub mod registry;
pub mod segmentor;
pub mod memory;
pub mod table;
pub mod options;
pub mod filter;
pub mod inline;
pub mod state;
pub mod processor;
pub mod punctuator;
pub mod ranking;
pub mod component;
pub mod pipeline;
pub mod scheme;
pub mod engine;
pub mod builtin;
