//! Completing a weekly programme with the exercises that it names.
//!
//! A programme is a document whose text names exercises by number. This library
//! finds the numbers ([`extract`]), says where the document with those exercises is
//! to be fetched ([`locator`]), appends its pages to the programme ([`merge`], on
//! the documents of [`document`], copying objects with [`graft`]) and decides, step
//! by step, what a run does next ([`pipeline`]). [`week_list`] reads the list of
//! programmes from the page that links to them, and [`browser`] holds the headers
//! with which that page is asked for.
//!
//! Fetching, and reading and writing the files themselves, is left to the caller.

pub mod browser;
pub mod decimal;
pub mod document;
pub mod extract;
pub mod fidelity;
pub mod graft;
pub mod locator;
pub mod merge;
pub mod numbers;
pub mod pipeline;
pub mod text;
pub mod week_list;
