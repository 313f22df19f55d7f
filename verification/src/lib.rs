//! Reconciliation of a listener's music catalog as exported by several
//! streaming services.
//!
//! The catalog of a source is a set of insertion-ordered mappings from
//! identifier to entity ([`ordered_map`], [`models`]), built from the rows of
//! an export ([`catalog`]) after each raw code was normalized
//! ([`normalize`]). Two sources are compared section by section
//! ([`compare`]): the order aligner finds where their shared entries first
//! come in a different order ([`align`]), and the set reconciler lists what
//! one side has and the other lacks, optionally matching identifiers that
//! are prefix variants of each other ([`reconcile`]), sorted by the entity
//! ordering ([`ordering`]). Known equivalences between identifiers are
//! applied beforehand ([`remap`]).

pub mod align;
pub mod catalog;
pub mod compare;
pub mod keys;
pub mod models;
pub mod normalize;
pub mod ordered_map;
pub mod ordering;
pub mod presentation;
pub mod reconcile;
pub mod remap;
pub mod sorting;
pub mod text;
