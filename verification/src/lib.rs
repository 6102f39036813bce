//! Compile a declarative tabular schema (columns, joins, variants, dedup
//! rules) plus row data into a typed, queryable in-memory table model.
//!
//! The pipeline runs strictly forward: raw string cells are parsed into typed
//! vectors, rows are deduplicated by a designated composite key, integer
//! storage widths are inferred, join and variant destinations are resolved
//! into flat offsets, stable sorted index arrays are built for range queries
//! and reverse lookups, and a hierarchical lint pass re-validates every
//! invariant before the model is handed out.

use vstd::prelude::*;

pub mod aperror;
pub mod basetype;
pub mod caseconv;
pub mod colbool;
pub mod colint;
pub mod coljoin;
pub mod collabel;
pub mod colobject;
pub mod colstr;
pub mod colvariant;
pub mod config;
pub mod index;
pub mod langc;
pub mod language;
pub mod lint;
pub mod strutil;
pub mod table;
