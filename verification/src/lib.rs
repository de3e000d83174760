//! Min/mean/max per weather station over a text of `name;temperature` rows, aggregated the way
//! a GPU does it: many threads, a sharded open-addressing table, and a small table per block.
//!
//! A thread is a state machine (`worker`) that asks for one access to memory after the other.
//! `state` says what an access does, `run` what holds of a launch after any number of steps of its
//! threads in any order, and `outcome` what the tables hold when all threads are through. `course`
//! says what becomes of a launch in one given order, and `grid` runs it. `station` and `report` make
//! a list of stations of the tables. `search` is the search for a slot by a caller that is alone.
//! `text`, `lines`, `claims`, `slots`, `solo` and `totals` state what follows for whole launches.
//! `laws` says what each operation is for, of its inputs and results alone: what is read, hashed, kept,
//! merged, sorted and printed.

pub mod addition;
pub mod aggregate;
pub mod barrier;
pub mod claims;
pub mod course;
pub mod format;
pub mod frame;
pub mod grid;
pub mod hash;
pub mod launch;
pub mod laws;
pub mod lines;
pub mod logs;
pub mod mean;
pub mod order;
pub mod outcome;
pub mod parse;
pub mod progress;
pub mod report;
pub mod run;
pub mod search;
pub mod seek;
pub mod slots;
pub mod solo;
pub mod state;
pub mod station;
pub mod step;
pub mod tables;
pub mod text;
pub mod totals;
pub mod worker;

pub use aggregate::Aggregate;
pub use format::{fmt_mean, fmt_val};
pub use grid::process_measurements;
pub use hash::{first_slot, next_slot, station_hash, TABLE_SIZE};
pub use launch::{Launch, BLOCK_SIZE, NUM_BLOCKS, NUM_TABLES};
pub use mean::mean_tenths;
pub use order::{compare_names, Place};
pub use parse::{can_parse_line, can_parse_temp, line_start, parse_line, parse_temp, NAME_MAX};
pub use report::{list_stations, report};
pub use station::{merge_stations, Station};
pub use tables::{Columns, SharedTable, Tables, LOCAL_SIZE, TOTAL_SLOTS};
pub use worker::{shared_index, Request, Stage, Worker};
