//! The logic of an NFS client monitor: sampling rates, server aggregates, selection state and
//! the text of its panels.

pub mod app;
pub mod binary64;
pub mod exact;
pub mod format;
pub mod hist;
pub mod history;
pub mod keys;
pub mod law_arith;
pub mod law_hist;
pub mod law_mounts;
pub mod law_moves;
pub mod law_numbers;
pub mod law_ranks;
pub mod law_rates;
pub mod law_samples;
pub mod law_series;
pub mod law_servers;
pub mod law_tables;
pub mod law_texts;
pub mod mountstats;
pub mod natural;
pub mod order;
pub mod panels;
pub mod ports;
pub mod procfs;
pub mod rank;
pub mod rates;
pub mod ringbuf;
pub mod sampler;
pub mod search;
pub mod servers;
pub mod tab;
pub mod table;
pub mod text;
pub mod types;
