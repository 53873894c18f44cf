//! Verified core of a data synchronisation platform.
//!
//! A job reads the rows of one connection page by page, maps their columns, runs
//! them through a pipeline of ETL steps and writes what comes out to another
//! connection, keeping a high-water mark between its runs. This crate holds what
//! such a run decides and computes:
//!
//! * the value model and the SQL dialects ([`model`], [`sql`], [`mysql`],
//!   [`postgres`], [`oracle`]), and what their statements say ([`reading`]);
//! * the configuration files and the templates in them ([`config`], [`job`],
//!   [`tokens`], [`templates`], [`yaml`], [`json`]);
//! * the ETL steps and the pipeline ([`etl`], [`builtin`], [`order_split`],
//!   [`pipeline`]);
//! * reading, routing, batching and writing ([`link`], [`reader`], [`router`],
//!   [`buckets`], [`writer`], [`state`], [`runner`]);
//! * schedules, connections and the rules of the plugin boundary ([`scheduler`],
//!   [`connections`], [`datasource`], [`plugins`]).
//!
//! Files, clocks, threads, database drivers and plugin libraries are reached by
//! the program around it, which hands in plain values and performs what comes
//! back.

pub mod buckets;
pub mod builtin;
pub mod clock;
pub mod config;
pub mod connections;
pub mod datasource;
pub mod error;
pub mod etl;
pub mod float;
pub mod job;
pub mod json;
pub mod link;
pub mod model;
pub mod mysql;
pub mod oracle;
pub mod order_split;
pub mod pipeline;
pub mod plugins;
pub mod postgres;
pub mod reader;
pub mod reading;
pub mod router;
pub mod runner;
pub mod scheduler;
pub mod sql;
pub mod state;
pub mod strmap;
pub mod templates;
pub mod text;
pub mod tokens;
pub mod views;
pub mod writer;
pub mod yaml;
