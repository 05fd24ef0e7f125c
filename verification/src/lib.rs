//! Collects public GitHub contributions into a feed and renders it as a static page.

pub mod assets;
pub mod big;
pub mod calendar;
pub mod candidates;
pub mod clock;
pub mod collect;
pub mod collection;
pub mod collector;
pub mod command;
pub mod config;
pub mod contributions;
pub mod decimal;
pub mod event;
pub mod feed;
pub mod fields;
pub mod grammar;
pub mod html;
pub mod json;
pub mod names;
pub mod number;
pub mod numeral;
pub mod order;
pub mod outcome;
pub mod page;
pub mod payload;
pub mod request;
pub mod round_trip;
pub mod rules;
pub mod search;
pub mod session;
pub mod site;
pub mod text;
pub mod toml;
pub mod validate;
