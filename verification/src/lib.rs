//! Verified core of the photo-culling pipeline.
pub mod dedupe;
pub mod text;
pub mod path;
pub mod names;
pub mod output;
pub mod humanize;
pub mod cache;
pub mod library;
pub mod hash;
pub mod exif;
pub mod config;
pub mod ingest;
pub mod develop;
pub mod serve;
pub mod reports;
pub mod catalog;
pub mod doctor;
pub mod ml;
pub mod listing;
