//! Turns an SVG drawing with a cut layer into a print-and-cut job.

pub mod contents;
pub mod convert;
pub mod cut_layer;
pub mod disorder;
pub mod drawing;
mod error;
pub mod fcm;
pub mod fcm_types;
pub mod found;
pub mod geometry;
pub mod job;
pub mod joined;
pub mod markup;
pub mod outcome;
pub mod page;
pub mod ratio;
pub mod single;
pub mod tags;
pub mod text;
pub mod words;

pub use error::ConvertError;
