//! A rhythm chart, sequenced and mixed into one stream of samples.
//!
//! A chart is text: metadata, a table of sample names and records of object
//! codes, one record per measure and channel. The sequencer walks the records
//! measure by measure and gives each object code its offset in milliseconds;
//! the mixer starts a voice at each offset and sums the voices that play.

pub mod text;
pub mod chart;
pub mod samples;
pub mod measures;
pub mod sequencer;
pub mod song;
