//! Battery telemetry, runtime estimates and power profiles.

pub mod arithmetic;
pub mod bands;
pub mod between;
pub mod binary;
pub mod canvas;
pub mod chart;
pub mod clock;
pub mod controls;
pub mod curve;
pub mod demo;
pub mod demo_day;
pub mod estimate;
pub mod exact;
pub mod figures;
pub mod files;
pub mod folds;
pub mod forecast;
pub mod history;
pub mod learning;
pub mod margin;
pub mod measures;
pub mod monitor;
pub mod multiples;
pub mod outcome;
pub mod pace;
pub mod policy;
pub mod positive;
pub mod power;
pub mod precision;
pub mod process;
pub mod profile;
pub mod quantity;
pub mod readings;
pub mod records;
pub mod rehearsal;
pub mod roofs;
pub mod rounding;
pub mod sample;
pub mod scoring;
pub mod session;
pub mod settings;
pub mod storage;
pub mod straight;
pub mod supply;
pub mod switch;
pub mod tally;
pub mod tempo;
pub mod text;
pub mod view;
pub mod window;
pub mod wording;
