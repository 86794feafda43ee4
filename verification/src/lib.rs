pub mod audio;
pub mod cli;
pub mod closures;
pub mod config;
pub mod decimal;
pub mod dither;
pub mod json_report;
pub mod level;
pub mod ops;
pub mod path;
pub mod pipeline;
pub mod refusal;
pub mod targets;
pub mod text;
