//! The logic of a status line that forecasts when a rate limit runs out.

pub mod account;
pub mod binary64;
pub mod clock;
pub mod decimal;
pub mod dirs;
pub mod forecast;
pub mod harvest;
pub mod line;
pub mod median;
pub mod payload;
pub mod rates;
pub mod samples;
pub mod table;
pub mod text;
pub mod times;
