pub mod batch;
pub mod book;
pub mod elite;
pub mod events;
pub mod keyed;
pub mod matching;
pub mod paper;
pub mod portfolio;
pub mod replay;
pub mod risk;
pub mod runtime;
pub mod strategy;
pub mod types;
pub mod workload;
