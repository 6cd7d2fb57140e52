pub mod ablation;
pub mod analogy;
pub mod anchors;
pub mod apply;
pub mod arguments;
pub mod assoc;
pub mod bytes;
pub mod coactivation;
pub mod coverage;
pub mod decimal;
pub mod edits;
pub mod embedding;
pub mod error;
pub mod events;
pub mod foreign;
pub mod hex;
pub mod image;
pub mod json;
pub mod keyed;
pub mod ledger;
pub mod listing;
pub mod lock;
pub mod lookup;
pub mod mapped;
pub mod members;
pub mod memory;
pub mod opening;
pub mod ops;
pub mod order;
pub mod organs;
pub mod params;
pub mod protocol;
pub mod queries;
pub mod replay;
pub mod select;
pub mod seqs;
pub mod settle;
pub mod table;
pub mod text;
pub mod triplet;
pub mod weight;
pub mod worker;
