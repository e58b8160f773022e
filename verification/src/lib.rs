//! The decisions behind a photo culling and editing program, verified: which
//! photos are blurred, which are duplicates or frames of one burst, whose eyes are
//! closed, what an export is named, and what an edit changes.

pub mod base64_text;
pub mod bursts;
pub mod capture;
pub mod dedup;
pub mod doubles;
pub mod edit;
pub mod editing;
pub mod export;
pub mod face;
pub mod float_bits;
pub mod formats;
pub mod heal;
pub mod library;
pub mod links;
pub mod numbering;
pub mod order;
pub mod precision;
pub mod raster;
pub mod rounding;
pub mod singles;
pub mod sizes;
pub mod stages;
pub mod text;
pub mod union_find;
pub mod vision;
