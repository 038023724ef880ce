//! Layout of a per-language source statistics report: the per-language
//! details, the totals and the visual overview with its vertical bars.
//! The report is produced as a sequence of styled pieces; turning pieces
//! into terminal text (colours, floating-point amounts) is left to the caller.
pub mod ordering;
pub mod verticals;
pub mod text;
pub mod table;
pub mod languages;
pub mod binary64;
pub mod percentages;
pub mod report;
pub mod format;
pub mod laws;
