//! A fuzzy file finder's logic: scoring file names against what was typed, the
//! decisions taken while walking a folder, the ranking of what was found, and a
//! small expiring cache of where names were last looked for.
pub mod cache;
pub mod clock;
pub mod finder;
pub mod matching;
pub mod text;
