//! Verified core of subsink: file-name parsing, natural ordering, subtitle
//! timing arithmetic, alass output evaluation and Jimaku index handling.

pub mod text;
pub mod cli;
pub mod natural;
pub mod offset;
pub mod parser;
pub mod provider;
pub mod paths;
pub mod scanner;
pub mod shift;
pub mod site;
pub mod syncer;
