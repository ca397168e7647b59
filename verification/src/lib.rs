//! Static analysis for TLA+ specifications: a source index that maps byte
//! offsets to lines and columns, a syntax tree held as an arena, two lint
//! rules over that tree, and reporters for the findings.

pub mod lint;
pub mod tla_parser;
pub mod tooling;
