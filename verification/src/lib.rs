//! SymNebula's verified core: the nebula graph's formats, rules and
//! bookkeeping, each function proved against its contract.

pub mod state;
pub mod text;
pub mod brainstorm;
pub mod graph_xml;
pub mod xml_roundtrip;
pub mod dag;
pub mod compute;
pub mod solvers;
pub mod symbols;
pub mod viz;
pub mod expr;
pub mod graph_outline;
