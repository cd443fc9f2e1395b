//! Redline comparison core for WordprocessingML documents: correlation of
//! comparison units, table-row alignment, relationship parsing and the
//! diagnostic log, each with a machine-checked contract.

pub mod comparison_log;

pub mod namespaces;

pub mod comparer;

pub mod text;

pub mod xml;

pub mod tree;

pub mod unid;
