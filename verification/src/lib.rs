//! Core of cachereaper: a parallel disk scanner, the rules that say what may go,
//! and the guards that say what may not.
//!
//! Everything that decides is here and works on plain values: what a directory
//! held, what a file said, how a removal went. Asking the disk, and doing what
//! was decided, is left to the program around it.
pub mod access;
pub mod agreement;
pub mod claims;
pub mod config;
pub mod entry;
pub mod findings;
pub mod gitignore;
pub mod glob;
pub mod guard;
pub mod history;
pub mod json;
pub mod order;
pub mod path;
pub mod purge;
pub mod rollup;
pub mod rules;
pub mod scan;
pub mod session;
pub mod size;
pub mod support;
pub mod text;
pub mod update;
pub mod walk;

pub use access::{AccessState, Gate, SettingsPane};
pub use config::{Config, ScanProfile};
pub use findings::{all_findings, all_findings_excluding, Finding};
pub use guard::{path_is_protected, validate_for_delete, Target};
pub use history::{
    clear_history, delete_receipt, read_history, Receipt, ReceiptItem, ReceiptSummary,
};
pub use purge::{allowed_roots, purge, PurgeResult};
pub use rules::marker_vocabulary;
pub use scan::{Node, NodeState, ScanStats, Tree, NONE};
pub use size::human;
pub use walk::{default_threads, ScanOptions};
