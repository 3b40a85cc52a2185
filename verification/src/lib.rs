//! Addon management for Deadlock.
pub mod addons_backup_manager;
pub mod backup_name;
pub mod disk;
pub mod error;
pub mod file_tree;
pub mod hero_files;
pub mod journal;
pub mod manager;
pub mod manifest_store;
pub mod order;
pub mod path;
pub mod presence;
pub mod profiles;
pub mod runner;
pub mod shard;
pub mod shard_report;
pub mod shard_store;
pub mod table;
pub mod text;
pub mod tree_copy;
pub mod vpk_file;
pub mod vpk_manager;
pub mod vpk_manifest;
