//! Event-sourced filesystem: every change is an event on a branch, every earlier state can be restored,
//! and what a write replaced is kept with its event.
//!
//! Tables hold the events, the branches, the indexes and the contents (`database`, `table`, `keys`).
//! File contents are cut into chunks and named by hash (`extents`, `chunks`, `manifest`, `edit`), the
//! state of a branch is a tree of hashed nodes (`trie`, `persist`, `namespace`). A request is planned
//! (`changes`, `writes`), committed as one batch (`commit`, `storage`), and read back from the tables
//! (`history`, `branches`, `opening`, `interface`).
//!
//! What holds of all this together starts in `operations`, which says what makes a filesystem
//! consistent and that every operation keeps it so, and `runs`, which draws from that what holds after
//! any number of steps: it can be opened again, its past stays, and every point of it can be restored.
//! `readings`, `effects` and `chronicle` say what is read, what single operations do and what walks
//! hand out. What is answered about inodes, directories and extended attributes stands in `answers` and
//! `attributes`, who may do what in `permissions`, when operations are refused in `refusals`, what events
//! tell in `descriptions`, where their paths lead in `paths`, what becomes of branches in `forks`, which
//! tables are opened in `admission`, and that what is read is genuine in `integrity`. The parts are
//! proved in `contents`, `depth`, `files`, `payloads`, `snapshots`, `recorded`, `maps`, `states`,
//! `numbering`, `behaviour`, `soundness`, `places`, `counters`, `roots`, `durability`, `reopening`,
//! `success`, `timeline`, `switching`, `naming`, `listing`, `tree`, `links`, `indexes`, `matching`,
//! `pages` and `walks`.

pub mod admission;
pub mod answers;
pub mod attributes;
pub mod backup;
pub mod behaviour;
pub mod branches;
pub mod bytes;
pub mod changes;
pub mod chronicle;
pub mod chunks;
pub mod commit;
pub mod configuration;
pub mod contents;
pub mod counters;
pub mod database;
pub mod depth;
pub mod descriptions;
pub mod durability;
pub mod edit;
pub mod effects;
pub mod error;
pub mod extents;
pub mod files;
pub mod filesystem;
pub mod forks;
pub mod hash;
pub mod history;
pub mod indexes;
pub mod inode;
pub mod integrity;
pub mod interface;
pub mod keys;
pub mod links;
pub mod listing;
pub mod locks;
pub mod manifest;
pub mod maps;
pub mod matching;
pub mod metadata;
pub mod namespace;
pub mod naming;
pub mod numbering;
pub mod opening;
pub mod operations;
pub mod pages;
pub mod paging;
pub mod paths;
pub mod payloads;
pub mod permissions;
pub mod persist;
pub mod places;
pub mod readings;
pub mod recorded;
pub mod refusals;
pub mod reopening;
pub mod roots;
pub mod runs;
pub mod sessions;
pub mod snapshots;
pub mod soundness;
pub mod states;
pub mod storage;
pub mod success;
pub mod switching;
pub mod table;
pub mod timeline;
pub mod tree;
pub mod trie;
pub mod walks;
pub mod writes;
