//! Actor runtime core: DAG of actors, pipes between them, storage and scheduling.

pub mod actor_io;
pub mod actor_syscall;
pub mod attachments;
pub mod dag;
pub mod dagops;
pub mod dump;
pub mod dump_laws;
pub mod environment;
pub mod deb_control;
pub mod errno;
pub mod executor;
pub mod fd_table;
pub mod flush_coordinator;
pub mod idgen;
pub mod io_bridge;
pub mod io_kind;
pub mod kv;
pub mod mempipe;
pub mod merge;
pub mod mocked_actor_runtime;
pub mod notification_queue;
pub mod notification_queue_design;
pub mod pipe;
pub mod pipe_laws;
pub mod registry;
pub mod resolve;
pub mod runtime;
pub mod scheduler;
pub mod std_handle;
pub mod text;
pub mod var_access;
pub mod vfs;
