//! Kerai: verified core logic of an AST-based, CRDT-replicated knowledge graph
//! with a native currency and a Dutch-auction marketplace.

pub mod text;
pub mod hexcodec;
pub mod ingest;
pub mod auction;
pub mod ledger;
pub mod wallet;
pub mod rewards;
pub mod comments;
pub mod scheduler;
pub mod promote;
pub mod csv_graph;
pub mod crdt;
pub mod init_doc;
pub mod walks;
pub mod stack;
pub mod preferences;
pub mod agents;
pub mod crawler;
