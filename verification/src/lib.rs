//! Verified core of a Discord logging bot: link rewriting, attachment download
//! decisions, backfill paging and the row plans written to the message log.
pub mod text;
pub mod link_rewriter;
pub mod attachments;
pub mod backfill;
pub mod logger;
