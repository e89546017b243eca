//! Commands of the room: which there are, who may use them, and the replies.

pub mod parse;
pub mod replies;
pub mod schedule;
