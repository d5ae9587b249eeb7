//! Flashcard deck logic: the binary deck codec, the text exchange format,
//! the deck store, the shuffle, and the navigation state machine.

pub mod deck;
pub mod import;
pub mod index;
pub mod machine;
pub mod naming;
pub mod shuffle;
pub mod storage;
pub mod text;
