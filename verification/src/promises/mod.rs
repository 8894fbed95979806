//! What the service promises, told from outside: each promise is stated over texts, bytes,
//! documents and numbers alone, without the definitions that the modules it speaks of are
//! built from.

pub mod crawl;
pub mod dates;
pub mod documents;
pub mod loading;
pub mod peers;
pub mod protocol;
pub mod refreshing;
pub mod requests;
pub mod startup;
pub mod texts;
