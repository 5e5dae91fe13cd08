//! Laws of the library, stated over bytes, characters and numbers as they stand.
//!
//! The contracts of the library speak of spec functions. The laws here say of those functions, for
//! all inputs, what their results have to satisfy: how texts are put together and taken apart
//! again, which bytes of a sector mean what, and how the results of several calls relate.

pub mod bytes;
pub mod copy;
pub mod descriptor;
pub mod extract;
pub mod index;
pub mod iso;
pub mod open;
pub mod probe;
pub mod progress;
pub mod report;
pub mod text;
pub mod timestamp;
pub mod views;
pub mod walk;
