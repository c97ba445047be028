//! An in-memory tree of files and directories whose file reads yield sound triggers.
//!
//! The tree is a table of nodes indexed by id. Structural operations (lookup, create,
//! mkdir, remove, rename), attribute operations (getattr, setattr, write) and paged
//! directory listings work on that table. Reading a file classifies its name and
//! reports the sound triggers that the read stands for; playing them is left to the caller.
//!
//! `state` holds the mathematical model of the table and of every operation, `fs` the
//! table itself, whose operations are proved against the model, and `laws` what holds of
//! the operations taken together. `trigger` holds the grammar of the names that stand for
//! triggers, `order` the order in which a sequence plays them, and `playback` the rule of
//! the worker that plays them.

pub mod attr;
pub mod bytes;
pub mod clock;
pub mod entry;
pub mod fs;
pub mod laws;
pub mod order;
pub mod playback;
pub mod seed;
pub mod state;
pub mod trigger;
