//! A window: what passes between the thread that the system's events come in on and the
//! thread that runs the program.
pub mod checks;
pub mod frame;
pub mod keys;
pub mod model;
pub mod options;
pub mod report;
pub mod script;
pub mod session;
pub mod story;
pub mod table;
pub mod view;
