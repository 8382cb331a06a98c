//! What the operations give, said of the values that go in and come out.
pub mod choice;
pub mod duplicates;
pub mod folder;
pub mod groups;
pub mod intake;
pub mod lists;
pub mod steps;
pub mod texts;
