//! A page-ordering puzzle library.
//!
//! Given a list of ordering rules between page numbers and a list of page
//! sequences ("updates"), the library checks which updates already respect
//! every applicable rule, and for the others finds the page that would sit in
//! the middle once the update is reordered according to the rules, without
//! materialising the full order.

pub mod counting;
pub mod ranking;
pub mod checker;
pub mod resolver;
pub mod puzzle;
pub mod parsing;

pub use parsing::input_generator;
pub use parsing::ParseError;
pub use puzzle::Input;
pub use puzzle::part1;
pub use puzzle::part2;
pub use resolver::find_middle_page;
