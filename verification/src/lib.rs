//! A regular-expression engine: a pattern is parsed into an expression tree,
//! lowered to a linear program, and run by a non-backtracking virtual machine
//! that reports the span of the match and of each capturing group.
//!
//! [`regex::Regex`] is the way in. [`parse`], [`compile`] and [`pike`] hold
//! the parser, the compiler and the machine; [`charclass`], [`debug`],
//! [`matcher`] and [`text`] what they share. The other modules hold what is
//! proved of them: [`shape`] of the trees that the parser gives,
//! [`targets`] of compiled programs, [`bounds`], [`paths`], [`order`],
//! [`leftmost`], [`priority`], [`preferred`], [`choice`], [`counting`] and
//! [`budget`] of the machine, [`literal`] and [`anchors`] of whole searches.

pub mod anchors;
pub mod bounds;
pub mod budget;
pub mod charclass;
pub mod choice;
pub mod compile;
pub mod counting;
pub mod debug;
pub mod leftmost;
pub mod literal;
pub mod matcher;
pub mod order;
pub mod parse;
pub mod paths;
pub mod pike;
pub mod preferred;
pub mod priority;
pub mod regex;
pub mod shape;
pub mod targets;
pub mod text;
