//! A 9×9 number-placement puzzle solved by deduction only: candidate
//! tracking plus the sole-candidate rule and the three hidden-single rules.

pub mod grid;
pub mod input;
pub mod lemmas;
pub mod model;
