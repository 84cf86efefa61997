//! A for-each over any iterator whose body decides, element by element, to
//! go on, to stop with a result, or to run again on a value of its choice
//! without advancing the iterator.

mod control;
mod for_each;
mod laws;
mod run;

pub use control::LoopControl;
pub use for_each::ForEachRepeat;
pub use laws::{
    for_each_break, law_break_ends_run, law_continue_visits_all, law_empty_source, law_repeat_stays,
    law_without_repeat,
};
pub use run::{arg, completes, cursor, is_run, outcome, pulled, ranked_by, repeats_settle};
