//! Rows of the queue listing.

use vstd::prelude::*;
use crate::ansi::{FormattedString, Style};
use crate::table::Row;

verus! {

/// One song of the queue: its fields, and whether it is playing.
pub struct QueueRow {
    pub is_current: bool,
    pub fields: Vec<String>,
}

impl QueueRow {
    /// The fields as a table row, bold for the song that is playing.
    pub fn to_table_row<'a>(&'a self) -> (r: Row<'a>)
        ensures
            r.fields@.len() == self.fields@.len(),
            forall|i: int|
                0 <= i < r.fields@.len() ==> (#[trigger] r.fields@[i]).string@ == self.fields@[i]@
                    && r.fields@[i].style == Some(if self.is_current { Style::Bold } else { Style::Default }),
    {
        let style = if self.is_current { Style::Bold } else { Style::Default };
        let mut fields: Vec<FormattedString<'a>> = Vec::new();
        let mut i: usize = 0;
        while i < self.fields.len()
            invariant
                i <= self.fields@.len(),
                style == (if self.is_current { Style::Bold } else { Style::Default }),
                fields@.len() == i,
                forall|j: int|
                    0 <= j < i ==> (#[trigger] fields@[j]).string@ == self.fields@[j]@ && fields@[j].style == Some(style),
            decreases self.fields@.len() - i,
        {
            fields.push(FormattedString::new(self.fields[i].as_str()).style(style));
            i = i + 1;
        }
        Row::new(fields)
    }
}

} // verus!
