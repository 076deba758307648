//! Tables of styled strings: every column but the last is padded to its
//! widest entry plus one space; in plain mode fields are separated by `:`
//! instead, and no escape codes are written.

use vstd::prelude::*;
use crate::ansi::{rendered, FormattedString};

verus! {

/// One line of a table.
pub struct Row<'a> {
    pub fields: Vec<FormattedString<'a>>,
}

impl<'a> Row<'a> {
    pub fn new(fields: Vec<FormattedString<'a>>) -> (r: Row<'a>)
        ensures
            r.fields@ == fields@,
    {
        Row { fields }
    }
}

/// Rows laid out in aligned columns.
pub struct Table<'a> {
    pub rows: &'a [Row<'a>],
}

/// The number of characters of field `j` of `row`, or 0 where it has none.
pub open spec fn field_width(row: Row, j: nat) -> nat {
    if j < row.fields@.len() {
        row.fields@[j as int].string@.len()
    } else {
        0
    }
}

/// The widest field `j` of `rows`.
pub open spec fn column_width(rows: Seq<Row>, j: nat) -> nat
    decreases rows.len(),
{
    if rows.len() == 0 {
        0
    } else {
        let p = column_width(rows.drop_last(), j);
        let f = field_width(rows.last(), j);
        if p >= f {
            p
        } else {
            f
        }
    }
}

/// Field `j` of `fields` as laid out in a table of `rows`.
pub open spec fn field_text(rows: Seq<Row>, fields: Seq<FormattedString>, j: nat, plain: bool) -> Seq<char> {
    let f = fields[j as int];
    if j + 1 == fields.len() {
        rendered(f.style, f.string@, plain, 0)
    } else if plain {
        rendered(f.style, f.string@, true, 0).push(':')
    } else {
        rendered(f.style, f.string@, false, column_width(rows, j) + 1)
    }
}

/// The first `k` fields of a row laid out in a table of `rows`.
pub open spec fn row_text(rows: Seq<Row>, fields: Seq<FormattedString>, k: nat, plain: bool) -> Seq<char>
    decreases k,
{
    if k == 0 {
        seq![]
    } else {
        row_text(rows, fields, (k - 1) as nat, plain) + field_text(rows, fields, (k - 1) as nat, plain)
    }
}

/// The first `k` rows of a table, one per line.
pub open spec fn table_text(rows: Seq<Row>, k: nat, plain: bool) -> Seq<char>
    decreases k,
{
    if k == 0 {
        seq![]
    } else {
        let row = rows[k - 1];
        table_text(rows, (k - 1) as nat, plain) + (if k > 1 {
            seq!['\n']
        } else {
            seq![]
        }) + row_text(rows, row.fields@, row.fields@.len(), plain)
    }
}

/// Every field of every row is shorter than the largest `usize`.
pub open spec fn fields_fit(rows: Seq<Row>) -> bool {
    forall|i: int, j: int|
        0 <= i < rows.len() && 0 <= j < rows[i].fields@.len() ==> #[trigger] rows[i].fields@[j].string@.len()
            < usize::MAX
}

proof fn lemma_column_width_fits(rows: Seq<Row>, j: nat)
    requires
        fields_fit(rows),
    ensures
        column_width(rows, j) < usize::MAX,
    decreases rows.len(),
{
    if rows.len() > 0 {
        let last = rows.len() - 1;
        assert forall|i: int, k: int|
            0 <= i < rows.drop_last().len() && 0 <= k < rows.drop_last()[i].fields@.len() implies
            #[trigger] rows.drop_last()[i].fields@[k].string@.len() < usize::MAX by {
            assert(rows.drop_last()[i] == rows[i]);
        }
        lemma_column_width_fits(rows.drop_last(), j);
        if j < rows[last].fields@.len() {
            assert(rows[last].fields@[j as int].string@.len() < usize::MAX);
        }
    }
}

impl<'a> Table<'a> {
    /// The widest field of each column.
    fn column_widths(&self) -> (widths: Vec<usize>)
        ensures
            forall|j: int| 0 <= j < widths@.len() ==> widths@[j] as nat == column_width(self.rows@, j as nat),
            forall|j: nat| j >= widths@.len() ==> column_width(self.rows@, j) == 0,
    {
        let rows = self.rows;
        let mut widths: Vec<usize> = Vec::new();
        let mut r: usize = 0;
        while r < rows.len()
            invariant
                r <= rows@.len(),
                rows@ == self.rows@,
                forall|j: int| 0 <= j < widths@.len() ==> widths@[j] as nat == column_width(rows@.subrange(0, r as int), j as nat),
                forall|j: nat| j >= widths@.len() ==> column_width(rows@.subrange(0, r as int), j) == 0,
            decreases rows@.len() - r,
        {
            let ghost before = rows@.subrange(0, r as int);
            let ghost after = rows@.subrange(0, r + 1);
            assert(after.drop_last() =~= before);
            let fields = &rows[r].fields;
            let mut j: usize = 0;
            while j < fields.len()
                invariant
                    r < rows@.len(),
                    fields == &rows@[r as int].fields,
                    after.len() == r + 1,
                    after.drop_last() == before,
                    after.last() == rows@[r as int],
                    j <= fields@.len(),
                    j <= widths@.len(),
                    forall|k: int| 0 <= k < j ==> widths@[k] as nat == column_width(after, k as nat),
                    forall|k: int| j <= k < widths@.len() ==> widths@[k] as nat == column_width(before, k as nat),
                    forall|k: nat| k >= widths@.len() ==> column_width(before, k) == 0,
                decreases fields@.len() - j,
            {
                let len = fields[j].string.unicode_len();
                proof {
                    let old_w: nat = if j < widths@.len() { widths@[j as int] as nat } else { 0 };
                    assert(column_width(before, j as nat) == old_w);
                    assert(field_width(after.last(), j as nat) == len);
                    assert(column_width(after, j as nat) == if old_w >= len { old_w } else { len as nat });
                }
                if j < widths.len() {
                    if len > widths[j] {
                        widths.set(j, len);
                    }
                } else {
                    widths.push(len);
                }
                j = j + 1;
            }
            assert forall|k: nat| k >= widths@.len() implies column_width(after, k) == 0 by {
                assert(k >= fields@.len());
                assert(field_width(after.last(), k) == 0);
                assert(column_width(before, k) == 0);
                assert(after.len() > 0);
            }
            r = r + 1;
        }
        assert(rows@.subrange(0, rows@.len() as int) =~= rows@);
        widths
    }

    /// The table, one row per line, in plain mode or with styles.
    pub fn render(&self, plain: bool) -> (r: String)
        requires
            fields_fit(self.rows@),
        ensures
            r@ == table_text(self.rows@, self.rows@.len(), plain),
    {
        let widths = self.column_widths();
        let rows = self.rows;
        let mut out = String::new();
        let mut r: usize = 0;
        while r < rows.len()
            invariant
                r <= rows@.len(),
                rows@ == self.rows@,
                fields_fit(rows@),
                forall|j: int| 0 <= j < widths@.len() ==> widths@[j] as nat == column_width(rows@, j as nat),
                forall|j: nat| j >= widths@.len() ==> column_width(rows@, j) == 0,
                out@ == table_text(rows@, r as nat, plain),
            decreases rows@.len() - r,
        {
            let ghost start = out@;
            if r != 0 {
                out.append("\n");
                proof {
                    reveal_strlit("\n");
                }
            }
            let ghost line_start = out@;
            assert(line_start =~= start + (if r + 1 > 1 { seq!['\n'] } else { seq![] }));
            let fields = &rows[r].fields;
            let mut j: usize = 0;
            while j < fields.len()
                invariant
                    r < rows@.len(),
                    fields == &rows@[r as int].fields,
                    fields_fit(rows@),
                    forall|k: int| 0 <= k < widths@.len() ==> widths@[k] as nat == column_width(rows@, k as nat),
                    forall|k: nat| k >= widths@.len() ==> column_width(rows@, k) == 0,
                    j <= fields@.len(),
                    out@ == line_start + row_text(rows@, fields@, j as nat, plain),
                decreases fields@.len() - j,
            {
                let f = &fields[j];
                let ghost prev = out@;
                if j + 1 == fields.len() {
                    let text = f.render(plain, 0);
                    out.append(text.as_str());
                } else if plain {
                    let text = f.render(true, 0);
                    out.append(text.as_str());
                    out.append(":");
                    proof {
                        reveal_strlit(":");
                    }
                } else {
                    proof {
                        lemma_column_width_fits(rows@, j as nat);
                        assert(rows@[r as int].fields@[j as int].string@.len() < usize::MAX);
                    }
                    let w: usize = if j < widths.len() { widths[j] } else { 0 };
                    let text = f.render(false, w + 1);
                    out.append(text.as_str());
                }
                assert(out@ =~= prev + field_text(rows@, fields@, j as nat, plain));
                j = j + 1;
            }
            assert(out@ =~= table_text(rows@, (r + 1) as nat, plain));
            r = r + 1;
        }
        out
    }
}

} // verus!
