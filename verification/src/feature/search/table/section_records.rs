//! The table of sections.
use vstd::prelude::*;

use crate::feature::search::executor::common::{Record, RecordView};
use crate::feature::search::table::md_records::{kind_label, kind_text, opt_string, opt_text};
use crate::feature::search::table::{print_table, ratio_sum, table_lines, TableLine};
use crate::text::{decimal, decimal_string};

verus! {

/// The row of a section: its number, type, title and command.
pub open spec fn section_row(r: RecordView) -> Seq<Seq<char>> {
    seq![decimal(r.index as nat), kind_label(r), opt_text(r.title), opt_text(r.command)]
}

/// The header of the table of sections.
pub open spec fn section_headers() -> Seq<Seq<char>> {
    seq!["Index"@, "Type"@, "Title"@, "Command"@]
}

/// The printed lines of the table of the sections `records` in a terminal
/// `term_width` columns wide.
pub fn print_section_table(records: &Vec<Record>, term_width: usize) -> (r: Vec<TableLine>)
    requires
        9 <= term_width,
        (term_width - 9) * 4 <= usize::MAX,
    ensures
        r.deep_view() == table_lines(
            section_headers(),
            records.deep_view().map_values(|x: RecordView| section_row(x)),
            seq![1usize, 1usize, 4usize, 4usize],
            term_width as int,
        ),
{
    let mut headers: Vec<String> = Vec::new();
    headers.push("Index".to_owned());
    headers.push("Type".to_owned());
    headers.push("Title".to_owned());
    headers.push("Command".to_owned());
    assert(headers.deep_view() =~= section_headers());
    let mut rows: Vec<Vec<String>> = Vec::new();
    let mut i: usize = 0;
    while i < records.len()
        invariant
            i <= records.len(),
            rows.deep_view() =~= records.deep_view().take(i as int).map_values(|x: RecordView| section_row(x)),
        decreases records.len() - i,
    {
        let r = &records[i];
        let mut row: Vec<String> = Vec::new();
        row.push(decimal_string(r.index));
        row.push(kind_text(r));
        row.push(opt_string(&r.title));
        row.push(opt_string(&r.command));
        assert(row.deep_view() =~= section_row(r.deep_view()));
        let ghost before = rows.deep_view();
        rows.push(row);
        assert(rows.deep_view() =~= before.push(row.deep_view()));
        i = i + 1;
        assert(records.deep_view().take(i as int) =~= records.deep_view().take(i - 1).push(records.deep_view()[i - 1]));
    }
    assert(records.deep_view().take(records.len() as int) =~= records.deep_view());
    let ratios: Vec<usize> = vec![1, 1, 4, 4];
    assert(ratios@ =~= seq![1usize, 1usize, 4usize, 4usize]);
    proof {
        let r = ratios@;
        assert(r.drop_last().drop_last().drop_last().drop_last() =~= Seq::<usize>::empty());
        assert(ratio_sum(r) == 10) by {
            reveal_with_fuel(ratio_sum, 5);
        }
        assert forall|k: int| 0 <= k < r.len() implies (term_width - 9) * #[trigger] r[k] <= usize::MAX by {
            let u = term_width - 9;
            assert(0 <= r[k] <= 4);
            assert(u * r[k] <= u * 4) by (nonlinear_arith)
                requires
                    0 <= r[k] <= 4,
                    u >= 0,
            ;
        }
    }
    print_table(&headers, &rows, &ratios, term_width)
}

} // verus!
