//! The table of markdown files.
use vstd::prelude::*;

use crate::feature::search::executor::common::{Record, RecordView};
use crate::feature::search::table::{print_table, ratio_sum, table_lines, TableLine};
use crate::text::{decimal, decimal_string};

verus! {

/// The text of an optional string, empty when absent.
pub open spec fn opt_text(o: Option<Seq<char>>) -> Seq<char> {
    match o {
        Some(t) => t,
        None => seq![],
    }
}

/// The type column of a record: collection and unit, as `cmd / MD`.
pub open spec fn kind_label(r: RecordView) -> Seq<char> {
    r.record_type.spec_label() + seq![' ', '/', ' '] + r.unit_type.spec_label()
}

/// The row of a markdown file: its number, type, title and section count.
pub open spec fn md_row(r: RecordView) -> Seq<Seq<char>> {
    seq![
        decimal(r.index as nat),
        kind_label(r),
        opt_text(r.title),
        match r.count {
            Some(c) => decimal(c as nat),
            None => seq![],
        },
    ]
}

/// The header of the table of markdown files.
pub open spec fn md_headers() -> Seq<Seq<char>> {
    seq!["Index"@, "Type"@, "Command"@, "Count"@]
}

/// The type column of a record.
pub fn kind_text(r: &Record) -> (s: String)
    ensures
        s@ == kind_label(r.deep_view()),
{
    let a = r.record_type.label();
    let b = r.unit_type.label();
    let mut v = crate::text::to_chars(a.as_str());
    v.push(' ');
    v.push('/');
    v.push(' ');
    crate::text::extend(&mut v, &crate::text::to_chars(b.as_str()));
    assert(v@ =~= kind_label(r.deep_view()));
    crate::text::from_chars(&v)
}

/// The text of an optional string, empty when absent.
pub fn opt_string(o: &Option<String>) -> (s: String)
    ensures
        s@ == opt_text(o.deep_view()),
{
    match o {
        Some(t) => t.clone(),
        None => String::new(),
    }
}

/// The printed lines of the table of the markdown files `records` in a
/// terminal `term_width` columns wide.
pub fn print_md_table(records: &Vec<Record>, term_width: usize) -> (r: Vec<TableLine>)
    requires
        9 <= term_width,
        (term_width - 9) * 6 <= usize::MAX,
    ensures
        r.deep_view() == table_lines(
            md_headers(),
            records.deep_view().map_values(|x: RecordView| md_row(x)),
            seq![1usize, 1usize, 6usize, 1usize],
            term_width as int,
        ),
{
    let mut headers: Vec<String> = Vec::new();
    headers.push("Index".to_owned());
    headers.push("Type".to_owned());
    headers.push("Command".to_owned());
    headers.push("Count".to_owned());
    assert(headers.deep_view() =~= md_headers());
    let mut rows: Vec<Vec<String>> = Vec::new();
    let mut i: usize = 0;
    while i < records.len()
        invariant
            i <= records.len(),
            rows.deep_view() =~= records.deep_view().take(i as int).map_values(|x: RecordView| md_row(x)),
        decreases records.len() - i,
    {
        let r = &records[i];
        let mut row: Vec<String> = Vec::new();
        row.push(decimal_string(r.index));
        row.push(kind_text(r));
        row.push(opt_string(&r.title));
        row.push(match r.count {
            Some(c) => decimal_string(c),
            None => String::new(),
        });
        assert(row.deep_view() =~= md_row(r.deep_view()));
        let ghost before = rows.deep_view();
        rows.push(row);
        assert(rows.deep_view() =~= before.push(row.deep_view()));
        i = i + 1;
        assert(records.deep_view().take(i as int) =~= records.deep_view().take(i - 1).push(records.deep_view()[i - 1]));
    }
    assert(records.deep_view().take(records.len() as int) =~= records.deep_view());
    let ratios: Vec<usize> = vec![1, 1, 6, 1];
    assert(ratios@ =~= seq![1usize, 1usize, 6usize, 1usize]);
    proof {
        let r = ratios@;
        assert(r.drop_last().drop_last().drop_last().drop_last() =~= Seq::<usize>::empty());
        assert(ratio_sum(r) == 9) by {
            reveal_with_fuel(ratio_sum, 5);
        }
        assert forall|k: int| 0 <= k < r.len() implies (term_width - 9) * #[trigger] r[k] <= usize::MAX by {
            let u = term_width - 9;
            assert(0 <= r[k] <= 6);
            assert(u * r[k] <= u * 6) by (nonlinear_arith)
                requires
                    0 <= r[k] <= 6,
                    u >= 0,
            ;
        }
    }
    print_table(&headers, &rows, &ratios, term_width)
}

} // verus!
