//! Searching writeups.
use vstd::prelude::*;

use crate::error::{OrsError, OrsErrorView};
use crate::feature::search::executor::common::{collect_records, listing};
use crate::feature::search::executor::flag::open::{self, editor_args};
use crate::feature::search::executor::{RecordStore, SearchAction, SearchActionView, SearchExecutor};

verus! {

/// A writeup search: the listing, or one writeup shown or opened.
pub struct Writeup {
    pub number: Vec<usize>,
    pub open: bool,
}

impl Writeup {
    /// A writeup search for the writeup numbered in `number`, if any.
    pub fn new(number: Vec<usize>, open: bool) -> (w: Writeup)
        ensures
            w.number == number,
            w.open == open,
    {
        Writeup { number, open }
    }
}

impl SearchExecutor for Writeup {
    open spec fn spec_accepts(&self, store: &RecordStore) -> bool {
        self.number@.len() == 1 ==> self.number@[0] < listing(store.writeups@).len()
    }

    open spec fn spec_run(&self, store: &RecordStore) -> Result<SearchActionView, OrsErrorView> {
        let recs = listing(store.writeups@);
        if self.number@.len() == 0 {
            Ok(SearchActionView::MdTable(recs))
        } else if self.number@.len() == 1 {
            let md = recs[self.number@[0] as int];
            if self.open {
                Ok(SearchActionView::Open(editor_args(md.path, None)))
            } else {
                Ok(SearchActionView::ShowMd(md.path))
            }
        } else {
            Err(OrsErrorView::TooManyArguments)
        }
    }

    fn accepts(&self, store: &RecordStore) -> (b: bool) {
        if self.number.len() == 1 {
            let records = collect_records(&store.writeups);
            self.number[0] < records.len()
        } else {
            true
        }
    }

    fn run(&self, store: &RecordStore) -> (r: Result<SearchAction, OrsError>) {
        if self.number.len() == 0 {
            let records = collect_records(&store.writeups);
            Ok(SearchAction::MdTable(records))
        } else if self.number.len() == 1 {
            let records = collect_records(&store.writeups);
            let md_index = self.number[0];
            let md = &records[md_index];
            assert(records.deep_view()[md_index as int] == md.deep_view());
            if self.open {
                Ok(SearchAction::Open(open::exe(&md.path)))
            } else {
                Ok(SearchAction::ShowMd(md.path.clone()))
            }
        } else {
            Err(OrsError::TooManyArguments)
        }
    }
}

/// A writeup search for the number `n` shows, or opens, the writeup the
/// listing numbers `n`: the `n`th of the writeups sorted by path.
pub proof fn law_writeup_numbered(w: Writeup, store: &RecordStore)
    requires
        w.number@.len() == 1,
        w.number@[0] < listing(store.writeups@).len(),
    ensures
        ({
            let l = listing(store.writeups@);
            let n = w.number@[0] as int;
            &&& l[n].index == n
            &&& !w.open ==> w.spec_run(store) == Ok::<SearchActionView, OrsErrorView>(SearchActionView::ShowMd(l[n].path))
            &&& w.open ==> w.spec_run(store) == Ok::<SearchActionView, OrsErrorView>(
                SearchActionView::Open(seq![l[n].path]),
            )
        }),
{
    crate::feature::search::executor::common::law_listing_sorted_and_complete(store.writeups@);
}

} // verus!
