use vstd::prelude::*;

use crate::form_data::arr_len_at;
use crate::form_data::FormData;
use crate::query_string::QueryString;
use crate::query_string::QueryStringPart;
use crate::query_string::SegModel;
use crate::query_string::MAX_DEPTH;

verus! {

/// Binds a repeatable group of rows at an index-keyed path. The current
/// row count is inferred from the data on creation and then adjusted as
/// rows are added or removed; no explicit count field is ever stored.
#[derive(Debug)]
pub struct Repeatable {
    qs: QueryString,
    size: usize,
}

impl Repeatable {
    /// The bound path.
    pub closed spec fn path(&self) -> Seq<SegModel> {
        self.qs@
    }

    /// The number of rows currently displayed.
    pub closed spec fn spec_size(&self) -> int {
        self.size as int
    }

    /// Binds a repeatable group at `qs`, inferring the initial row count
    /// from the store: the inferred array length, or zero where none is
    /// known.
    pub fn new(qs: QueryString, data: &FormData) -> (r: Self)
        requires
            arr_len_at(data@, qs@) matches Some(n) ==> n <= usize::MAX as int,
        ensures
            r.path() == qs@,
            r.spec_size() == (match arr_len_at(data@, qs@) {
                Some(n) => n,
                None => 0,
            }),
    {
        let size: usize = match data.len(&qs) {
            Some(n) => n,
            None => 0,
        };
        Repeatable { qs, size }
    }

    /// The number of rows currently displayed.
    pub fn len(&self) -> (r: usize)
        ensures
            r as int == self.spec_size(),
    {
        self.size
    }

    /// The path of row `i`.
    pub fn row(&self, i: usize) -> (r: QueryString)
        requires
            self.path().len() < MAX_DEPTH,
        ensures
            r@ == self.path().push(SegModel::Index(i as int)),
    {
        self.qs.clone().add_index(i)
    }

    /// Adds one row and returns its path. The count is derived, not
    /// stored: mounting the new row's fields is what will populate the
    /// store under the returned path.
    pub fn add_row(&mut self) -> (r: QueryString)
        requires
            old(self).spec_size() < usize::MAX,
            old(self).path().len() < MAX_DEPTH,
        ensures
            final(self).path() == old(self).path(),
            final(self).spec_size() == old(self).spec_size() + 1,
            r@ == old(self).path().push(SegModel::Index(old(self).spec_size())),
    {
        let r = self.qs.clone().add_index(self.size);
        self.size = self.size + 1;
        r
    }

    /// Removes the last displayed row, if any. Data stored under the
    /// removed index is left in place on purpose: adding the row back
    /// restores it without any explicit undo state.
    pub fn remove_row(&mut self)
        ensures
            final(self).path() == old(self).path(),
            old(self).spec_size() > 0 ==> final(self).spec_size() == old(self).spec_size() - 1,
            old(self).spec_size() == 0 ==> final(self).spec_size() == 0,
    {
        if self.size > 0 {
            self.size = self.size - 1;
        }
    }
}

} // verus!
