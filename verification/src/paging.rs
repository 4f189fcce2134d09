//! Walking a listing page by page.

use vstd::prelude::*;

use crate::error::FilesystemError;

verus! {

/// The state of a walk over a paged listing: the records of the current page that were not handed
/// out yet, the cursor of the next page, and whether there is none.
pub struct PagedRecords<Cursor, Record> {
    /// Cursor to load the next page after.
    pub after: Option<Cursor>,
    /// Records of the current page, the next one last.
    pub pending: Vec<Record>,
    /// No page is left to load.
    pub exhausted: bool,
}

/// What the walk does next.
pub enum PageStep<Cursor, Record> {
    /// It hands out a record.
    Yield(Record),
    /// It needs the page after this cursor.
    Load(Option<Cursor>),
    /// It is over.
    Done,
}

/// What loading a page changed.
pub enum PageLoaded {
    /// The walk goes on.
    Continue,
    /// The walk is over.
    Done,
    /// The walk hands out an error and is over.
    Failed(FilesystemError),
}

impl<Cursor: Copy, Record> PagedRecords<Cursor, Record> {
    /// The records that are still to be handed out, in order.
    pub open spec fn remaining(&self) -> Seq<Record> {
        self.pending@.reverse()
    }

    /// Starts a walk.
    pub fn new() -> (walk: Self)
        ensures
            walk.after is None,
            walk.pending@.len() == 0,
            !walk.exhausted,
    {
        PagedRecords { after: None, pending: Vec::new(), exhausted: false }
    }

    /// Takes the next step: the records of the current page come first, then the next page is asked
    /// for, until none is left.
    pub fn next_step(&mut self) -> (step: PageStep<Cursor, Record>)
        ensures
            final(self).after == old(self).after,
            final(self).exhausted == old(self).exhausted,
            old(self).remaining().len() > 0 ==> {
                &&& step == PageStep::<Cursor, Record>::Yield(old(self).remaining()[0])
                &&& final(self).remaining() == old(self).remaining().skip(1)
            },
            old(self).remaining().len() == 0 ==> {
                &&& final(self).remaining() == old(self).remaining()
                &&& step == (if old(self).exhausted {
                    PageStep::<Cursor, Record>::Done
                } else {
                    PageStep::<Cursor, Record>::Load(old(self).after)
                })
            },
    {
        let ghost before = self.pending@;
        match self.pending.pop() {
            Some(record) => {
                proof {
                    assert(before.reverse().skip(1) =~= self.pending@.reverse());
                }
                PageStep::Yield(record)
            },
            None => {
                if self.exhausted {
                    PageStep::Done
                } else {
                    PageStep::Load(self.after)
                }
            },
        }
    }

    /// Takes a loaded page in, or the error that loading it gave. A page without a next cursor is
    /// the last one; an empty page ends the walk, whatever its cursor; an error is handed out once.
    pub fn page_loaded(
        &mut self,
        page: Result<(Vec<Record>, Option<Cursor>), FilesystemError>,
    ) -> (loaded: PageLoaded)
        ensures
            match page {
                Err(error) => {
                    &&& loaded == PageLoaded::Failed(error)
                    &&& final(self).exhausted
                    &&& final(self).after == old(self).after
                    &&& final(self).remaining() == old(self).remaining()
                },
                Ok(content) => {
                    &&& final(self).after == content.1
                    &&& content.0@.len() == 0 ==> {
                        &&& loaded == PageLoaded::Done
                        &&& final(self).exhausted
                        &&& final(self).remaining() == old(self).remaining()
                    }
                    &&& content.0@.len() > 0 ==> {
                        &&& loaded == PageLoaded::Continue
                        &&& final(self).exhausted == content.1 is None
                        &&& final(self).remaining() == content.0@
                    }
                },
            },
    {
        match page {
            Err(error) => {
                self.exhausted = true;
                PageLoaded::Failed(error)
            },
            Ok(content) => {
                let (records, next_after) = content;
                self.after = next_after;
                self.exhausted = next_after.is_none();
                if records.len() == 0 {
                    self.exhausted = true;
                    return PageLoaded::Done;
                }
                self.pending = reversed(records);
                proof {
                    assert(records@.reverse().reverse() =~= records@);
                }
                PageLoaded::Continue
            },
        }
    }
}

fn reversed<Record>(records: Vec<Record>) -> (result: Vec<Record>)
    ensures
        result@ == records@.reverse(),
{
    let ghost all = records@;
    let mut source = records;
    let mut result: Vec<Record> = Vec::new();
    while source.len() > 0
        invariant
            source@ == all.take(source@.len() as int),
            source@.len() <= all.len(),
            result@ == all.skip(source@.len() as int).reverse(),
        decreases source@.len(),
    {
        let ghost n = source@.len() as int;
        match source.pop() {
            Some(record) => {
                result.push(record);
                proof {
                    assert(all.skip(n - 1) =~= seq![all[n - 1]] + all.skip(n));
                    assert(result@ =~= all.skip(n - 1).reverse());
                    assert(source@ =~= all.take(n - 1));
                }
            },
            None => {},
        }
    }
    proof {
        assert(all.skip(0) =~= all);
    }
    result
}

} // verus!
