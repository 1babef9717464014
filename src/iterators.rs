//! The cursor capability shared by every iterator of the storage core.

use vstd::prelude::*;
use crate::key::EntryView;
use crate::LsmError;

verus! {

/// A forward cursor over key/value pairs. Its abstract state is the run of
/// entries from the current position to the end: the cursor is valid while
/// that run is not empty, and stands on its first entry.
pub trait StorageIterator {
    /// Whether the cursor's internal state is consistent.
    spec fn inv(&self) -> bool;

    /// The entries from the current position to the end, in order.
    spec fn remaining(&self) -> Seq<EntryView>;

    /// Whether `next` cannot fail on this cursor, now or later.
    spec fn reliable(&self) -> bool;

    /// Whether `next` may fail with `e` on this cursor, now or later.
    spec fn fails_with(&self, e: LsmError) -> bool;

    /// The key of the current entry.
    fn key(&self) -> (r: &[u8])
        requires
            self.inv(),
            self.remaining().len() > 0,
        ensures
            r@ == self.remaining()[0].0,
    ;

    /// The value of the current entry.
    fn value(&self) -> (r: &[u8])
        requires
            self.inv(),
            self.remaining().len() > 0,
        ensures
            r@ == self.remaining()[0].1,
    ;

    /// Whether the cursor stands on an entry.
    fn is_valid(&self) -> (r: bool)
        requires
            self.inv(),
        ensures
            r == (self.remaining().len() > 0),
    ;

    /// Moves to the next entry; a no-op on an invalid cursor. On success the
    /// first remaining entry is consumed.
    fn next(&mut self) -> (r: Result<(), LsmError>)
        requires
            old(self).inv(),
        ensures
            final(self).inv(),
            old(self).reliable() ==> r is Ok && final(self).reliable(),
            r matches Err(e) ==> old(self).fails_with(e),
            forall|e: LsmError| #[trigger] final(self).fails_with(e) == old(self).fails_with(e),
            old(self).remaining().len() == 0 ==> r is Ok && final(self).remaining() == old(
                self,
            ).remaining(),
            r is Ok ==> final(self).remaining() == if old(self).remaining().len() > 0 {
                old(self).remaining().drop_first()
            } else {
                old(self).remaining()
            },
    ;
}

} // verus!
