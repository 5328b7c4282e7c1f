//! The simple history layout: one command per physical line, no escaping
//! and no continuation. Each line comes back verbatim, most recent first.

use vstd::prelude::*;
use crate::Error;
use crate::lines::RevLineSource;
use crate::lines::rev_lines_of;
use crate::text::lossy_of;
use crate::text::lossy_string;

verus! {

/// Reads a history file that stores exactly one command per physical line,
/// most recent line first.
pub struct BashHistoryReader {
    src: RevLineSource,
}

impl View for BashHistoryReader {
    type V = Seq<Seq<u8>>;

    /// The byte texts of the commands still to be emitted, most recent
    /// line first.
    closed spec fn view(&self) -> Seq<Seq<u8>> {
        self.src@
    }
}

impl BashHistoryReader {
    /// The underlying line source is in a usable state.
    pub closed spec fn wf(self) -> bool {
        self.src.wf()
    }

    /// Starts reading the history held in `data`, most recent line first.
    pub fn from_bytes(data: Vec<u8>) -> (r: BashHistoryReader)
        ensures
            r.wf(),
            r@ == rev_lines_of(data@),
    {
        BashHistoryReader { src: RevLineSource::new(data) }
    }

    /// Emits the next command, most recent first; once the history is
    /// exhausted, fails with `EOF` on this and every later call.
    pub fn read_command(&mut self) -> (r: Result<String, Error>)
        requires
            old(self).wf(),
        ensures
            final(self).wf(),
            old(self)@.len() > 0 ==> (r matches Ok(c) && c@ == lossy_of(old(self)@[0])
                && final(self)@ == old(self)@.drop_first()),
            old(self)@.len() == 0 ==> r == Err::<String, Error>(Error::EOF)
                && final(self)@ == old(self)@,
    {
        match self.src.next() {
            Some(line) => Ok(lossy_string(&line)),
            None => Err(Error::EOF),
        }
    }
}

} // verus!
