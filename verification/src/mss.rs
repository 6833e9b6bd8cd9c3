//! Page-granular segments and error values of the snapshot storage client.

use vstd::prelude::*;

verus! {

/// Size in bytes of the pages that a [`Segment`] counts.
pub const PAGE_SIZE: u64 = 4096;

/// A run of whole pages, given by the index of its first page and its length in pages.
#[derive(Debug, Clone, Copy)]
pub struct Segment {
    page_offset: u64,
    page_count: u64,
}

impl Segment {
    /// Index of the first page of the segment.
    pub closed spec fn spec_page_offset(&self) -> u64 {
        self.page_offset
    }

    /// Number of pages in the segment.
    pub closed spec fn spec_page_count(&self) -> u64 {
        self.page_count
    }

    /// Builds the segment that starts at byte `offset` and spans `length` bytes.
    /// The start must lie on a page boundary; a trailing partial page is not counted.
    pub fn new(offset: usize, length: usize) -> (s: Segment)
        requires
            offset as u64 % PAGE_SIZE == 0,
        ensures
            s.spec_page_offset() == offset as u64 / PAGE_SIZE,
            s.spec_page_count() == length as u64 / PAGE_SIZE,
    {
        Segment { page_offset: offset as u64 / PAGE_SIZE, page_count: length as u64 / PAGE_SIZE }
    }

    /// Index of the first page of the segment.
    #[verifier::when_used_as_spec(spec_page_offset)]
    pub fn page_offset(&self) -> (r: u64)
        ensures
            r == self.spec_page_offset(),
    {
        self.page_offset
    }

    /// Number of pages in the segment.
    #[verifier::when_used_as_spec(spec_page_count)]
    pub fn page_count(&self) -> (r: u64)
        ensures
            r == self.spec_page_count(),
    {
        self.page_count
    }
}

/// An error of the storage service: its status code and a message.
#[derive(Debug)]
pub struct Error {
    code: i32,
    msg: String,
}

impl View for Error {
    type V = (i32, Seq<char>);

    closed spec fn view(&self) -> (i32, Seq<char>) {
        (self.code, self.msg@)
    }
}

impl Error {
    /// An error with the given status code and message.
    pub fn new(code: i32, msg: &str) -> (e: Error)
        ensures
            e@ == (code, msg@),
    {
        Error { code, msg: msg.to_string() }
    }

    /// The status code.
    pub fn code(&self) -> (r: i32)
        ensures
            r == self@.0,
    {
        self.code
    }

    /// The message.
    pub fn msg(&self) -> (r: &str)
        ensures
            r@ == self@.1,
    {
        self.msg.as_str()
    }
}

/// Turns the status that a call of the storage service returned into a result:
/// zero is success, and any other status is an error with that code and `msg`.
pub fn check_status(status: i32, msg: &str) -> (r: Result<(), Error>)
    ensures
        r is Ok <==> status == 0,
        r matches Err(e) ==> e@ == (status, msg@),
{
    if status == 0 {
        Ok(())
    } else {
        Err(Error::new(status, msg))
    }
}

} // verus!
