use crate::bindings::DbFlags;
use vstd::prelude::*;
use vstd::string::*;

verus! {

/// `s` holds a NUL character, which a C string cannot carry.
pub open spec fn has_nul(s: Seq<char>) -> bool {
    exists|i: int| 0 <= i < s.len() && s[i] == '\0'
}

/// Tells whether `s` can be handed to the native library as a C string.
pub fn fits_c_string(s: &str) -> (ok: bool)
    ensures
        ok == !has_nul(s@),
        ok == !s@.contains('\0'),
{
    let n = s.unicode_len();
    let mut i: usize = 0;
    while i < n
        invariant
            n == s@.len(),
            i <= n,
            forall|j: int| 0 <= j < i ==> s@[j] != '\0',
        decreases n - i,
    {
        if s.get_char(i) == '\0' {
            return false;
        }
        i = i + 1;
    }
    true
}

/// `b` holds a zero byte, which a C string cannot carry.
pub open spec fn has_zero_byte(b: Seq<u8>) -> bool {
    exists|i: int| 0 <= i < b.len() && b[i] == 0
}

/// Tells whether the bytes `b` can be handed to the native library as a C string.
pub fn fits_c_bytes(b: &[u8]) -> (ok: bool)
    ensures
        ok == !has_zero_byte(b@),
        ok == !b@.contains(0u8),
{
    let mut i: usize = 0;
    while i < b.len()
        invariant
            i <= b@.len(),
            forall|j: int| 0 <= j < i ==> b@[j] != 0,
        decreases b@.len() - i,
    {
        if b[i] == 0 {
            return false;
        }
        i = i + 1;
    }
    true
}

/// A text is refused as a C string exactly when it holds the character NUL, and a
/// byte string exactly when it holds the byte 0; every other character and byte
/// can be carried.
pub proof fn lemma_c_string_refusal(s: Seq<char>, b: Seq<u8>)
    ensures
        has_nul(s) <==> s.contains('\0'),
        has_zero_byte(b) <==> b.contains(0u8),
        (forall|i: int| 0 <= i < s.len() ==> s[i] != '\0') ==> !has_nul(s),
        (forall|i: int| 0 <= i < b.len() ==> b[i] != 0u8) ==> !has_zero_byte(b),
{
}

/// An open installer database. `H` is the handle that the native binding owns.
pub struct Database<H> {
    handle: H,
}

/// The records that a query yields, fetched one at a time. `Q` is the handle of
/// the native query.
pub struct FetchIter<Q> {
    query: Q,
}

impl<H> Database<H> {
    /// The native handle of the database.
    pub closed spec fn spec_handle(&self) -> H {
        self.handle
    }

    /// Opens the database at the path whose bytes are `path` with `flags`.
    ///
    /// A path that holds a zero byte cannot reach the native library: the result
    /// is `None` and `open` is not called. Otherwise `open` opens the database, and
    /// `None` from it gives `None`.
    pub fn new<F: FnOnce(&[u8], DbFlags) -> Option<H>>(path: &[u8], flags: DbFlags, open: F) -> (r: Option<Self>)
        requires
            !has_zero_byte(path@) ==> call_requires(open, (path, flags)),
        ensures
            has_zero_byte(path@) ==> r is None,
            path@.contains(0u8) ==> r is None,
            !has_zero_byte(path@) ==> match r {
                Some(db) => call_ensures(open, (path, flags), Some(db.spec_handle())),
                None => call_ensures(open, (path, flags), None::<H>),
            },
    {
        if !fits_c_bytes(path) {
            return None;
        }
        match open(path, flags) {
            Some(handle) => Some(Database { handle }),
            None => None,
        }
    }

    /// Wraps the native handle of an open database.
    pub fn from_handle(handle: H) -> (db: Self)
        ensures
            db.spec_handle() == handle,
    {
        Database { handle }
    }

    /// The native handle of the database.
    pub fn handle(&self) -> (h: &H)
        ensures
            *h == self.spec_handle(),
    {
        &self.handle
    }

    /// Prepares `query` and returns the iterator over its records.
    ///
    /// A query that holds a NUL character cannot reach the native library: the
    /// result is `None` and `prepare` is not called. Otherwise `prepare` makes the
    /// native query from the handle and the text, and `None` from it gives `None`.
    pub fn query_iter<Q, F: FnOnce(&H, &str) -> Option<Q>>(&self, query: &str, prepare: F) -> (r: Option<
        FetchIter<Q>,
    >)
        requires
            !has_nul(query@) ==> call_requires(prepare, (&self.spec_handle(), query)),
        ensures
            has_nul(query@) ==> r is None,
            query@.contains('\0') ==> r is None,
            !has_nul(query@) ==> match r {
                Some(it) => call_ensures(prepare, (&self.spec_handle(), query), Some(it.spec_query())),
                None => call_ensures(prepare, (&self.spec_handle(), query), None::<Q>),
            },
    {
        if !fits_c_string(query) {
            return None;
        }
        match prepare(&self.handle, query) {
            Some(q) => Some(FetchIter { query: q }),
            None => None,
        }
    }
}

impl<Q> FetchIter<Q> {
    /// The native query that the iterator reads from.
    pub closed spec fn spec_query(&self) -> Q {
        self.query
    }

    /// The native query that the iterator reads from.
    pub fn query(&self) -> (q: &Q)
        ensures
            *q == self.spec_query(),
    {
        &self.query
    }

    /// Fetches the next record: `fetch` reads it from the native query, and `None`
    /// marks the end of the records.
    pub fn next<R, F: FnOnce(&Q) -> Option<R>>(&mut self, fetch: F) -> (r: Option<R>)
        requires
            call_requires(fetch, (&old(self).spec_query(),)),
        ensures
            call_ensures(fetch, (&old(self).spec_query(),), r),
            final(self).spec_query() == old(self).spec_query(),
    {
        fetch(&self.query)
    }
}

} // verus!
