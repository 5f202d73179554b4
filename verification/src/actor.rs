//! The actor's rules: how it is constructed, what a run of statements
//! returns, how the SQL engine's settings are checked, and which method
//! numbers it answers.

use crate::errors::Error;
use crate::layout::height;
use crate::state::{bucket_links, leaf_links, page_links, pages_of, State, DB};
use crate::store::{follows, writes_within, wrote_all, Cas};
use vstd::prelude::*;

verus! {

/// The page size of the SQL engine's database file.
pub const SQLITE_PAGE_SIZE: usize = 4096;

/// The first method number open to callers outside the built-in actors.
pub const FIRST_EXPORTED_METHOD_NUMBER: u64 = 16777216;

/// What the constructor takes: the database image and the tree's fan-out.
#[derive(Debug)]
pub struct ConstructorParams {
    pub db: Vec<u8>,
    pub buck_size: usize,
}

/// What `Execute` takes: the statements to run in one transaction.
#[derive(Debug)]
pub struct ExecuteParams {
    pub stmts: Vec<String>,
}

/// What `Execute` returns: the number of rows that the statements changed.
#[derive(Clone, Copy, Debug, PartialEq, Eq, Structural)]
pub struct ExecuteReturn {
    pub effected_rows: usize,
}

/// What `Query` takes: one statement that only reads.
#[derive(Debug)]
pub struct QueryParams {
    pub stmt: String,
}

/// What `Ping` returns.
#[derive(Debug)]
pub struct PingReturn {
    pub symbol: String,
}

/// `==` on `str`: whether the two strings hold the same characters.
#[verifier::external_body]
pub(crate) fn str_eq(a: &str, b: &str) -> (r: bool)
    ensures
        r == (a@ == b@),
{
    a == b
}

/// The Tableland actor.
pub struct Actor;

impl Actor {
    /// The actor's name.
    pub fn name() -> (r: &'static str)
        ensures
            r@ == "Tableland"@,
    {
        "Tableland"
    }

    /// Builds the actor's state from a database image: the pages of the
    /// image go to the store, and the state is the tree over them. A fan-out
    /// below two is an illegal argument; any other failure is the store's.
    pub fn constructor<S: Cas>(store: &mut S, params: ConstructorParams) -> (r: Result<
        State,
        Error,
    >)
        ensures
            follows(final(store), old(store)),
            params.buck_size < 2 ==> (r matches Err(e) && e is IllegalArgument),
            params.buck_size >= 2 && params.db@.len() == 0 ==> r is Ok,
            params.buck_size >= 2 ==> match r {
                Ok(st) => {
                    &&& st.db.page_size == SQLITE_PAGE_SIZE
                    &&& st.db.buck_size == params.buck_size
                    &&& st.db.wf()
                    &&& st.db.is_tree_of(
                        leaf_links(pages_of(params.db@, SQLITE_PAGE_SIZE as nat)),
                    )
                    &&& !final(store).collided() ==> st.db.holds(
                        final(store).blocks(),
                        pages_of(params.db@, SQLITE_PAGE_SIZE as nat),
                    )
                },
                Err(e) => e is Passthrough,
            },
            writes_within(
                old(store).blocks(),
                final(store).blocks(),
                page_links(pages_of(params.db@, SQLITE_PAGE_SIZE as nat)).union(
                    bucket_links(
                        leaf_links(pages_of(params.db@, SQLITE_PAGE_SIZE as nat)),
                        params.buck_size as nat,
                        height(
                            pages_of(params.db@, SQLITE_PAGE_SIZE as nat).len(),
                            params.buck_size as nat,
                        ),
                    ),
                ),
            ),
            r matches Ok(st) ==> wrote_all(
                final(store).blocks(),
                page_links(pages_of(params.db@, SQLITE_PAGE_SIZE as nat)).union(
                    bucket_links(
                        leaf_links(pages_of(params.db@, SQLITE_PAGE_SIZE as nat)),
                        params.buck_size as nat,
                        st.db.tree_height as nat,
                    ),
                ),
            ),
    {
        match DB::new(store, params.db.as_slice(), SQLITE_PAGE_SIZE, params.buck_size) {
            Ok(db) => Ok(State { db }),
            Err(e) => Err(e),
        }
    }

    /// Checks a statement before it goes to the engine: an empty one is a
    /// bad parameter.
    pub fn check_statement(stmt: &str) -> (r: Result<(), Error>)
        ensures
            stmt@.len() == 0 <==> r is Err,
            r matches Err(e) ==> e is IllegalArgument,
    {
        proof {
            reveal_strlit("");
        }
        if str_eq(stmt, "") {
            Err(Error::IllegalArgument("empty statement".to_string()))
        } else {
            assert(stmt@.len() != 0) by {
                if stmt@.len() == 0 {
                    assert(stmt@ =~= ""@);
                }
            }
            Ok(())
        }
    }

    /// Adds the outcome of one statement to the rows counted so far. A
    /// failed statement ends the run with the engine's message.
    pub fn count_rows(total: usize, outcome: Result<usize, String>) -> (r: Result<usize, Error>)
        requires
            outcome matches Ok(n) ==> total + n <= usize::MAX,
        ensures
            match outcome {
                Ok(n) => r matches Ok(sum) && sum == total + n,
                Err(msg) => r matches Err(Error::SQLiteError(m)) && m == msg,
            },
    {
        match outcome {
            Ok(n) => Ok(total + n),
            Err(msg) => Err(Error::SQLiteError(msg)),
        }
    }

    /// Whether the engine must be told the page size: only a database
    /// without pages can still be given one.
    pub fn is_new(st: &State) -> (r: bool)
        ensures
            r == (st.db.page_count == 0),
    {
        st.db.page_count == 0
    }

    /// Checks the page size that the engine reports: it must be
    /// `SQLITE_PAGE_SIZE`.
    pub fn check_page_size(page_size: usize) -> (r: Result<(), Error>)
        ensures
            page_size == SQLITE_PAGE_SIZE <==> r is Ok,
            r matches Err(e) ==> e is Passthrough,
    {
        if page_size != SQLITE_PAGE_SIZE {
            Err(Error::Passthrough("db must use page_size = 4096".to_string()))
        } else {
            Ok(())
        }
    }

    /// Checks the journal mode that the engine echoes: it must be
    /// `memory`.
    pub fn check_journal_mode(journal_mode: &str) -> (r: Result<(), Error>)
        ensures
            journal_mode@ == "memory"@ <==> r is Ok,
            r matches Err(e) ==> e is Passthrough,
    {
        if !str_eq(journal_mode, "memory") {
            Err(Error::Passthrough("db must use journal_mode = MEMORY".to_string()))
        } else {
            Ok(())
        }
    }

    /// Answers a method number that no method has: numbers in the exported
    /// range are accepted and return nothing, the others are unhandled.
    pub fn fallback(method: u64) -> (r: Result<(), Error>)
        ensures
            method >= FIRST_EXPORTED_METHOD_NUMBER <==> r is Ok,
            r matches Err(e) ==> e is UnhandledMessage,
    {
        if method >= FIRST_EXPORTED_METHOD_NUMBER {
            Ok(())
        } else {
            Err(Error::UnhandledMessage("invalid method".to_string()))
        }
    }
}

} // verus!
