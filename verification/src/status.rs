//! Compilation status of a project, and its mapping to and from the two
//! nullable text columns (status, error) that the job store persists.

use vstd::prelude::*;

verus! {

/// The lifecycle states of a project's compilation.
#[derive(Clone, Debug, PartialEq, Eq)]
pub enum ProjectStatus {
    /// No compilation has been requested for the current version.
    NotCompiled,
    /// Compilation finished successfully.
    Success,
    /// Queued, waiting for the compiler.
    Pending,
    /// A compiler is running on it.
    Compiling,
    /// The first stage failed; the payload is its error output.
    SqlError(String),
    /// The second stage failed; the payload is its error output.
    RustError(String),
}

/// The error column's text, with a missing column read as empty.
pub open spec fn error_text(error_string: Option<String>) -> Seq<char> {
    match error_string {
        Option::Some(e) => e@,
        Option::None => Seq::empty(),
    }
}

/// The five status words are pairwise distinct text.
proof fn lemma_status_words_distinct()
    ensures
        "success"@ != "pending"@,
        "success"@ != "compiling"@,
        "success"@ != "sql_error"@,
        "success"@ != "rust_error"@,
        "pending"@ != "compiling"@,
        "pending"@ != "sql_error"@,
        "pending"@ != "rust_error"@,
        "compiling"@ != "sql_error"@,
        "compiling"@ != "rust_error"@,
        "sql_error"@ != "rust_error"@,
{
    reveal_strlit("success");
    reveal_strlit("pending");
    reveal_strlit("compiling");
    reveal_strlit("sql_error");
    reveal_strlit("rust_error");
    assert("success"@.len() == 7);
    assert("pending"@.len() == 7);
    assert("compiling"@.len() == 9);
    assert("sql_error"@.len() == 9);
    assert("rust_error"@.len() == 10);
    assert("success"@[0] == 's');
    assert("pending"@[0] == 'p');
    assert("compiling"@[0] == 'c');
    assert("sql_error"@[0] == 's');
}

/// Compares two text slices by content.
fn str_eq(a: &str, b: &str) -> (r: bool)
    ensures
        r == (a@ == b@),
{
    let sa = a.to_owned();
    let sb = b.to_owned();
    sa == sb
}

impl ProjectStatus {
    /// Decodes the two database columns into a status: a missing status column
    /// means no compilation, a recognized word selects its state (the error
    /// column filling the failure payloads), and any other word is rejected
    /// and handed back.
    pub fn from_columns(status_string: Option<&str>, error_string: Option<String>) -> (r: Result<
        Self,
        String,
    >)
        ensures
            ({
                match status_string {
                    Option::None => r == Result::<Self, String>::Ok(ProjectStatus::NotCompiled),
                    Option::Some(s) => {
                &&& s@ == "success"@ ==> r == Result::<Self, String>::Ok(ProjectStatus::Success)
                &&& s@ == "pending"@ ==> r == Result::<Self, String>::Ok(ProjectStatus::Pending)
                &&& s@ == "compiling"@ ==> r == Result::<Self, String>::Ok(
                    ProjectStatus::Compiling,
                )
                &&& s@ == "sql_error"@ ==> ({
                    &&& r matches Result::Ok(st)
                    &&& st matches ProjectStatus::SqlError(e)
                    &&& e@ == error_text(error_string)
                })
                &&& s@ == "rust_error"@ ==> ({
                    &&& r matches Result::Ok(st)
                    &&& st matches ProjectStatus::RustError(e)
                    &&& e@ == error_text(error_string)
                })
                &&& (s@ != "success"@ && s@ != "pending"@ && s@ != "compiling"@ && s@
                    != "sql_error"@ && s@ != "rust_error"@) ==> ({
                    &&& r matches Result::Err(bad)
                    &&& bad@ == s@
                })
                    },
                }
            }),
    {
        proof {
            lemma_status_words_distinct();
        }
        match status_string {
            Option::None => Result::Ok(ProjectStatus::NotCompiled),
            Option::Some(status) => {
                if str_eq(status, "success") {
                    Result::Ok(ProjectStatus::Success)
                } else if str_eq(status, "pending") {
                    Result::Ok(ProjectStatus::Pending)
                } else if str_eq(status, "compiling") {
                    Result::Ok(ProjectStatus::Compiling)
                } else if str_eq(status, "sql_error") {
                    Result::Ok(ProjectStatus::SqlError(unwrap_or_empty(error_string)))
                } else if str_eq(status, "rust_error") {
                    Result::Ok(ProjectStatus::RustError(unwrap_or_empty(error_string)))
                } else {
                    Result::Err(status.to_owned())
                }
            },
        }
    }

    /// Encodes a status back into the two database columns, the exact inverse
    /// of the decoding: the status word (absent for no compilation) and the
    /// error payload (absent outside the failure states).
    pub fn to_columns(&self) -> (r: (Option<String>, Option<String>))
        ensures
            self matches ProjectStatus::NotCompiled ==> r.0 matches Option::None && r.1 matches
                Option::None,
            self matches ProjectStatus::Success ==> ({
                &&& r.0 matches Option::Some(s)
                &&& s@ == "success"@
                &&& r.1 matches Option::None
            }),
            self matches ProjectStatus::Pending ==> ({
                &&& r.0 matches Option::Some(s)
                &&& s@ == "pending"@
                &&& r.1 matches Option::None
            }),
            self matches ProjectStatus::Compiling ==> ({
                &&& r.0 matches Option::Some(s)
                &&& s@ == "compiling"@
                &&& r.1 matches Option::None
            }),
            self matches ProjectStatus::SqlError(e) ==> ({
                &&& r.0 matches Option::Some(s)
                &&& s@ == "sql_error"@
                &&& r.1 matches Option::Some(x)
                &&& x@ == e@
            }),
            self matches ProjectStatus::RustError(e) ==> ({
                &&& r.0 matches Option::Some(s)
                &&& s@ == "rust_error"@
                &&& r.1 matches Option::Some(x)
                &&& x@ == e@
            }),
    {
        match self {
            ProjectStatus::NotCompiled => (Option::None, Option::None),
            ProjectStatus::Success => (Option::Some("success".to_owned()), Option::None),
            ProjectStatus::Pending => (Option::Some("pending".to_owned()), Option::None),
            ProjectStatus::Compiling => (Option::Some("compiling".to_owned()), Option::None),
            ProjectStatus::SqlError(error) => (
                Option::Some("sql_error".to_owned()),
                Option::Some(error.clone()),
            ),
            ProjectStatus::RustError(error) => (
                Option::Some("rust_error".to_owned()),
                Option::Some(error.clone()),
            ),
        }
    }
}

/// The contained text, or an empty string for a missing column.
fn unwrap_or_empty(error_string: Option<String>) -> (r: String)
    ensures
        r@ == error_text(error_string),
{
    match error_string {
        Option::Some(e) => e,
        Option::None => String::new(),
    }
}

} // verus!
