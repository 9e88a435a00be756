//! The error type of the library.

use vstd::prelude::*;
use vstd::string::*;

verus! {

/// What can go wrong. An I/O failure is carried as its text.
#[derive(Debug)]
pub enum BoogyError {
    Io(String),
    Corruption(String),
    TableNotFound(String),
    TableExists(String),
    RowNotFound(String),
    DuplicateKey(u64),
    SchemaMismatch(String),
    TypeMismatch(String),
    IndexNotFound(String),
    IndexExists(String),
    UniqueViolation { index: String },
    TableLocked(String),
    DecryptionFailed(String),
    InvalidKey(String),
    RowTooLarge(usize),
    PageFull,
    TransactionConflict,
    VectorCollectionNotFound(String),
    VectorCollectionExists(String),
    VectorDimensionMismatch { expected: u32, got: u32 },
    VectorError(String),
}

/// The result of an operation that can fail.
pub type Result<T> = std::result::Result<T, BoogyError>;

/// The text `before` + `name` + `after`.
fn quoted(before: &str, name: &String, after: &str) -> (m: String)
    ensures
        m@ == before@ + name@ + after@,
{
    let mut m: String = before.to_owned();
    m.append(name.as_str());
    m.append(after);
    m
}

/// A decimal number as std prints it.
pub open spec fn is_decimal_u64(v: u64, s: Seq<char>) -> bool {
    exists|d: String| to_string_from_display_ensures::<u64>(&v, d) && d@ == s
}

/// The text `before` + the number + `after`.
pub fn numbered(before: &str, v: u64, after: &str) -> (m: String)
    ensures
        exists|d: Seq<char>| is_decimal_u64(v, d) && m@ == before@ + d + after@,
{
    let d: String = v.to_string();
    let mut m: String = before.to_owned();
    m.append(d.as_str());
    m.append(after);
    assert(is_decimal_u64(v, d@));
    m
}

impl BoogyError {
    /// The text shown to a user.
    pub fn message(&self) -> (m: String)
        ensures
            match self {
                BoogyError::Io(e) => m@ == "I/O error: "@ + e@ + ""@,
                BoogyError::Corruption(e) => m@ == "corruption: "@ + e@ + ""@,
                BoogyError::TableNotFound(t) => m@ == "table '"@ + t@ + "' not found"@,
                BoogyError::TableExists(t) => m@ == "table '"@ + t@ + "' already exists"@,
                BoogyError::RowNotFound(id) => m@ == "row '"@ + id@ + "' not found"@,
                BoogyError::DuplicateKey(id) => exists|d: Seq<char>|
                    is_decimal_u64(*id, d) && m@ == "duplicate key "@ + d + ""@,
                BoogyError::SchemaMismatch(e) => m@ == "schema mismatch: "@ + e@ + ""@,
                BoogyError::TypeMismatch(e) => m@ == "type mismatch: "@ + e@ + ""@,
                BoogyError::IndexNotFound(i) => m@ == "index '"@ + i@ + "' not found"@,
                BoogyError::IndexExists(i) => m@ == "index '"@ + i@ + "' already exists"@,
                BoogyError::UniqueViolation { index } => m@
                    == "unique constraint violation on index '"@ + index@ + "'"@,
                BoogyError::TableLocked(t) => m@ == "table '"@ + t@ + "' is locked"@,
                BoogyError::DecryptionFailed(e) => m@ == "decryption failed: "@ + e@ + ""@,
                BoogyError::InvalidKey(e) => m@ == "invalid key: "@ + e@ + ""@,
                BoogyError::RowTooLarge(sz) => exists|d: Seq<char>|
                    is_decimal_u64(*sz as u64, d) && m@ == "row too large: "@ + d
                        + " bytes exceeds maximum"@,
                BoogyError::PageFull => m@ == "page full"@,
                BoogyError::TransactionConflict => m@ == "transaction conflict"@,
                BoogyError::VectorCollectionNotFound(n) => m@ == "vector collection '"@ + n@
                    + "' not found"@,
                BoogyError::VectorCollectionExists(n) => m@ == "vector collection '"@ + n@
                    + "' already exists"@,
                BoogyError::VectorDimensionMismatch { expected, got } => exists|
                    d: Seq<char>,
                    g: Seq<char>,
                |
                    is_decimal_u64(*expected as u64, d) && is_decimal_u64(*got as u64, g) && m@
                        == "vector dimension mismatch: expected "@ + d + ", got "@ + g + ""@,
                BoogyError::VectorError(e) => m@ == "vector error: "@ + e@ + ""@,
            },
    {
        match self {
            BoogyError::Io(e) => quoted("I/O error: ", e, ""),
            BoogyError::Corruption(e) => quoted("corruption: ", e, ""),
            BoogyError::TableNotFound(t) => quoted("table '", t, "' not found"),
            BoogyError::TableExists(t) => quoted("table '", t, "' already exists"),
            BoogyError::RowNotFound(id) => quoted("row '", id, "' not found"),
            BoogyError::DuplicateKey(id) => numbered("duplicate key ", *id, ""),
            BoogyError::SchemaMismatch(e) => quoted("schema mismatch: ", e, ""),
            BoogyError::TypeMismatch(e) => quoted("type mismatch: ", e, ""),
            BoogyError::IndexNotFound(i) => quoted("index '", i, "' not found"),
            BoogyError::IndexExists(i) => quoted("index '", i, "' already exists"),
            BoogyError::UniqueViolation { index } => quoted(
                "unique constraint violation on index '",
                index,
                "'",
            ),
            BoogyError::TableLocked(t) => quoted("table '", t, "' is locked"),
            BoogyError::DecryptionFailed(e) => quoted("decryption failed: ", e, ""),
            BoogyError::InvalidKey(e) => quoted("invalid key: ", e, ""),
            BoogyError::RowTooLarge(sz) => numbered(
                "row too large: ",
                *sz as u64,
                " bytes exceeds maximum",
            ),
            BoogyError::PageFull => "page full".to_owned(),
            BoogyError::TransactionConflict => "transaction conflict".to_owned(),
            BoogyError::VectorCollectionNotFound(n) => quoted(
                "vector collection '",
                n,
                "' not found",
            ),
            BoogyError::VectorCollectionExists(n) => quoted(
                "vector collection '",
                n,
                "' already exists",
            ),
            BoogyError::VectorDimensionMismatch { expected, got } => {
                let mut m: String = numbered(
                    "vector dimension mismatch: expected ",
                    *expected as u64,
                    ", got ",
                );
                let g: String = numbered("", *got as u64, "");
                proof {
                    reveal_strlit("");
                    let d = choose|d: Seq<char>|
                        is_decimal_u64(*expected as u64, d) && m@
                            == "vector dimension mismatch: expected "@ + d + ", got "@;
                    let e = choose|e: Seq<char>|
                        is_decimal_u64(*got as u64, e) && g@ == ""@ + e + ""@;
                    assert(g@ =~= e);
                    assert(m@ + g@ =~= "vector dimension mismatch: expected "@ + d + ", got "@ + e
                        + ""@);
                }
                m.append(g.as_str());
                m
            },
            BoogyError::VectorError(e) => quoted("vector error: ", e, ""),
        }
    }
}

/// A corruption error with the given text.
pub fn corruption(text: &str) -> (e: BoogyError)
    ensures
        e matches BoogyError::Corruption(m) && m@ == text@,
{
    BoogyError::Corruption(text.to_owned())
}

/// An owned copy of a name.
pub fn owned(s: &str) -> (r: String)
    ensures
        r@ == s@,
{
    s.to_owned()
}

}
