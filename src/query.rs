//! The `word` parameter that requests carry.
use vstd::prelude::*;

verus! {

/// Why the `word` parameter of a request was refused.
#[derive(Debug, PartialEq, Eq, Structural)]
pub enum QueryError {
    /// The request has no `word` parameter.
    Missing,
    /// The parameter is empty where a word is required.
    Empty,
}

/// The `word` parameter of a request. It must be present, and may be empty
/// only for autocompletion, where the empty prefix stands for every word.
pub fn verify_word_query_param(word: Option<String>, is_autocomp: bool) -> (r: Result<String, QueryError>)
    ensures
        word is None ==> r == Err::<String, QueryError>(QueryError::Missing),
        word is Some && word->0@.len() == 0 && !is_autocomp ==> r == Err::<String, QueryError>(
            QueryError::Empty,
        ),
        word is Some && (word->0@.len() > 0 || is_autocomp) ==> r is Ok && r->Ok_0@ == word->0@,
{
    match word {
        None => Err(QueryError::Missing),
        Some(w) => {
            if w.as_str().is_empty() && !is_autocomp {
                Err(QueryError::Empty)
            } else {
                Ok(w)
            }
        },
    }
}

} // verus!
