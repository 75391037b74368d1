use vstd::prelude::*;
use crate::model::AppError;

verus! {

broadcast use vstd::string::group_string_axioms;

/// The payload of one sidecar response line: the `result` when present, else
/// the `error` text, else `"empty response"`.
pub fn response_payload<V>(result: Option<V>, error: Option<String>) -> (r: Result<V, String>)
    ensures
        result matches Some(v) ==> r == Ok::<V, String>(v),
        (result is None && error is Some) ==> r == Err::<V, String>(error->0),
        (result is None && error is None) ==> (r matches Err(m) && m@ == "empty response"@),
{
    match (result, error) {
        (Some(v), _) => Ok(v),
        (None, Some(e)) => Err(e),
        (None, None) => Err(String::from_str("empty response")),
    }
}

/// The sidecar pool must hold at least one process.
pub fn require_sidecars(pool_len: usize) -> (r: Result<(), AppError>)
    ensures
        pool_len > 0 ==> r is Ok,
        pool_len == 0 ==> (r matches Err(AppError::Sidecar(m)) && m@ == "not started; check that uv and python are on PATH"@),
{
    if pool_len == 0 {
        Err(AppError::Sidecar(String::from_str("not started; check that uv and python are on PATH")))
    } else {
        Ok(())
    }
}

/// A sidecar reply as batch work reads it: a transport failure (the text of
/// the transport error) becomes a `Sidecar` error that stops the batch, while
/// the op's own result, success or per-file error, is kept.
pub fn split_reply<V>(reply: Result<Result<V, String>, String>) -> (r: Result<Result<V, String>, AppError>)
    ensures
        reply matches Ok(x) ==> r == Ok::<Result<V, String>, AppError>(x),
        reply matches Err(t) ==> (r matches Err(AppError::Sidecar(m)) && m@ == t@),
{
    match reply {
        Ok(x) => Ok(x),
        Err(t) => Err(AppError::Sidecar(t)),
    }
}

/// A sidecar reply for a single-shot command: both a per-op error and a
/// transport failure become the command's `Sidecar` error.
pub fn flatten_reply<V>(reply: Result<Result<V, String>, String>) -> (r: Result<V, AppError>)
    ensures
        reply matches Ok(Ok(v)) ==> r == Ok::<V, AppError>(v),
        reply matches Ok(Err(e)) ==> (r matches Err(AppError::Sidecar(m)) && m@ == e@),
        reply matches Err(t) ==> (r matches Err(AppError::Sidecar(m)) && m@ == t@),
{
    match reply {
        Ok(Ok(v)) => Ok(v),
        Ok(Err(e)) => Err(AppError::Sidecar(e)),
        Err(t) => Err(AppError::Sidecar(t)),
    }
}

} // verus!
