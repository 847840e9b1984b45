use vstd::prelude::*;

verus! {

/// The records of the lookups that succeeded, joined in the order of the
/// lookups; a failed lookup adds nothing.
pub open spec fn joined_records<R, E>(results: Seq<Result<Vec<R>, E>>) -> Seq<R>
    decreases results.len(),
{
    if results.len() == 0 {
        Seq::empty()
    } else {
        let first = match results[0] {
            Ok(records) => records@,
            Err(_) => Seq::empty(),
        };
        first + joined_records(results.drop_first())
    }
}

/// The records that were resolved, in order; a failed or absent resolution
/// adds nothing.
pub open spec fn resolved_records<R, E>(results: Seq<Result<Option<R>, E>>) -> Seq<R>
    decreases results.len(),
{
    if results.len() == 0 {
        Seq::empty()
    } else {
        let first = match results[0] {
            Ok(Some(record)) => seq![record],
            _ => Seq::empty(),
        };
        first + resolved_records(results.drop_first())
    }
}

/// Joins what the lookups of a query returned, in the order of the lookups,
/// and drops the lookups that failed.
pub fn join_bucket_results<R, E>(results: Vec<Result<Vec<R>, E>>) -> (r: Vec<R>)
    ensures
        r@ == joined_records(results@),
{
    let ghost all = results@;
    let mut rest = results;
    let mut out: Vec<R> = Vec::new();
    while rest.len() > 0
        invariant
            out@ + joined_records(rest@) == joined_records(all),
        decreases rest@.len(),
    {
        let ghost before = rest@;
        let item = rest.remove(0);
        assert(rest@ =~= before.drop_first());
        match item {
            Ok(mut records) => {
                out.append(&mut records);
            },
            Err(_) => {},
        }
        assert(out@ + joined_records(rest@) =~= joined_records(all));
    }
    assert(out@ =~= joined_records(all));
    out
}

/// Keeps the records that were resolved, in order, and drops the failed and
/// the absent ones.
pub fn keep_resolved_records<R, E>(results: Vec<Result<Option<R>, E>>) -> (r: Vec<R>)
    ensures
        r@ == resolved_records(results@),
{
    let ghost all = results@;
    let mut rest = results;
    let mut out: Vec<R> = Vec::new();
    while rest.len() > 0
        invariant
            out@ + resolved_records(rest@) == resolved_records(all),
        decreases rest@.len(),
    {
        let ghost before = rest@;
        let item = rest.remove(0);
        assert(rest@ =~= before.drop_first());
        match item {
            Ok(Some(record)) => {
                out.push(record);
            },
            _ => {},
        }
        assert(out@ + resolved_records(rest@) =~= resolved_records(all));
    }
    assert(out@ =~= resolved_records(all));
    out
}

} // verus!
