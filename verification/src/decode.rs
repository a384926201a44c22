//! What becomes of the rows that the decoder could not read.
//!
//! The decoder hands over one result for each data row of the input: the
//! dish, or the reason why the row could not be decoded. The policy decides
//! whether such a row is skipped or ends the run.

use crate::menu::{dishes_of, Dish, MenuItem};
use vstd::prelude::*;

verus! {

/// How rows that fail to decode are treated.
#[derive(Debug, Clone, Copy, PartialEq, Eq, Structural)]
pub enum DecodePolicy {
    /// Rows that fail to decode are dropped, and the run goes on.
    Permissive,
    /// The first row that fails to decode ends the run.
    Strict,
}

/// The row that ended a strict run.
#[derive(Debug, Clone, PartialEq, Eq)]
pub struct RowFailure {
    /// The number of the row among the data rows, counted from one.
    pub row: usize,
    /// Why the row could not be decoded.
    pub reason: String,
}

/// The mathematical value of a [`RowFailure`].
pub struct RowFault {
    pub row: nat,
    pub reason: Seq<char>,
}

impl View for RowFailure {
    type V = RowFault;

    open spec fn view(&self) -> RowFault {
        RowFault { row: self.row as nat, reason: self.reason@ }
    }
}

/// The value of one decoded row.
pub open spec fn row_of(row: Result<MenuItem, String>) -> Result<Dish, Seq<char>> {
    match row {
        Ok(item) => Ok(item@),
        Err(reason) => Err(reason@),
    }
}

/// The values of a sequence of decoded rows.
pub open spec fn rows_of(rows: Seq<Result<MenuItem, String>>) -> Seq<Result<Dish, Seq<char>>> {
    rows.map_values(|row: Result<MenuItem, String>| row_of(row))
}

/// The dishes of the rows that were decoded, in the order of the rows.
pub open spec fn decoded_dishes(rows: Seq<Result<Dish, Seq<char>>>) -> Seq<Dish>
    decreases rows.len(),
{
    if rows.len() == 0 {
        Seq::empty()
    } else {
        match rows.last() {
            Ok(dish) => decoded_dishes(rows.drop_last()).push(dish),
            Err(_) => decoded_dishes(rows.drop_last()),
        }
    }
}

/// The place of the first row that failed to decode, or the number of rows
/// if none failed.
pub open spec fn first_failure(rows: Seq<Result<Dish, Seq<char>>>) -> int
    decreases rows.len(),
{
    if rows.len() == 0 || rows[0] is Err {
        0
    } else {
        1 + first_failure(rows.drop_first())
    }
}

/// The dishes that a run goes on with, or the row that ends it.
///
/// A permissive run keeps the rows that were decoded. So does a strict run
/// in which every row was decoded; any other strict run ends with the first
/// row that failed.
pub open spec fn collected(policy: DecodePolicy, rows: Seq<Result<Dish, Seq<char>>>) -> Result<
    Seq<Dish>,
    RowFault,
> {
    let at = first_failure(rows);
    if policy == DecodePolicy::Strict && at < rows.len() {
        Err(RowFault { row: (at + 1) as nat, reason: rows[at]->Err_0 })
    } else {
        Ok(decoded_dishes(rows))
    }
}

/// Where the first failed row stands: every row before it was decoded, and
/// the place holds a failed row unless it is the end of the rows.
pub proof fn lemma_first_failure(rows: Seq<Result<Dish, Seq<char>>>)
    ensures
        0 <= first_failure(rows) <= rows.len(),
        forall|i: int| 0 <= i < first_failure(rows) ==> rows[i] is Ok,
        first_failure(rows) < rows.len() ==> rows[first_failure(rows)] is Err,
    decreases rows.len(),
{
    if !(rows.len() == 0 || rows[0] is Err) {
        let rest = rows.drop_first();
        lemma_first_failure(rest);
        assert forall|i: int| 0 <= i < first_failure(rows) implies rows[i] is Ok by {
            if i > 0 {
                assert(rest[i - 1] == rows[i]);
            }
        }
    }
}

/// Applies the decoding policy to the rows that the decoder produced.
///
/// Under the permissive policy the rows that failed are dropped and the
/// dishes of the others are returned in the order of the rows. Under the
/// strict policy the same dishes are returned if no row failed; otherwise
/// the first row that failed is returned, with its number and the reason.
pub fn collect_rows(policy: DecodePolicy, rows: Vec<Result<MenuItem, String>>) -> (out: Result<
    Vec<MenuItem>,
    RowFailure,
>)
    ensures
        match out {
            Ok(items) => collected(policy, rows_of(rows@)) == Ok::<Seq<Dish>, RowFault>(
                dishes_of(items@),
            ),
            Err(failure) => collected(policy, rows_of(rows@)) == Err::<Seq<Dish>, RowFault>(
                failure@,
            ),
        },
{
    let ghost given = rows_of(rows@);
    let strict = match policy {
        DecodePolicy::Strict => true,
        DecodePolicy::Permissive => false,
    };
    let total = rows.len();
    let mut items: Vec<MenuItem> = Vec::new();
    let mut count: usize = 0;
    proof {
        lemma_first_failure(given);
        assert(given.take(0) =~= Seq::empty());
    }
    for row in it: rows
        invariant
            given == rows_of(it.seq()),
            it.seq().len() == total,
            count == it.index(),
            strict == (policy == DecodePolicy::Strict),
            dishes_of(items@) == decoded_dishes(given.take(it.index())),
            strict ==> forall|i: int| 0 <= i < it.index() ==> given[i] is Ok,
    {
        let ghost k = it.index();
        let ghost earlier = items@;
        proof {
            assert(given[k] == row_of(row));
            assert(given.take(k + 1).drop_last() == given.take(k));
            assert(given.take(k + 1).last() == given[k]);
        }
        match row {
            Ok(item) => {
                items.push(item);
                proof {
                    assert(dishes_of(items@) =~= dishes_of(earlier).push(
                        item@,
                    ));
                }
            },
            Err(reason) => {
                if strict {
                    proof {
                        lemma_first_failure(given);
                        let at = first_failure(given);
                        if at < k {
                            assert(given[at] is Ok);
                        }
                        if at > k {
                            assert(given[k] is Ok);
                        }
                        assert(at == k);
                    }
                    return Err(RowFailure { row: count + 1, reason });
                }
            },
        }
        count = count + 1;
    }
    proof {
        assert(given.take(given.len() as int) == given);
        lemma_first_failure(given);
        if strict && first_failure(given) < given.len() {
            assert(given[first_failure(given)] is Ok);
        }
    }
    Ok(items)
}

} // verus!
