use crate::error::PackError;
use vstd::prelude::*;

verus! {

/// The number of workers assumed where the hardware does not tell.
pub const FALLBACK_WORKERS: usize = 4;

/// The hardware's concurrency, or the fallback where it is unknown.
pub open spec fn spec_hardware_workers(available: Option<usize>) -> usize {
    match available {
        Some(n) => if n >= 1 {
            n
        } else {
            FALLBACK_WORKERS
        },
        None => FALLBACK_WORKERS,
    }
}

/// The smaller of the number of jobs and the hardware's concurrency.
pub open spec fn spec_worker_count(jobs: usize, available: Option<usize>) -> usize {
    if jobs <= spec_hardware_workers(available) {
        jobs
    } else {
        spec_hardware_workers(available)
    }
}

/// How many workers ingest `jobs` files; with no file there is nothing to
/// pack.
pub fn plan_workers(jobs: usize, available: Option<usize>) -> (workers: Result<usize, PackError>)
    ensures
        match workers {
            Ok(count) => jobs >= 1 && count == spec_worker_count(jobs, available) && 1 <= count
                <= jobs,
            Err(e) => e == PackError::NoLayersFound && jobs == 0,
        },
{
    if jobs == 0 {
        return Err(PackError::NoLayersFound);
    }
    let hardware: usize = match available {
        Some(n) => if n >= 1 {
            n
        } else {
            FALLBACK_WORKERS
        },
        None => FALLBACK_WORKERS,
    };
    if jobs <= hardware {
        Ok(jobs)
    } else {
        Ok(hardware)
    }
}

/// Whether resized copies are written for the batch: only where they were
/// asked for and their directory could be created. One failure to create it
/// switches them off for every file.
pub fn persist_after_create(requested: bool, created: bool) -> (persist: bool)
    ensures
        persist == (requested && created),
{
    requested && created
}

/// The submission index that the `i`-th finished task carries.
pub open spec fn tag_of<T>(tagged: Seq<(usize, T)>, i: int) -> int {
    tagged[i].0 as int
}

/// Some finished task carries the submission index `t`.
pub open spec fn has_tag<T>(tagged: Seq<(usize, T)>, t: int) -> bool {
    exists|i: int| 0 <= i < tagged.len() && #[trigger] tag_of(tagged, i) == t
}

/// The tags number the tasks: each is below the number of tasks, no two are
/// equal, and every index below the number of tasks is some task's tag.
pub open spec fn is_numbering<T>(tagged: Seq<(usize, T)>) -> bool {
    &&& forall|i: int| 0 <= i < tagged.len() ==> 0 <= #[trigger] tag_of(tagged, i) < tagged.len()
    &&& forall|i: int, j: int|
        0 <= i < j < tagged.len() ==> #[trigger] tag_of(tagged, i) != #[trigger] tag_of(tagged, j)
    &&& forall|t: int| 0 <= t < tagged.len() ==> #[trigger] has_tag(tagged, t)
}

/// `items` holds the results in the order of submission: each stands at the
/// index that it was tagged with.
pub open spec fn in_submission_order<T>(tagged: Seq<(usize, T)>, items: Seq<T>) -> bool {
    &&& items.len() == tagged.len()
    &&& forall|i: int| 0 <= i < tagged.len() ==> items[#[trigger] tag_of(tagged, i)] == tagged[i].1
}

/// The order in which tasks finish does not show in the list: two arrivals
/// of the same tagged results, in whatever order each, give the same list.
pub proof fn lemma_arrival_order_is_irrelevant<T>(
    first: Seq<(usize, T)>,
    second: Seq<(usize, T)>,
    a: Seq<T>,
    b: Seq<T>,
)
    requires
        is_numbering(first),
        is_numbering(second),
        first.len() == second.len(),
        forall|i: int, j: int|
            0 <= i < first.len() && 0 <= j < second.len() && #[trigger] tag_of(first, i)
                == #[trigger] tag_of(second, j) ==> first[i].1 == second[j].1,
        in_submission_order(first, a),
        in_submission_order(second, b),
    ensures
        a == b,
{
    assert forall|t: int| 0 <= t < a.len() implies a[t] == b[t] by {
        assert(has_tag(first, t));
        assert(has_tag(second, t));
        let i = choose|i: int| 0 <= i < first.len() && #[trigger] tag_of(first, i) == t;
        let j = choose|j: int| 0 <= j < second.len() && #[trigger] tag_of(second, j) == t;
        assert(a[tag_of(first, i)] == first[i].1);
        assert(b[tag_of(second, j)] == second[j].1);
    }
    assert(a =~= b);
}

/// `items` back to front.
pub fn reversed<T>(items: Vec<T>) -> (turned: Vec<T>)
    ensures
        turned@.len() == items@.len(),
        forall|i: int| 0 <= i < items@.len() ==> #[trigger] turned@[i] == items@[items@.len() - 1 - i],
{
    let ghost all = items@;
    let mut rest: Vec<T> = items;
    let mut turned: Vec<T> = Vec::new();
    while rest.len() > 0
        invariant
            rest@.len() <= all.len(),
            rest@ == all.take(rest@.len() as int),
            turned@.len() == all.len() - rest@.len(),
            forall|i: int| 0 <= i < turned@.len() ==> #[trigger] turned@[i] == all[all.len() - 1 - i],
        decreases rest@.len(),
    {
        let ghost before = rest@;
        let item: T = rest.pop().unwrap();
        assert(item == all[before.len() - 1]);
        turned.push(item);
        assert(rest@ =~= all.take(rest@.len() as int));
    }
    turned
}

/// Puts the results of finished tasks, which arrive in any order, back into
/// the order of submission: the item tagged `t` comes to stand at index `t`.
/// `None` where the tags do not number the tasks.
pub fn assemble_in_order<T>(tagged: Vec<(usize, T)>) -> (ordered: Option<Vec<T>>)
    ensures
        ordered is Some <==> is_numbering(tagged@),
        ordered matches Some(items) ==> in_submission_order(tagged@, items@),
{
    let n: usize = tagged.len();
    let ghost all = tagged@;
    let mut slots: Vec<Option<T>> = Vec::new();
    let mut made: usize = 0;
    while made < n
        invariant
            made <= n,
            slots@.len() == made,
            forall|t: int| 0 <= t < made ==> #[trigger] slots@[t] is None,
        decreases n - made,
    {
        slots.push(None);
        made = made + 1;
    }
    let mut pending: Vec<(usize, T)> = tagged;
    while pending.len() > 0
        invariant
            all == tagged@,
            n == all.len(),
            slots@.len() == n,
            pending@.len() <= n,
            pending@ == all.take(pending@.len() as int),
            forall|t: int|
                0 <= t < n && #[trigger] slots@[t] is Some ==> exists|i: int|
                    pending@.len() <= i < n && #[trigger] tag_of(all, i) == t,
            forall|i: int|
                pending@.len() <= i < n ==> 0 <= #[trigger] tag_of(all, i) < n && slots@[tag_of(
                    all,
                    i,
                )] == Some(all[i].1),
            forall|i: int, j: int|
                pending@.len() <= i < j < n ==> #[trigger] tag_of(all, i) != #[trigger] tag_of(
                    all,
                    j,
                ),
        decreases pending@.len(),
    {
        let ghost m = pending@.len() - 1;
        let ghost before = slots@;
        let (tag, item) = pending.pop().unwrap();
        assert(pending@ =~= all.take(m));
        assert(tag == tag_of(all, m) && item == all[m].1);
        if tag >= n {
            return None;
        }
        if slots[tag].is_some() {
            proof {
                let i = choose|i: int| m < i < n && #[trigger] tag_of(all, i) == tag as int;
                assert(tag_of(all, m) == tag_of(all, i));
            }
            return None;
        }
        slots.set(tag, Some(item));
        proof {
            assert forall|t: int| 0 <= t < n && #[trigger] slots@[t] is Some implies exists|i: int|
                m <= i < n && #[trigger] tag_of(all, i) == t by {
                if t == tag as int {
                    assert(tag_of(all, m) == t);
                } else {
                    assert(before[t] is Some);
                    let i = choose|i: int| m < i < n && #[trigger] tag_of(all, i) == t;
                    assert(m <= i < n && tag_of(all, i) == t);
                }
            }
            assert forall|i: int| m <= i < n implies 0 <= #[trigger] tag_of(all, i) < n && slots@[tag_of(
                all,
                i,
            )] == Some(all[i].1) by {
                if i > m {
                    assert(before[tag_of(all, i)] == Some(all[i].1));
                }
            }
            assert forall|i: int, j: int| m <= i < j < n implies #[trigger] tag_of(all, i)
                != #[trigger] tag_of(all, j) by {
                if i == m {
                    assert(before[tag_of(all, j)] == Some(all[j].1));
                }
            }
        }
    }
    let ghost filled = slots@;
    let mut back: Vec<T> = Vec::new();
    while slots.len() > 0
        invariant
            all == tagged@,
            n == all.len(),
            filled.len() == n,
            slots@.len() <= n,
            slots@ == filled.take(slots@.len() as int),
            back@.len() == n - slots@.len(),
            forall|r: int| 0 <= r < back@.len() ==> filled[n - 1 - r] == Some(#[trigger] back@[r]),
            forall|i: int|
                0 <= i < n ==> 0 <= #[trigger] tag_of(all, i) < n && filled[tag_of(all, i)] == Some(
                    all[i].1,
                ),
        decreases slots@.len(),
    {
        let ghost t = slots@.len() - 1;
        let slot: Option<T> = slots.pop().unwrap();
        assert(slots@ =~= filled.take(t));
        assert(slot == filled[t]);
        match slot {
            Some(item) => {
                back.push(item);
            },
            None => {
                proof {
                    if is_numbering(all) {
                        assert(has_tag(all, t));
                        let i = choose|i: int| 0 <= i < n && #[trigger] tag_of(all, i) == t;
                        assert(filled[tag_of(all, i)] == Some(all[i].1));
                    }
                }
                return None;
            },
        }
    }
    let items: Vec<T> = reversed(back);
    proof {
        assert forall|t: int| 0 <= t < n implies #[trigger] has_tag(all, t) by {
            assert(filled[t] == Some(back@[n - 1 - t]));
            let i = choose|i: int| 0 <= i < n && #[trigger] tag_of(all, i) == t;
            assert(0 <= i < n && tag_of(all, i) == t);
        }
        assert forall|i: int| 0 <= i < n implies items@[#[trigger] tag_of(all, i)] == all[i].1 by {
            let t = tag_of(all, i);
            assert(items@[t] == back@[n - 1 - t]);
            assert(filled[n - 1 - (n - 1 - t)] == Some(back@[n - 1 - t]));
        }
    }
    Some(items)
}

/// Among the results from index `from` on, the one at `i` is the first that
/// failed, and it failed with `e`.
pub open spec fn first_failure<T>(
    results: Seq<Result<T, PackError>>,
    from: int,
    i: int,
    e: PackError,
) -> bool {
    &&& from <= i < results.len()
    &&& results[i] == Err::<T, PackError>(e)
    &&& forall|j: int| from <= j < i ==> (#[trigger] results[j]) is Ok
}

/// The items of a batch whose tasks all succeeded, in the order given; where
/// any task failed, the error of the first one in that order, and no item.
pub fn gather<T>(results: Vec<Result<T, PackError>>) -> (batch: Result<Vec<T>, PackError>)
    ensures
        match batch {
            Ok(items) => {
                &&& items@.len() == results@.len()
                &&& forall|i: int|
                    0 <= i < results@.len() ==> #[trigger] results@[i] == Ok::<T, PackError>(
                        items@[i],
                    )
            },
            Err(e) => exists|i: int| #[trigger] first_failure(results@, 0, i, e),
        },
{
    let ghost all = results@;
    let ghost n = all.len() as int;
    let mut rest: Vec<Result<T, PackError>> = results;
    let mut back: Vec<T> = Vec::new();
    let mut failure: Option<PackError> = None;
    while rest.len() > 0
        invariant
            all == results@,
            n == all.len(),
            rest@.len() <= n,
            rest@ == all.take(rest@.len() as int),
            failure matches Some(e) ==> exists|i: int|
                #[trigger] first_failure(all, rest@.len() as int, i, e),
            failure is None ==> back@.len() == n - rest@.len(),
            failure is None ==> forall|r: int|
                0 <= r < back@.len() ==> all[n - 1 - r] == Ok::<T, PackError>(#[trigger] back@[r]),
        decreases rest@.len(),
    {
        let ghost m = rest@.len() - 1;
        let ghost earlier = failure;
        let result: Result<T, PackError> = rest.pop().unwrap();
        assert(rest@ =~= all.take(m));
        assert(result == all[m]);
        match result {
            Ok(item) => {
                if failure.is_none() {
                    back.push(item);
                } else {
                    proof {
                        let e = earlier->Some_0;
                        let i = choose|i: int| #[trigger] first_failure(all, m + 1, i, e);
                        assert(first_failure(all, m, i, e));
                    }
                }
            },
            Err(e) => {
                failure = Some(e);
                assert(first_failure(all, m, m, e));
            },
        }
    }
    match failure {
        Some(e) => Err(e),
        None => {
            let items: Vec<T> = reversed(back);
            proof {
                assert forall|i: int| 0 <= i < n implies #[trigger] all[i] == Ok::<T, PackError>(
                    items@[i],
                ) by {
                    assert(items@[i] == back@[n - 1 - i]);
                    assert(all[n - 1 - (n - 1 - i)] == Ok::<T, PackError>(back@[n - 1 - i]));
                }
            }
            Ok(items)
        },
    }
}

} // verus!
