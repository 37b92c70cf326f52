use vstd::prelude::*;

verus! {

/// The batches laid end to end.
pub open spec fn concat<T>(batches: Seq<Seq<T>>) -> Seq<T>
    decreases batches.len(),
{
    if batches.len() == 0 {
        Seq::empty()
    } else {
        concat(batches.drop_last()) + batches.last()
    }
}

/// Every batch holds between one and `size` units, and every batch but the
/// last holds exactly `size`.
pub open spec fn well_batched<T>(batches: Seq<Seq<T>>, size: nat) -> bool {
    &&& forall|i: int| 0 <= i < batches.len() ==> 0 < #[trigger] batches[i].len() <= size
    &&& forall|i: int| 0 <= i < batches.len() - 1 ==> #[trigger] batches[i].len() == size
}

pub open spec fn views<T>(batches: Seq<Vec<T>>) -> Seq<Seq<T>> {
    batches.map_values(|b: Vec<T>| b@)
}

/// Groups units into batches of `size`, in order; the last batch holds what
/// is left and may be smaller.
pub fn into_batches<T>(items: Vec<T>, size: usize) -> (r: Vec<Vec<T>>)
    requires
        size > 0,
    ensures
        concat(views(r@)) == items@,
        well_batched(views(r@), size as nat),
{
    let ghost all = items@;
    let mut rest = items;
    let mut batches: Vec<Vec<T>> = Vec::new();
    let mut current: Vec<T> = Vec::new();
    proof {
        assert(views(batches@) =~= Seq::<Seq<T>>::empty());
        assert(all.subrange(0, 0) =~= Seq::<T>::empty());
    }
    while rest.len() > 0
        invariant
            size > 0,
            rest.len() <= all.len(),
            rest@ == all.subrange(all.len() - rest.len(), all.len() as int),
            concat(views(batches@)) + current@ == all.subrange(0, all.len() - rest.len()),
            forall|i: int| 0 <= i < batches@.len() ==> #[trigger] batches@[i]@.len() == size,
            current@.len() < size,
        decreases rest.len(),
    {
        let ghost k = all.len() - rest.len();
        let x = rest.remove(0);
        proof {
            assert(rest@ =~= all.subrange(k + 1, all.len() as int));
            assert(all.subrange(0, k + 1) =~= all.subrange(0, k).push(x));
        }
        current.push(x);
        if current.len() == size {
            let ghost before = views(batches@);
            let full = current;
            current = Vec::new();
            batches.push(full);
            proof {
                assert(views(batches@) =~= before.push(full@));
                assert(views(batches@).drop_last() =~= before);
            }
        }
    }
    if current.len() > 0 {
        let ghost before = views(batches@);
        let last = current;
        batches.push(last);
        proof {
            assert(views(batches@) =~= before.push(last@));
            assert(views(batches@).drop_last() =~= before);
        }
    }
    proof {
        assert(all.subrange(0, all.len() as int) =~= all);
    }
    batches
}

/// Why a unit of a batch did not reach the store: its batch's embedding call
/// failed, so every unit of the batch failed, or its own write failed.
#[derive(Clone, Copy, Debug, PartialEq, Eq, Structural)]
pub enum BatchError {
    /// The call itself returned an error.
    CallFailed,
    /// The call returned a number of vectors other than the number of units.
    WrongCount,
    /// The unit was embedded, but writing it to the vector store failed.
    StoreFailed,
}

/// A unit and the vector computed for it.
pub struct Embedded<T, V> {
    pub unit: T,
    pub vector: V,
}

/// The outcome of one embedding call for a whole batch: when the call
/// returned one vector per unit, the units and vectors are paired in order;
/// otherwise every unit fails with the same batch error.
pub fn attach_vectors<T, V, E>(batch: Vec<T>, result: Result<Vec<V>, E>) -> (r: Vec<
    Result<Embedded<T, V>, BatchError>,
>)
    ensures
        r@.len() == batch@.len(),
        match result {
            Ok(vs) => if vs@.len() == batch@.len() {
                forall|i: int|
                    0 <= i < r@.len() ==> (#[trigger] r@[i]) is Ok && r@[i]->Ok_0.unit == batch@[i]
                        && r@[i]->Ok_0.vector == vs@[i]
            } else {
                forall|i: int|
                    0 <= i < r@.len() ==> #[trigger] r@[i] == Err::<Embedded<T, V>, BatchError>(
                        BatchError::WrongCount,
                    )
            },
            Err(_) => forall|i: int|
                0 <= i < r@.len() ==> #[trigger] r@[i] == Err::<Embedded<T, V>, BatchError>(
                    BatchError::CallFailed,
                ),
        },
{
    let ghost all = batch@;
    let n = batch.len();
    let mut units = batch;
    let mut out: Vec<Result<Embedded<T, V>, BatchError>> = Vec::new();
    match result {
        Ok(vectors) => {
            let ghost all_vs = vectors@;
            if vectors.len() == n {
                let mut vs = vectors;
                while units.len() > 0
                    invariant
                        units.len() == vs.len(),
                        units.len() <= n,
                        n == all.len(),
                        all_vs.len() == n,
                        units@ == all.subrange(n - units.len(), n as int),
                        vs@ == all_vs.subrange(n - vs.len(), n as int),
                        out@.len() == n - units.len(),
                        forall|i: int|
                            0 <= i < out@.len() ==> (#[trigger] out@[i]) is Ok && out@[i]->Ok_0.unit
                                == all[i] && out@[i]->Ok_0.vector == all_vs[i],
                    decreases units.len(),
                {
                    let ghost k = n - units.len();
                    let unit = units.remove(0);
                    let vector = vs.remove(0);
                    proof {
                        assert(units@ =~= all.subrange(k + 1, n as int));
                        assert(vs@ =~= all_vs.subrange(k + 1, n as int));
                    }
                    out.push(Ok(Embedded { unit, vector }));
                }
            } else {
                while out.len() < n
                    invariant
                        out@.len() <= n,
                        forall|i: int|
                            0 <= i < out@.len() ==> #[trigger] out@[i] == Err::<
                                Embedded<T, V>,
                                BatchError,
                            >(BatchError::WrongCount),
                    decreases n - out.len(),
                {
                    out.push(Err(BatchError::WrongCount));
                }
            }
        },
        Err(_) => {
            while out.len() < n
                invariant
                    out@.len() <= n,
                    forall|i: int|
                        0 <= i < out@.len() ==> #[trigger] out@[i] == Err::<
                            Embedded<T, V>,
                            BatchError,
                        >(BatchError::CallFailed),
                decreases n - out.len(),
            {
                out.push(Err(BatchError::CallFailed));
            }
        },
    }
    out
}

/// The values of the successful outcomes, in order.
pub open spec fn ok_values<T, E>(s: Seq<Result<T, E>>) -> Seq<T>
    decreases s.len(),
{
    if s.len() == 0 {
        Seq::empty()
    } else {
        let before = ok_values(s.drop_last());
        match s.last() {
            Ok(v) => before.push(v),
            Err(_) => before,
        }
    }
}

/// The number of failed outcomes.
pub open spec fn error_count<T, E>(s: Seq<Result<T, E>>) -> nat
    decreases s.len(),
{
    if s.len() == 0 {
        0
    } else {
        error_count(s.drop_last()) + if s.last() is Err {
            1nat
        } else {
            0nat
        }
    }
}

/// The error sink: forwards the successful outcomes, in order, and counts the
/// failures, which go no further.
pub fn filter_errors<T, E>(outcomes: Vec<Result<T, E>>) -> (r: (Vec<T>, usize))
    ensures
        r.0@ == ok_values(outcomes@),
        r.1 == error_count(outcomes@),
{
    let ghost all = outcomes@;
    let mut rest = outcomes;
    let mut oks: Vec<T> = Vec::new();
    let mut errors: usize = 0;
    let total = rest.len();
    proof {
        assert(all.subrange(0, 0) =~= Seq::<Result<T, E>>::empty());
    }
    while rest.len() > 0
        invariant
            rest.len() <= all.len(),
            rest@ == all.subrange(all.len() - rest.len(), all.len() as int),
            oks@ == ok_values(all.subrange(0, all.len() - rest.len())),
            errors == error_count(all.subrange(0, all.len() - rest.len())),
            errors <= all.len() - rest.len(),
            total == all.len(),
        decreases rest.len(),
    {
        let ghost k = all.len() - rest.len();
        let x = rest.remove(0);
        proof {
            assert(rest@ =~= all.subrange(k + 1, all.len() as int));
            assert(all.subrange(0, k + 1).drop_last() =~= all.subrange(0, k));
            assert(all.subrange(0, k + 1).last() == x);
        }
        match x {
            Ok(v) => oks.push(v),
            Err(_) => errors += 1,
        }
    }
    proof {
        assert(all.subrange(0, all.len() as int) =~= all);
    }
    (oks, errors)
}

} // verus!
