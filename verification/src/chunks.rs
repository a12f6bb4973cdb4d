//! Work cut into consecutive ranges, and the parts put together again.
use vstd::prelude::*;

verus! {

/// Whether numbers rise from zero to `len` without repetition.
pub open spec fn is_cut(bounds: Seq<usize>, len: int) -> bool {
    &&& bounds.len() >= 1
    &&& bounds[0] == 0
    &&& bounds.last() == len
    &&& forall|i: int, j: int| 0 <= i < j < bounds.len() ==> bounds[i] < bounds[j]
}

/// Cuts `0..len` into ranges of equal size but for the last, at most one for each worker.
pub(crate) fn chunk_bounds(len: usize, workers: usize) -> (bounds: Vec<usize>)
    requires
        workers > 0,
    ensures
        is_cut(bounds@, len as int),
{
    let mut size: usize = len / workers;
    if len % workers != 0 {
        assert(size < len) by (nonlinear_arith)
            requires
                size == len / workers,
                len % workers != 0,
                workers > 0,
        ;
        size += 1;
    }
    let mut bounds: Vec<usize> = Vec::new();
    bounds.push(0);
    let mut start: usize = 0;
    assert(len > 0 ==> size > 0) by {
        if len > 0 && size == 0 {
            assert(len == workers * (len / workers) + len % workers) by (nonlinear_arith)
                requires
                    workers > 0,
            ;
            assert(workers * (len / workers) == 0) by (nonlinear_arith)
                requires
                    len / workers == 0,
            ;
        }
    }
    while start < len
        invariant
            start <= len,
            len > 0 ==> size > 0,
            bounds@.len() >= 1,
            bounds@[0] == 0,
            bounds@.last() == start,
            forall|i: int, j: int| 0 <= i < j < bounds@.len() ==> bounds@[i] < bounds@[j],
        decreases len - start,
    {
        let next: usize = if len - start <= size {
            len
        } else {
            start + size
        };
        bounds.push(next);
        start = next;
    }
    bounds
}

/// Parts one after the other.
pub open spec fn flat<T>(parts: Seq<Seq<T>>) -> Seq<T>
    decreases parts.len(),
{
    if parts.len() == 0 {
        Seq::empty()
    } else {
        flat(parts.drop_last()) + parts.last()
    }
}

/// The contents of each of some parts.
pub open spec fn part_views<T>(parts: Seq<Vec<T>>) -> Seq<Seq<T>> {
    Seq::new(parts.len(), |i: int| parts[i]@)
}

/// Puts parts one after the other.
pub(crate) fn gather<T: Copy>(parts: &Vec<Vec<T>>) -> (all: Vec<T>)
    ensures
        all@ == flat(part_views(parts@)),
{
    let mut all: Vec<T> = Vec::new();
    let mut i: usize = 0;
    while i < parts.len()
        invariant
            i <= parts@.len(),
            all@ == flat(part_views(parts@).take(i as int)),
        decreases parts@.len() - i,
    {
        let ghost before = all@;
        let part = &parts[i];
        let mut j: usize = 0;
        while j < part.len()
            invariant
                j <= part@.len(),
                all@ == before + part@.take(j as int),
            decreases part@.len() - j,
        {
            all.push(part[j]);
            assert(part@.take(j + 1) =~= part@.take(j as int).push(part@[j as int]));
            j += 1;
        }
        proof {
            let prefix = part_views(parts@).take(i + 1);
            assert(prefix.drop_last() =~= part_views(parts@).take(i as int));
            assert(prefix.last() == part@);
            assert(part@.take(j as int) =~= part@);
        }
        i += 1;
    }
    assert(part_views(parts@).take(i as int) =~= part_views(parts@));
    all
}

/// Whether what a range yields is what its two parts yield, one after the other.
pub open spec fn additive<T>(yields: spec_fn(int, int) -> Seq<T>, len: int) -> bool {
    &&& forall|a: int, b: int, c: int|
        #![trigger yields(a, b), yields(b, c)]
        0 <= a <= b <= c <= len ==> yields(a, c) == yields(a, b) + yields(b, c)
    &&& yields(0, 0) == Seq::<T>::empty()
}

/// The parts that consecutive ranges yield make up what the whole yields.
pub proof fn lemma_flat_ranges<T>(
    parts: Seq<Seq<T>>,
    bounds: Seq<usize>,
    yields: spec_fn(int, int) -> Seq<T>,
    len: int,
    count: int,
)
    requires
        is_cut(bounds, len),
        additive(yields, len),
        parts.len() + 1 == bounds.len(),
        forall|i: int|
            0 <= i < parts.len() ==> #[trigger] parts[i] == yields(
                bounds[i] as int,
                bounds[i + 1] as int,
            ),
        0 <= count <= parts.len(),
    ensures
        flat(parts.take(count)) == yields(0, bounds[count] as int),
    decreases count,
{
    if count > 0 {
        lemma_flat_ranges(parts, bounds, yields, len, count - 1);
        let prefix = parts.take(count);
        assert(prefix.drop_last() =~= parts.take(count - 1));
        assert(prefix.last() == parts[count - 1]);
        assert(bounds[count - 1] <= bounds[count]);
        assert(bounds[count] <= bounds[bounds.len() - 1]);
        assert(0 <= bounds[count - 1]);
    } else {
        assert(parts.take(0) =~= Seq::empty());
    }
}

} // verus!
