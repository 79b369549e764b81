//! A list of rows of different lengths, stored as one array of values and one
//! array of the offsets where the rows begin.

use vstd::prelude::*;

verus! {

/// Narrows offsets to 32 bits, keeping the low 32 bits of each.
pub fn convert_offsets(v: Vec<usize>) -> (r: Vec<u32>)
    ensures
        r@.len() == v@.len(),
        forall|i: int| 0 <= i < v@.len() ==> #[trigger] r@[i] == (v@[i] as u32),
{
    let mut out: Vec<u32> = Vec::new();
    let mut i: usize = 0;
    while i < v.len()
        invariant
            i <= v.len(),
            out@.len() == i,
            forall|j: int| 0 <= j < i ==> #[trigger] out@[j] == (v@[j] as u32),
        decreases v.len() - i,
    {
        out.push(#[verifier::truncate] (v[i] as u32));
        i += 1;
    }
    out
}

/// Number of values in all rows together.
pub open spec fn total_len<T>(rows: Seq<Seq<T>>) -> nat
    decreases rows.len(),
{
    if rows.len() == 0 {
        0
    } else {
        total_len(rows.drop_last()) + rows.last().len()
    }
}

/// The rows that a list of vectors holds.
pub open spec fn rows_of<T>(ragged: Seq<Vec<T>>) -> Seq<Seq<T>> {
    Seq::new(ragged.len(), |i: int| ragged[i]@)
}

/// The first rows hold no more values than all rows.
pub proof fn lemma_total_len_prefix<T>(rows: Seq<Seq<T>>, n: int)
    requires
        0 <= n <= rows.len(),
    ensures
        total_len(rows.subrange(0, n)) <= total_len(rows),
    decreases rows.len() - n,
{
    if n < rows.len() {
        assert(rows.subrange(0, n + 1).drop_last() == rows.subrange(0, n));
        lemma_total_len_prefix(rows, n + 1);
    } else {
        assert(rows.subrange(0, n) == rows);
    }
}

/// One more value in one row is one more value in all.
pub proof fn lemma_total_len_push<T>(rows: Seq<Seq<T>>, w: int, x: T)
    requires
        0 <= w < rows.len(),
    ensures
        total_len(rows.update(w, rows[w].push(x))) == total_len(rows) + 1,
    decreases rows.len(),
{
    let after = rows.update(w, rows[w].push(x));
    if w == rows.len() - 1 {
        assert(after.drop_last() == rows.drop_last());
    } else {
        assert(after.drop_last() == rows.drop_last().update(w, rows.drop_last()[w].push(x)));
        lemma_total_len_push(rows.drop_last(), w, x);
    }
}

/// `offsets` starts at 0, does not fall, and ends at `values`.
pub open spec fn offsets_fit(offsets: Seq<u32>, values: nat) -> bool {
    &&& offsets.len() >= 1
    &&& offsets[0] == 0
    &&& offsets.last() == values
    &&& forall|i: int, j: int| 0 <= i <= j < offsets.len() ==> offsets[i] <= offsets[j]
}

/// The rows that values and offsets stand for: row `i` holds the values from
/// offset `i` up to offset `i + 1`.
pub open spec fn rows_between<T>(values: Seq<T>, offsets: Seq<u32>) -> Seq<Seq<T>> {
    Seq::new(
        (offsets.len() - 1) as nat,
        |i: int| values.subrange(offsets[i] as int, offsets[i + 1] as int),
    )
}

/// The first rows hold the values up to the offset behind them.
pub proof fn lemma_rows_total<T>(values: Seq<T>, offsets: Seq<u32>, rows: int)
    requires
        offsets_fit(offsets, values.len()),
        0 <= rows < offsets.len(),
    ensures
        total_len(rows_between(values, offsets).take(rows)) == offsets[rows],
    decreases rows,
{
    let all = rows_between(values, offsets);
    if rows > 0 {
        lemma_rows_total(values, offsets, rows - 1);
        assert(all.take(rows).drop_last() == all.take(rows - 1));
        assert(all.take(rows).last() == all[rows - 1]);
        assert(offsets[rows - 1] <= offsets[rows]);
        assert(offsets[rows] <= offsets[offsets.len() - 1]);
    }
}

/// Rows of different lengths in one array, with the offsets where they begin.
pub struct FlatStorage<T> {
    paths: Vec<T>,
    offsets: Vec<u32>,
}

impl<T> View for FlatStorage<T> {
    type V = Seq<Seq<T>>;

    closed spec fn view(&self) -> Seq<Seq<T>> {
        rows_between(self.paths@, self.offsets@)
    }
}

impl<T> FlatStorage<T> {
    #[verifier::type_invariant]
    spec fn well_formed(self) -> bool {
        offsets_fit(self.offsets@, self.paths@.len())
    }

    /// All values, row after row.
    pub closed spec fn spec_values(self) -> Seq<T> {
        self.paths@
    }

    /// The offsets where the rows begin, and behind them the offset where the
    /// last row ends.
    pub closed spec fn spec_offsets(self) -> Seq<u32> {
        self.offsets@
    }

    /// Stores the rows of `ragged` behind each other.
    pub fn from(ragged: Vec<Vec<T>>) -> (r: Self)
        requires
            total_len(rows_of(ragged@)) <= u32::MAX,
            ragged@.len() < usize::MAX,
        ensures
            r@ == rows_of(ragged@),
    {
        let ghost rows = rows_of(ragged@);
        let num_elem = ragged.len();
        let mut ragged = ragged;
        let mut reversed: Vec<Vec<T>> = Vec::new();
        while ragged.len() > 0
            invariant
                ragged@.len() + reversed@.len() == num_elem,
                rows.len() == num_elem,
                forall|j: int| 0 <= j < ragged@.len() ==> (#[trigger] ragged@[j])@ == rows[j],
                forall|j: int|
                    0 <= j < reversed@.len() ==> (#[trigger] reversed@[j])@ == rows[num_elem - 1
                        - j],
            decreases ragged@.len(),
        {
            match ragged.pop() {
                Some(row) => {
                    reversed.push(row);
                },
                None => {},
            }
        }
        let mut paths: Vec<T> = Vec::new();
        let mut offsets = vec![0u32; num_elem + 1];
        let mut idx: usize = 0;
        while idx < num_elem
            invariant
                idx <= num_elem,
                num_elem < usize::MAX,
                rows.len() == num_elem,
                total_len(rows) <= u32::MAX,
                reversed@.len() == num_elem - idx,
                forall|j: int|
                    0 <= j < reversed@.len() ==> (#[trigger] reversed@[j])@ == rows[num_elem - 1
                        - j],
                offsets@.len() == num_elem + 1,
                paths@.len() == total_len(rows.subrange(0, idx as int)),
                offsets@[idx as int] == paths@.len(),
                forall|j: int| 0 <= j <= idx ==> #[trigger] offsets@[j] <= paths@.len(),
                forall|i: int, j: int| 0 <= i <= j <= idx ==> offsets@[i] <= offsets@[j],
                offsets@[0] == 0,
                forall|j: int|
                    0 <= j < idx ==> paths@.subrange(
                        offsets@[j] as int,
                        offsets@[j + 1] as int,
                    ) == #[trigger] rows[j],
            decreases num_elem - idx,
        {
            let ghost before = paths@;
            let ghost offsets_before = offsets@;
            match reversed.pop() {
                Some(row) => {
                    let mut row = row;
                    proof {
                        assert(rows.subrange(0, idx + 1).drop_last() == rows.subrange(
                            0,
                            idx as int,
                        ));
                        assert(rows.subrange(0, idx + 1).last() == rows[idx as int]);
                        lemma_total_len_prefix(rows, idx + 1);
                    }
                    let added = row.len() as u32;
                    let start = offsets[idx];
                    offsets.set(idx + 1, start + added);
                    paths.append(&mut row);
                    proof {
                        assert forall|j: int| 0 <= j < idx + 1 implies paths@.subrange(
                            offsets@[j] as int,
                            offsets@[j + 1] as int,
                        ) == #[trigger] rows[j] by {
                            assert(offsets@[j] == offsets_before[j]);
                            if j < idx {
                                assert(offsets@[j + 1] == offsets_before[j + 1]);
                                assert(offsets_before[j + 1] <= before.len());
                                assert(paths@.subrange(offsets@[j] as int, offsets@[j + 1] as int)
                                    =~= before.subrange(
                                    offsets_before[j] as int,
                                    offsets_before[j + 1] as int,
                                ));
                            } else {
                                assert(paths@.subrange(offsets@[j] as int, offsets@[j + 1] as int)
                                    =~= rows[j]);
                            }
                        }
                    }
                },
                None => {},
            }
            idx += 1;
        }
        proof {
            assert(rows.subrange(0, idx as int) == rows);
            assert(rows_between(paths@, offsets@) =~= rows);
        }
        Self { paths, offsets }
    }

    /// Takes values and offsets as they are, where the offsets start at 0, do
    /// not fall, and end at the number of values; `None` otherwise.
    pub fn from_raw(paths: Vec<T>, offsets: Vec<u32>) -> (r: Option<Self>)
        ensures
            r is Some <==> offsets_fit(offsets@, paths@.len()),
            r matches Some(s) ==> s@ == rows_between(paths@, offsets@) && s.spec_values() == paths@
                && s.spec_offsets() == offsets@,
    {
        if offsets.len() == 0 || offsets[0] != 0 {
            return None;
        }
        let mut i: usize = 1;
        while i < offsets.len()
            invariant
                1 <= i <= offsets.len(),
                forall|a: int, b: int| 0 <= a <= b < i ==> offsets@[a] <= offsets@[b],
            decreases offsets.len() - i,
        {
            if offsets[i - 1] > offsets[i] {
                return None;
            }
            i += 1;
        }
        if offsets[offsets.len() - 1] as usize != paths.len() {
            return None;
        }
        Some(Self { paths, offsets })
    }

    /// Number of rows.
    pub fn len(&self) -> (r: usize)
        ensures
            r == self@.len(),
    {
        proof {
            use_type_invariant(self);
        }
        self.offsets.len() - 1
    }

    /// The row at `idx`.
    pub fn get(&self, idx: usize) -> (r: &[T])
        requires
            idx < self@.len(),
        ensures
            r@ == self@[idx as int],
            r@.len() <= self.spec_values().len(),
    {
        proof {
            use_type_invariant(self);
            assert(self@.len() == self.offsets@.len() - 1);
        }
        let rows = self.offsets.len() - 1;
        assert(idx < rows);
        let offset = self.offsets[idx];
        let length = self.offsets[idx + 1] - offset;
        vstd::slice::slice_subrange(
            self.paths.as_slice(),
            offset as usize,
            (offset + length) as usize,
        )
    }

    /// Number of values in the first `rows` rows.
    pub fn values_before(&self, rows: usize) -> (r: usize)
        requires
            rows <= self@.len(),
        ensures
            r == total_len(self@.take(rows as int)),
    {
        proof {
            use_type_invariant(self);
            assert(self@.len() == self.offsets@.len() - 1);
            lemma_rows_total(self.paths@, self.offsets@, rows as int);
        }
        self.offsets[rows] as usize
    }

    /// All values, row after row.
    pub fn values(&self) -> (r: &Vec<T>)
        ensures
            r@ == self.spec_values(),
    {
        &self.paths
    }

    /// The offsets where the rows begin, and behind them the offset where the
    /// last row ends.
    pub fn offsets(&self) -> (r: &Vec<u32>)
        ensures
            r@ == self.spec_offsets(),
            offsets_fit(r@, self.spec_values().len()),
            self@ == rows_between(self.spec_values(), r@),
    {
        proof {
            use_type_invariant(self);
        }
        &self.offsets
    }
}

/// Building from rows and reading back row by row yields the rows again.
pub proof fn lemma_flat_round_trip<T>(stored: FlatStorage<T>, ragged: Seq<Vec<T>>, i: int)
    requires
        stored@ == rows_of(ragged),
        0 <= i < ragged.len(),
    ensures
        stored@.len() == ragged.len(),
        stored@[i] == ragged[i]@,
{
}

} // verus!
