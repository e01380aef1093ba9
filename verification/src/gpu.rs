use vstd::prelude::*;

verus! {

/// Total number of items held by the first `n` rows of `nested`.
pub open spec fn prefix_total<T>(nested: Seq<Vec<T>>, n: int) -> int
    decreases n,
{
    if n <= 0 {
        0
    } else {
        prefix_total(nested, n - 1) + nested[n - 1]@.len()
    }
}

/// All rows of `nested`, one after another.
pub open spec fn concat_rows<T>(nested: Seq<Vec<T>>) -> Seq<T>
    decreases nested.len(),
{
    if nested.len() == 0 {
        Seq::empty()
    } else {
        concat_rows(nested.drop_last()) + nested.last()@
    }
}

/// Where row `i` starts in the flat array, given the table of row ends.
pub open spec fn row_start(indexes: Seq<usize>, i: int) -> int {
    if i <= 0 {
        0
    } else {
        indexes[i - 1] as int
    }
}

/// The concatenation of the first `n` rows is as long as their total.
pub proof fn lemma_concat_rows_len<T>(nested: Seq<Vec<T>>, n: int)
    requires
        0 <= n <= nested.len(),
    ensures
        concat_rows(nested.take(n)).len() == prefix_total(nested, n),
    decreases n,
{
    if n > 0 {
        lemma_concat_rows_len(nested, n - 1);
        assert(nested.take(n).drop_last() =~= nested.take(n - 1));
    }
}

/// The concatenation of the first `n + 1` rows extends that of the first `n`
/// rows by row `n`.
pub proof fn lemma_concat_rows_step<T>(nested: Seq<Vec<T>>, n: int)
    requires
        0 <= n < nested.len(),
    ensures
        concat_rows(nested.take(n + 1)) == concat_rows(nested.take(n)) + nested[n]@,
{
    assert(nested.take(n + 1).drop_last() =~= nested.take(n));
}

/// Flattens a list of rows into one array and a table of row ends.
///
/// Row `i` of the input occupies the half-open range from the end of row
/// `i - 1` (zero for the first row) to `indexes[i]` in the flat array.
pub fn flat_with_indexes<T: Copy>(nested_slice: &[Vec<T>]) -> (out: (Vec<T>, Vec<usize>))
    ensures
        out.0@ == concat_rows(nested_slice@),
        out.1@.len() == nested_slice@.len(),
        forall|i: int|
            0 <= i < nested_slice@.len() ==> #[trigger] out.1@[i] as int == prefix_total(
                nested_slice@,
                i + 1,
            ),
{
    let mut flat: Vec<T> = Vec::new();
    let mut indexes: Vec<usize> = Vec::with_capacity(nested_slice.len());
    let mut i: usize = 0;
    while i < nested_slice.len()
        invariant
            0 <= i <= nested_slice@.len(),
            flat@ == concat_rows(nested_slice@.take(i as int)),
            indexes@.len() == i,
            forall|k: int|
                0 <= k < i ==> #[trigger] indexes@[k] as int == prefix_total(nested_slice@, k + 1),
        decreases nested_slice@.len() - i,
    {
        let row = &nested_slice[i];
        let ghost before = flat@;
        let mut j: usize = 0;
        while j < row.len()
            invariant
                0 <= j <= row@.len(),
                flat@ == before + row@.take(j as int),
            decreases row@.len() - j,
        {
            flat.push(row[j]);
            proof {
                assert(row@.take(j + 1) =~= row@.take(j as int).push(row@[j as int]));
            }
            j += 1;
        }
        proof {
            assert(row@.take(row@.len() as int) =~= row@);
            lemma_concat_rows_step(nested_slice@, i as int);
            lemma_concat_rows_len(nested_slice@, i + 1);
        }
        indexes.push(flat.len());
        i += 1;
    }
    proof {
        assert(nested_slice@.take(nested_slice@.len() as int) =~= nested_slice@);
    }
    (flat, indexes)
}

/// Row `i` can be read back from the flat array between its start and its end.
pub proof fn lemma_row_of_flat<T>(nested: Seq<Vec<T>>, flat: Seq<T>, indexes: Seq<usize>, i: int)
    requires
        flat == concat_rows(nested),
        indexes.len() == nested.len(),
        forall|k: int|
            0 <= k < nested.len() ==> #[trigger] indexes[k] as int == prefix_total(nested, k + 1),
        0 <= i < nested.len(),
    ensures
        0 <= row_start(indexes, i) <= indexes[i] <= flat.len(),
        flat.subrange(row_start(indexes, i), indexes[i] as int) == nested[i]@,
{
    lemma_concat_rows_len(nested, i);
    lemma_concat_rows_len(nested, i + 1);
    lemma_concat_rows_step(nested, i);
    lemma_concat_rows_prefix(nested, i + 1);
    let upto = concat_rows(nested.take(i + 1));
    let start = row_start(indexes, i);
    if i > 0 {
        assert(indexes[i - 1] as int == prefix_total(nested, (i - 1) + 1));
    }
    assert(start == concat_rows(nested.take(i)).len());
    assert(flat.subrange(0, upto.len() as int) == upto);
    assert(flat.subrange(start, indexes[i] as int) =~= flat.subrange(0, upto.len() as int).subrange(
        start,
        upto.len() as int,
    ));
    assert(upto.subrange(start, upto.len() as int) =~= nested[i]@);
}

/// The concatenation of the first `n` rows is a prefix of the concatenation
/// of all rows.
pub proof fn lemma_concat_rows_prefix<T>(nested: Seq<Vec<T>>, n: int)
    requires
        0 <= n <= nested.len(),
    ensures
        concat_rows(nested.take(n)).len() <= concat_rows(nested).len(),
        concat_rows(nested).subrange(0, concat_rows(nested.take(n)).len() as int) == concat_rows(
            nested.take(n),
        ),
    decreases nested.len() - n,
{
    if n == nested.len() {
        assert(nested.take(n) =~= nested);
        assert(concat_rows(nested).subrange(0, concat_rows(nested).len() as int) =~= concat_rows(
            nested,
        ));
    } else {
        lemma_concat_rows_prefix(nested, n + 1);
        lemma_concat_rows_step(nested, n);
        let whole = concat_rows(nested);
        let longer = concat_rows(nested.take(n + 1));
        let shorter = concat_rows(nested.take(n));
        assert(whole.subrange(0, shorter.len() as int) =~= longer.subrange(
            0,
            shorter.len() as int,
        ));
        assert(longer.subrange(0, shorter.len() as int) =~= shorter);
    }
}

} // verus!
