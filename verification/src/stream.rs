//! Rows laid end to end. A link meets what its objects hold object by
//! object, so what it has met at any moment is a front of such a stream.

use vstd::prelude::*;

verus! {

/// The rows one after another.
pub open spec fn concat<T>(rows: Seq<Seq<T>>) -> Seq<T>
    decreases rows.len(),
{
    if rows.len() == 0 {
        Seq::empty()
    } else {
        concat(rows.drop_last()) + rows.last()
    }
}

/// Where row `i` starts in the stream.
pub open spec fn row_start<T>(rows: Seq<Seq<T>>, i: int) -> int {
    concat(rows.take(i)).len() as int
}

/// The stream up to, and without, item `j` of row `i`.
pub open spec fn front<T>(rows: Seq<Seq<T>>, i: int, j: int) -> Seq<T> {
    concat(rows.take(i)) + rows[i].take(j)
}

/// The stream up to row `i + 1` is the stream up to row `i` and then row
/// `i`.
pub proof fn lemma_concat_take<T>(rows: Seq<Seq<T>>, i: int)
    requires
        0 <= i < rows.len(),
    ensures
        concat(rows.take(i + 1)) == concat(rows.take(i)) + rows[i],
        row_start(rows, i + 1) == row_start(rows, i) + rows[i].len(),
        front(rows, i, 0) == concat(rows.take(i)),
        front(rows, i, rows[i].len() as int) == concat(rows.take(i + 1)),
{
    assert(rows.take(i + 1).drop_last() =~= rows.take(i));
    assert(rows[i].take(0) =~= Seq::<T>::empty());
    assert(rows[i].take(rows[i].len() as int) =~= rows[i]);
    assert(front(rows, i, 0) =~= concat(rows.take(i)));
}

/// The stream up to the last row is the whole stream, and row 0 starts at
/// 0.
pub proof fn lemma_concat_all<T>(rows: Seq<Seq<T>>)
    ensures
        concat(rows.take(rows.len() as int)) == concat(rows),
        row_start(rows, 0) == 0,
{
    assert(rows.take(rows.len() as int) =~= rows);
    assert(rows.take(0) =~= Seq::<Seq<T>>::empty());
}

/// Meeting item `j` of row `i` makes the front one item longer.
pub proof fn lemma_front_push<T>(rows: Seq<Seq<T>>, i: int, j: int)
    requires
        0 <= i < rows.len(),
        0 <= j < rows[i].len(),
    ensures
        front(rows, i, j + 1) == front(rows, i, j).push(rows[i][j]),
        front(rows, i, j).len() == row_start(rows, i) + j,
{
    assert(rows[i].take(j + 1) =~= rows[i].take(j).push(rows[i][j]));
    assert(front(rows, i, j + 1) =~= front(rows, i, j).push(rows[i][j]));
}

/// A later row starts no earlier.
pub proof fn lemma_row_start_monotone<T>(rows: Seq<Seq<T>>, a: int, i: int)
    requires
        0 <= a <= i <= rows.len(),
    ensures
        row_start(rows, a) <= row_start(rows, i),
    decreases i - a,
{
    if a < i {
        lemma_concat_take(rows, i - 1);
        lemma_row_start_monotone(rows, a, i - 1);
    }
}

/// Item `b` of row `a` stands in the stream before every later row.
pub proof fn lemma_row_item_in_range<T>(rows: Seq<Seq<T>>, a: int, i: int, b: int)
    requires
        0 <= a < i <= rows.len(),
        0 <= b < rows[a].len(),
    ensures
        0 <= row_start(rows, a) + b < row_start(rows, i),
{
    lemma_concat_take(rows, a);
    lemma_row_start_monotone(rows, a + 1, i);
}

/// What has been met so far is a front of the whole stream.
pub proof fn lemma_front_is_prefix<T>(rows: Seq<Seq<T>>, i: int, j: int)
    requires
        0 <= i < rows.len(),
        0 <= j <= rows[i].len(),
    ensures
        row_start(rows, i) + j <= concat(rows).len(),
        front(rows, i, j) == concat(rows).take(row_start(rows, i) + j),
    decreases rows.len() - i,
{
    lemma_concat_take(rows, i);
    let whole = concat(rows);
    if i + 1 == rows.len() {
        assert(rows.take(i + 1) =~= rows);
        assert(front(rows, i, j) =~= whole.take(row_start(rows, i) + j));
    } else {
        lemma_front_is_prefix(rows, i + 1, 0);
        lemma_concat_take(rows, i + 1);
        let upto = concat(rows.take(i + 1));
        assert(upto =~= whole.take(row_start(rows, i + 1)));
        assert(front(rows, i, j) =~= upto.take(row_start(rows, i) + j));
        assert(upto.take(row_start(rows, i) + j) =~= whole.take(row_start(rows, i) + j));
    }
}

/// Item `j` of row `i` is item `row_start(rows, i) + j` of the stream.
pub proof fn lemma_concat_index<T>(rows: Seq<Seq<T>>, i: int, j: int)
    requires
        0 <= i < rows.len(),
        0 <= j < rows[i].len(),
    ensures
        0 <= row_start(rows, i) + j < concat(rows).len(),
        concat(rows)[row_start(rows, i) + j] == rows[i][j],
{
    lemma_front_is_prefix(rows, i, j + 1);
    lemma_front_push(rows, i, j);
    let n = row_start(rows, i) + j;
    assert(front(rows, i, j + 1)[n] == rows[i][j]);
}

/// Item `j` of row `i` is item `n` of the stream.
pub open spec fn stands_at<T>(rows: Seq<Seq<T>>, i: int, j: int, n: int) -> bool {
    0 <= i < rows.len() && 0 <= j < rows[i].len() && row_start(rows, i) + j == n
}

/// Every item of the stream is an item of some row.
pub proof fn lemma_concat_locate<T>(rows: Seq<Seq<T>>, n: int)
    requires
        0 <= n < concat(rows).len(),
    ensures
        exists|i: int, j: int| stands_at(rows, i, j, n),
    decreases rows.len(),
{
    let front = rows.drop_last();
    let last = rows.len() - 1;
    lemma_concat_all(rows);
    assert(rows.take(last) =~= front);
    if n < concat(front).len() {
        lemma_concat_locate(front, n);
        let (i, j) = choose|i: int, j: int| stands_at(front, i, j, n);
        assert(front.take(i) =~= rows.take(i));
        assert(stands_at(rows, i, j, n));
    } else {
        assert(stands_at(rows, last, n - concat(front).len(), n));
    }
}

/// Rows after rows give stream after stream.
pub proof fn lemma_concat_append<T>(first: Seq<Seq<T>>, rest: Seq<Seq<T>>)
    ensures
        concat(first + rest) == concat(first) + concat(rest),
    decreases rest.len(),
{
    if rest.len() == 0 {
        assert(first + rest =~= first);
        assert(concat(first) + concat(rest) =~= concat(first));
    } else {
        lemma_concat_append(first, rest.drop_last());
        assert((first + rest).drop_last() =~= first + rest.drop_last());
        assert((first + rest).last() == rest.last());
        assert(concat(first + rest) =~= concat(first) + concat(rest));
    }
}

} // verus!
