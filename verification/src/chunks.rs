//! Facts about a sequence cut into chunks: the contents of a tree are the
//! cells of its leaves, one chunk for each leaf.

use vstd::prelude::*;
use vstd::seq_lib::lemma_flatten_concat;

verus! {

/// The number of items in the first `i` chunks of `chunks`.
pub open spec fn len_before<A>(chunks: Seq<Seq<A>>, i: int) -> int {
    chunks.subrange(0, i).flatten().len() as int
}

/// A sequence of chunks flattens to the chunks before `i`, the chunk `i` and
/// the chunks after it, one after the other.
pub proof fn lemma_flatten_around<A>(chunks: Seq<Seq<A>>, i: int)
    requires
        0 <= i < chunks.len(),
    ensures
        chunks.flatten() == chunks.subrange(0, i).flatten() + chunks[i] + chunks.subrange(
            i + 1,
            chunks.len() as int,
        ).flatten(),
        chunks.subrange(0, i + 1).flatten() == chunks.subrange(0, i).flatten() + chunks[i],
{
    let before = chunks.subrange(0, i);
    let after = chunks.subrange(i + 1, chunks.len() as int);
    let one = seq![chunks[i]];
    assert(chunks =~= before + one + after);
    lemma_flatten_concat(before + one, after);
    lemma_flatten_concat(before, one);
    one.lemma_flatten_singleton();
    assert(chunks.subrange(0, i + 1) =~= before + one);
}

/// The item `c` of the chunk `i` is the item of the flattened sequence that
/// comes after the items of the chunks before `i` and `c` more.
pub proof fn lemma_flatten_index<A>(chunks: Seq<Seq<A>>, i: int, c: int)
    requires
        0 <= i < chunks.len(),
        0 <= c < chunks[i].len(),
    ensures
        len_before(chunks, i) + c < chunks.flatten().len(),
        chunks.flatten()[len_before(chunks, i) + c] == chunks[i][c],
{
    lemma_flatten_around(chunks, i);
}

/// The chunks before the end are all the chunks, and none come before the
/// first.
pub proof fn lemma_len_before_ends<A>(chunks: Seq<Seq<A>>)
    ensures
        len_before(chunks, 0) == 0,
        len_before(chunks, chunks.len() as int) == chunks.flatten().len(),
{
    assert(chunks.subrange(0, chunks.len() as int) =~= chunks);
    assert(chunks.subrange(0, 0) =~= Seq::<Seq<A>>::empty());
}

/// Putting `item` into the chunk `i` at `c` puts it into the flattened
/// sequence after the chunks before `i` and `c` more items.
pub proof fn lemma_flatten_insert<A>(chunks: Seq<Seq<A>>, i: int, c: int, item: A)
    requires
        0 <= i < chunks.len(),
        0 <= c <= chunks[i].len(),
    ensures
        chunks.update(i, chunks[i].insert(c, item)).flatten() == chunks.flatten().insert(
            len_before(chunks, i) + c,
            item,
        ),
{
    let changed = chunks.update(i, chunks[i].insert(c, item));
    lemma_flatten_around(chunks, i);
    lemma_flatten_around(changed, i);
    assert(changed.subrange(0, i) =~= chunks.subrange(0, i));
    assert(changed.subrange(i + 1, changed.len() as int) =~= chunks.subrange(
        i + 1,
        chunks.len() as int,
    ));
    assert(changed.flatten() =~= chunks.flatten().insert(len_before(chunks, i) + c, item));
}

/// Cutting the chunk `i` in two leaves the flattened sequence as it is.
pub proof fn lemma_flatten_cut<A>(chunks: Seq<Seq<A>>, i: int, left: Seq<A>, right: Seq<A>)
    requires
        0 <= i < chunks.len(),
        chunks[i] == left + right,
    ensures
        chunks.update(i, left).insert(i + 1, right).flatten() == chunks.flatten(),
{
    let cut = chunks.update(i, left).insert(i + 1, right);
    let before = chunks.subrange(0, i);
    let after = chunks.subrange(i + 1, chunks.len() as int);
    lemma_flatten_around(chunks, i);
    assert(cut =~= before + seq![left] + seq![right] + after);
    lemma_flatten_concat(before + seq![left] + seq![right], after);
    lemma_flatten_concat(before + seq![left], seq![right]);
    lemma_flatten_concat(before, seq![left]);
    seq![left].lemma_flatten_singleton();
    seq![right].lemma_flatten_singleton();
    assert(cut.flatten() =~= chunks.flatten());
}

/// The keys of `cells` are strictly increasing.
pub open spec fn sorted_cells(cells: Seq<(usize, Seq<u8>)>) -> bool {
    forall|i: int, j: int| 0 <= i < j < cells.len() ==> cells[i].0 < cells[j].0
}

/// Cells stay sorted when a cell is put in between the cells with smaller
/// keys and the cells with larger keys.
pub proof fn lemma_insert_sorted(cells: Seq<(usize, Seq<u8>)>, c: int, cell: (usize, Seq<u8>))
    requires
        sorted_cells(cells),
        0 <= c <= cells.len(),
        forall|j: int| 0 <= j < c ==> (#[trigger] cells[j]).0 < cell.0,
        forall|j: int| c <= j < cells.len() ==> cell.0 < (#[trigger] cells[j]).0,
    ensures
        sorted_cells(cells.insert(c, cell)),
{
    let after = cells.insert(c, cell);
    assert forall|i: int, j: int| 0 <= i < j < after.len() implies after[i].0 < after[j].0 by {
        if i < c {
            assert(after[i] == cells[i]);
        } else if i > c {
            assert(after[i] == cells[i - 1]);
        }
        if j < c {
            assert(after[j] == cells[j]);
        } else if j > c {
            assert(after[j] == cells[j - 1]);
        }
    }
}

/// Sorted cells followed by sorted cells with larger keys are sorted.
pub proof fn lemma_concat_sorted(front: Seq<(usize, Seq<u8>)>, back: Seq<(usize, Seq<u8>)>)
    requires
        sorted_cells(front),
        sorted_cells(back),
        front.len() > 0 && back.len() > 0 ==> front.last().0 < back[0].0,
    ensures
        sorted_cells(front + back),
{
    let all = front + back;
    assert forall|i: int, j: int| 0 <= i < j < all.len() implies all[i].0 < all[j].0 by {
        if j < front.len() {
            assert(all[i] == front[i]);
            assert(all[j] == front[j]);
        } else if i >= front.len() {
            assert(all[i] == back[i - front.len()]);
            assert(all[j] == back[j - front.len()]);
        } else {
            assert(all[i] == front[i]);
            assert(all[j] == back[j - front.len()]);
            if i < front.len() - 1 {
                assert(front[i].0 < front[front.len() - 1].0);
            }
            if j > front.len() {
                assert(back[0].0 < back[j - front.len()].0);
            }
        }
    }
}

/// Chunks of cells that are each sorted, and of which each ends below the
/// start of the next, flatten to sorted cells.
pub proof fn lemma_flatten_sorted(chunks: Seq<Seq<(usize, Seq<u8>)>>)
    requires
        forall|i: int| 0 <= i < chunks.len() ==> sorted_cells(#[trigger] chunks[i]),
        chunks.len() > 1 ==> forall|i: int|
            0 <= i < chunks.len() ==> (#[trigger] chunks[i]).len() > 0,
        forall|i: int|
            0 <= i && i + 1 < chunks.len() ==> (#[trigger] chunks[i]).last().0 < chunks[i + 1][0].0,
    ensures
        sorted_cells(chunks.flatten()),
        chunks.len() > 1 ==> chunks.flatten().len() > 0 && chunks.flatten().last()
            == chunks.last().last(),
    decreases chunks.len(),
{
    if chunks.len() == 0 {
    } else if chunks.len() == 1 {
        chunks.lemma_flatten_singleton();
    } else {
        let front = chunks.drop_last();
        let back = chunks.last();
        let k = chunks.len() - 2;
        assert(chunks =~= front.push(back));
        front.lemma_flatten_push(back);
        assert forall|i: int| 0 <= i < front.len() implies sorted_cells(#[trigger] front[i]) by {
            assert(front[i] == chunks[i]);
        }
        assert forall|i: int| 0 <= i < front.len() implies (#[trigger] front[i]).len() > 0 by {
            assert(front[i] == chunks[i]);
        }
        assert forall|i: int| 0 <= i && i + 1 < front.len() implies (#[trigger] front[i]).last().0
            < front[i + 1][0].0 by {
            assert(front[i] == chunks[i]);
            assert(front[i + 1] == chunks[i + 1]);
        }
        lemma_flatten_sorted(front);
        let flat = front.flatten();
        if front.len() == 1 {
            front.lemma_flatten_singleton();
        }
        assert(front.last() == chunks[k]);
        assert(chunks[k].len() > 0);
        assert(flat.len() > 0 && flat.last() == chunks[k].last());
        assert(back == chunks[k + 1]);
        assert(chunks[k].last().0 < chunks[k + 1][0].0);
        assert(sorted_cells(back));
        assert(back.len() > 0);
        lemma_concat_sorted(flat, back);
        assert(chunks.flatten() == flat + back);
        assert((flat + back).last() == back.last());
    }
}

} // verus!
