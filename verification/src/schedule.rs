//! The scheduler: the fixed order in which pixels are handed out as tasks, and
//! the way results that come back in any order are put into raster order.

use vstd::prelude::*;

verus! {

/// One unit of work: a pixel and its place in the finished frame.
#[derive(Clone, Copy, Debug, PartialEq, Eq, Structural)]
pub struct PixelTask {
    /// Place of the pixel in raster order.
    pub index: usize,
    /// Horizontal coordinate, counted from 1.
    pub x: usize,
    /// Vertical coordinate, counted from 1.
    pub y: usize,
}

/// The task with the given raster index in a square frame: both coordinates
/// run from `width` down to 1, the horizontal one fastest.
pub open spec fn task_of(width: nat, index: nat) -> PixelTask {
    PixelTask {
        index: index as usize,
        x: (width - index % width) as usize,
        y: (width - index / width) as usize,
    }
}

/// All tasks of a square frame, in the order in which they are handed out.
pub open spec fn task_list(width: nat) -> Seq<PixelTask> {
    Seq::new(width * width, |i: int| task_of(width, i as nat))
}

/// The raster index of pixel `x`, `y`.
pub open spec fn raster_index(width: nat, x: nat, y: nat) -> int {
    (width - y) * width + (width - x)
}

/// Number of pixels in a square frame; `None` where it does not fit a `usize`.
pub fn task_count(width: usize) -> (count: Option<usize>)
    ensures
        count.is_some() <==> width * width <= usize::MAX,
        count matches Some(n) ==> n == width * width,
{
    width.checked_mul(width)
}

/// The task with raster index `index`.
pub fn task_at(width: usize, index: usize) -> (task: PixelTask)
    requires
        index < width * width,
    ensures
        task == task_of(width as nat, index as nat),
        1 <= task.x <= width,
        1 <= task.y <= width,
{
    proof {
        lemma_task_in_frame(width as nat, index as nat);
    }
    PixelTask { index, x: width - index % width, y: width - index / width }
}

/// The raster index of pixel `x`, `y`.
pub fn index_of(width: usize, x: usize, y: usize) -> (index: usize)
    requires
        1 <= x <= width,
        1 <= y <= width,
        width * width <= usize::MAX,
    ensures
        index == raster_index(width as nat, x as nat, y as nat),
        index < width * width,
        task_of(width as nat, index as nat) == (PixelTask { index, x, y }),
{
    proof {
        lemma_raster_index_inverts_task(width as nat, x as nat, y as nat);
    }
    (width - y) * width + (width - x)
}

/// Lists the tasks of a square frame in the order in which they are handed
/// out; `None` where their number does not fit a `usize`.
pub fn pixel_tasks(width: usize) -> (tasks: Option<Vec<PixelTask>>)
    ensures
        tasks.is_some() <==> width * width <= usize::MAX,
        tasks matches Some(t) ==> t@ == task_list(width as nat),
{
    let total = match task_count(width) {
        Some(n) => n,
        None => {
            return None;
        },
    };
    let mut tasks: Vec<PixelTask> = Vec::new();
    let mut index: usize = 0;
    let mut y: usize = width;
    while y >= 1
        invariant
            total == width * width,
            y <= width,
            index == (width - y) * width,
            tasks@.len() == index,
            forall|i: int| 0 <= i < index ==> tasks@[i] == task_of(width as nat, i as nat),
        decreases y,
    {
        let mut x: usize = width;
        while x >= 1
            invariant
                total == width * width,
                1 <= y <= width,
                x <= width,
                index == (width - y) * width + (width - x),
                tasks@.len() == index,
                forall|i: int| 0 <= i < index ==> tasks@[i] == task_of(width as nat, i as nat),
            decreases x,
        {
            proof {
                lemma_raster_index_inverts_task(width as nat, x as nat, y as nat);
            }
            tasks.push(PixelTask { index, x, y });
            index += 1;
            x -= 1;
        }
        assert((width - y) * width + width == (width - (y - 1)) * width) by (nonlinear_arith);
        y -= 1;
    }
    assert(tasks@ =~= task_list(width as nat));
    Some(tasks)
}

/// Every result carries an index below the number of results.
pub open spec fn indices_in_range<T>(results: Seq<(usize, T)>) -> bool {
    forall|k: int| 0 <= k < results.len() ==> (#[trigger] results[k]).0 < results.len()
}

/// No two results carry the same index.
pub open spec fn indices_distinct<T>(results: Seq<(usize, T)>) -> bool {
    forall|a: int, b: int|
        0 <= a < b < results.len() ==> (#[trigger] results[a]).0 != (#[trigger] results[b]).0
}

/// The results are those of one whole frame: each raster index once.
pub open spec fn is_complete<T>(results: Seq<(usize, T)>) -> bool {
    indices_in_range(results) && indices_distinct(results)
}

/// Whether the result at position `k` carries raster index `index`.
pub open spec fn carries<T>(results: Seq<(usize, T)>, k: int, index: int) -> bool {
    0 <= k < results.len() && results[k].0 == index
}

/// A position at which the result with raster index `index` arrived.
pub open spec fn arrival_of<T>(results: Seq<(usize, T)>, index: int) -> int {
    choose|k: int| carries(results, k, index)
}

/// The frame in raster order: at each index the value that arrived with it.
pub open spec fn raster_order<T>(results: Seq<(usize, T)>) -> Seq<T> {
    Seq::new(results.len(), |i: int| results[arrival_of(results, i)].1)
}

/// Puts the results of one frame into raster order, whatever the order in
/// which they arrived. `None` where an index is missing: where one lies
/// outside the frame or occurs twice.
pub fn reassemble<T: Copy>(results: &Vec<(usize, T)>) -> (frame: Option<Vec<T>>)
    ensures
        frame.is_some() <==> is_complete(results@),
        frame matches Some(f) ==> {
            &&& f@ == raster_order(results@)
            &&& forall|k: int|
                0 <= k < results.len() ==> f@[(#[trigger] results@[k]).0 as int] == results@[k].1
        },
{
    let n = results.len();
    let mut frame: Vec<T> = Vec::new();
    let mut placed: Vec<bool> = Vec::new();
    if n == 0 {
        assert(frame@ =~= raster_order(results@));
        return Some(frame);
    }
    let filler = results[0].1;
    let mut i: usize = 0;
    while i < n
        invariant
            i <= n,
            frame@.len() == i,
            placed@.len() == i,
            forall|j: int| 0 <= j < i ==> !placed@[j],
        decreases n - i,
    {
        frame.push(filler);
        placed.push(false);
        i += 1;
    }
    let mut k: usize = 0;
    while k < n
        invariant
            n == results@.len(),
            k <= n,
            frame@.len() == n,
            placed@.len() == n,
            forall|a: int| 0 <= a < k ==> (#[trigger] results@[a]).0 < n,
            forall|a: int, b: int|
                0 <= a < b < k ==> (#[trigger] results@[a]).0 != (#[trigger] results@[b]).0,
            forall|j: int|
                0 <= j < n ==> (placed@[j] <==> exists|a: int|
                    0 <= a < k && #[trigger] carries(results@, a, j)),
            forall|a: int| 0 <= a < k ==> frame@[(#[trigger] results@[a]).0 as int] == results@[a].1,
        decreases n - k,
    {
        let entry = results[k];
        let index = entry.0;
        if index >= n {
            return None;
        }
        if placed[index] {
            proof {
                let a = choose|a: int| 0 <= a < k && carries(results@, a, index as int);
                assert(results@[a].0 == results@[k as int].0);
            }
            return None;
        }
        assert forall|a: int| 0 <= a < k implies (#[trigger] results@[a]).0 != index by {
            if results@[a].0 == index {
                assert(carries(results@, a, index as int));
            }
        }
        frame.set(index, entry.1);
        placed.set(index, true);
        proof {
            assert(carries(results@, k as int, index as int));
            assert forall|j: int| 0 <= j < n implies (placed@[j] <==> exists|a: int|
                0 <= a < k + 1 && #[trigger] carries(results@, a, j)) by {
                if j != index {
                    if placed@[j] {
                        let a = choose|a: int| 0 <= a < k && carries(results@, a, j);
                        assert(carries(results@, a, j));
                    }
                    if exists|a: int| 0 <= a < k + 1 && carries(results@, a, j) {
                        let a = choose|a: int| 0 <= a < k + 1 && carries(results@, a, j);
                        assert(a != k);
                        assert(carries(results@, a, j));
                    }
                }
            }
            assert forall|a: int| 0 <= a < k + 1 implies frame@[(#[trigger] results@[a]).0 as int]
                == results@[a].1 by {
            }
        }
        k += 1;
    }
    proof {
        assert(is_complete(results@));
        lemma_every_index_arrives(results@);
        assert forall|j: int| 0 <= j < n implies frame@[j] == raster_order(results@)[j] by {
            let a = arrival_of(results@, j);
            assert(carries(results@, a, j));
        }
        assert(frame@ =~= raster_order(results@));
    }
    Some(frame)
}

/// In a complete set of results every raster index arrives at some position.
pub proof fn lemma_every_index_arrives<T>(results: Seq<(usize, T)>)
    requires
        is_complete(results),
    ensures
        forall|i: int|
            0 <= i < results.len() ==> #[trigger] carries(results, arrival_of(results, i), i),
{
    let n = results.len() as int;
    let indices = Seq::new(results.len(), |k: int| results[k].0 as int);
    let all = vstd::set_lib::set_int_range(0, n);
    assert(indices.no_duplicates());
    indices.unique_seq_to_set();
    vstd::set_lib::lemma_int_range(0, n);
    assert forall|i: int| indices.to_set().contains(i) implies all.contains(i) by {
        let k = choose|k: int| 0 <= k < indices.len() && indices[k] == i;
        assert(results[k].0 < results.len());
    }
    vstd::set_lib::lemma_subset_equality(indices.to_set(), all);
    assert forall|i: int| 0 <= i < n implies #[trigger] carries(
        results,
        arrival_of(results, i),
        i,
    ) by {
        assert(all.contains(i));
        assert(indices.to_set().contains(i));
        let k = choose|k: int| 0 <= k < indices.len() && indices[k] == i;
        assert(carries(results, k, i));
    }
}

/// The finished frame does not depend on the order in which results arrive:
/// results that are a complete set stay one under every rearrangement, and
/// every rearrangement gives the same frame.
pub proof fn lemma_arrival_order_is_irrelevant<T>(first: Seq<(usize, T)>, second: Seq<(usize, T)>)
    requires
        is_complete(first),
        first.to_multiset() == second.to_multiset(),
    ensures
        is_complete(second),
        raster_order(second) == raster_order(first),
{
    broadcast use vstd::seq_lib::to_multiset_len, vstd::seq_lib::to_multiset_contains;

    let n = first.len() as int;
    assert(second.len() == n) by {
        assert(first.to_multiset().len() == first.len());
        assert(second.to_multiset().len() == second.len());
    }
    lemma_every_index_arrives(first);
    // Each result of one sequence occurs in the other.
    assert forall|k: int| 0 <= k < n implies first.contains(#[trigger] second[k]) by {
        assert(second.contains(second[k]));
        assert(second.to_multiset().count(second[k]) > 0);
    }
    assert forall|k: int| 0 <= k < n implies second.contains(#[trigger] first[k]) by {
        assert(first.contains(first[k]));
        assert(first.to_multiset().count(first[k]) > 0);
    }
    assert(indices_in_range(second)) by {
        assert forall|k: int| 0 <= k < n implies (#[trigger] second[k]).0 < n by {
            assert(first.contains(second[k]));
            let p = choose|p: int| 0 <= p < first.len() && first[p] == second[k];
            assert(first[p].0 < n);
        }
    }
    // Every index arrives in the second sequence, so none can arrive twice.
    let indices = Seq::new(second.len(), |k: int| second[k].0 as int);
    let all = vstd::set_lib::set_int_range(0, n);
    vstd::set_lib::lemma_int_range(0, n);
    assert forall|i: int| all.contains(i) implies indices.to_set().contains(i) by {
        let p = arrival_of(first, i);
        assert(carries(first, p, i));
        assert(second.contains(first[p]));
        let q = choose|q: int| 0 <= q < second.len() && second[q] == first[p];
        assert(indices[q] == i);
    }
    assert forall|i: int| indices.to_set().contains(i) implies all.contains(i) by {
        let k = choose|k: int| 0 <= k < indices.len() && indices[k] == i;
        assert(second[k].0 < n);
    }
    assert(indices.to_set() =~= all);
    indices.lemma_no_dup_set_cardinality();
    assert(indices_distinct(second)) by {
        assert forall|a: int, b: int| 0 <= a < b < n implies (#[trigger] second[a]).0 != (
        #[trigger] second[b]).0 by {
            assert(indices[a] != indices[b]);
        }
    }
    lemma_every_index_arrives(second);
    assert forall|i: int| 0 <= i < n implies raster_order(second)[i] == raster_order(first)[i] by {
        let p = arrival_of(first, i);
        let q = arrival_of(second, i);
        assert(carries(first, p, i));
        assert(carries(second, q, i));
        assert(first.contains(second[q]));
        let r = choose|r: int| 0 <= r < first.len() && first[r] == second[q];
        assert(first[r].0 == first[p].0);
        assert(r == p);
    }
    assert(raster_order(second) =~= raster_order(first));
}

/// The coordinates of every task lie inside the frame, and its pixel has the
/// task's own raster index.
pub proof fn lemma_task_in_frame(width: nat, index: nat)
    requires
        index < width * width,
    ensures
        0 <= index % width < width,
        0 <= index / width < width,
        raster_index(width, (width - index % width) as nat, (width - index / width) as nat)
            == index,
{
    assert(width > 0) by (nonlinear_arith)
        requires
            index < width * width,
    ;
    vstd::arithmetic::div_mod::lemma_fundamental_div_mod(index as int, width as int);
    vstd::arithmetic::div_mod::lemma_mod_bound(index as int, width as int);
    let q = index as int / width as int;
    assert(0 <= q < width) by (nonlinear_arith)
        requires
            index == width * q + index % width,
            0 <= index % width < width,
            index < width * width,
            width > 0,
    ;
    assert(q * width == width * q) by (nonlinear_arith);
}

/// The raster index of a pixel lies below the number of pixels, and the task
/// at that index is this pixel: tasks and pixels correspond one to one.
pub proof fn lemma_raster_index_inverts_task(width: nat, x: nat, y: nat)
    requires
        1 <= x <= width,
        1 <= y <= width,
    ensures
        0 <= raster_index(width, x, y) < width * width,
        raster_index(width, x, y) % width as int == width - x,
        raster_index(width, x, y) / width as int == width - y,
{
    let i = raster_index(width, x, y);
    assert(0 <= i < width * width) by (nonlinear_arith)
        requires
            i == (width - y) * width + (width - x),
            1 <= x <= width,
            1 <= y <= width,
    ;
    vstd::arithmetic::div_mod::lemma_fundamental_div_mod_converse(
        i,
        width as int,
        width - y,
        width - x,
    );
}

} // verus!
