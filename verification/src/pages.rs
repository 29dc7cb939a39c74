//! Sharing the pages of a document among worker processes, and putting
//! their per-page results back in page order.
use vstd::prelude::*;

verus! {

/// Pages handled by worker `w` of `n`: `w, w + n, w + 2n, ...`, below `count`.
pub open spec fn worker_pages(w: int, n: int, count: int) -> Seq<int> {
    let len = if w < count {
        (count - w - 1) / n + 1
    } else {
        0
    };
    Seq::new(len as nat, |k: int| w + k * n)
}

/// Number of workers: the available parallelism (4 when unknown), at most
/// one per page.
pub open spec fn spec_worker_count(available: Option<usize>, page_count: usize) -> usize {
    let a = match available {
        Some(n) => n,
        None => 4,
    };
    if a < page_count {
        a
    } else {
        page_count
    }
}

pub fn worker_count(available: Option<usize>, page_count: usize) -> (n: usize)
    ensures
        n == spec_worker_count(available, page_count),
{
    let a = match available {
        Some(n) => n,
        None => 4,
    };
    if a < page_count {
        a
    } else {
        page_count
    }
}

/// The pages that worker `worker_index` of `n_workers` handles, in order.
pub fn worker_page_indices(worker_index: usize, n_workers: usize, page_count: usize) -> (out: Vec<usize>)
    requires
        n_workers > 0,
    ensures
        out@.map_values(|i: usize| i as int) == worker_pages(
            worker_index as int,
            n_workers as int,
            page_count as int,
        ),
{
    let ghost expected = worker_pages(worker_index as int, n_workers as int, page_count as int);
    let mut out: Vec<usize> = Vec::new();
    if worker_index >= page_count {
        assert(out@.map_values(|i: usize| i as int) =~= expected);
        return out;
    }
    let mut idx = worker_index;
    assert(idx == worker_index + out.len() * n_workers) by (nonlinear_arith)
        requires
            out.len() == 0,
            idx == worker_index,
    ;
    assert(expected.len() >= 1) by (nonlinear_arith)
        requires
            expected.len() == (page_count - worker_index - 1) / (n_workers as int) + 1,
            worker_index < page_count,
            n_workers > 0,
    ;
    loop
        invariant_except_break
            idx == worker_index + out.len() * n_workers,
            out@.map_values(|i: usize| i as int) =~= expected.take(out.len() as int),
            out.len() < expected.len(),
        invariant
            n_workers > 0,
            worker_index <= idx < page_count,
            expected == worker_pages(worker_index as int, n_workers as int, page_count as int),
        ensures
            out@.map_values(|i: usize| i as int) =~= expected,
        decreases page_count - idx,
    {
        let ghost before = out@;
        out.push(idx);
        assert(out@.map_values(|i: usize| i as int) =~= expected.take(out.len() as int)) by {
            assert(out@ == before.push(idx));
        }
        proof {
            lemma_worker_pages_len(worker_index as int, n_workers as int, page_count as int, out.len() as int);
        }
        if n_workers >= page_count - idx {
            assert(expected.take(out.len() as int) =~= expected);
            break;
        }
        idx = idx + n_workers;
        assert(idx == worker_index + out.len() * n_workers) by (nonlinear_arith)
            requires
                idx == worker_index + (out.len() - 1) * n_workers + n_workers,
        ;
    }
    out
}

/// Worker `w`'s list has more than `k` pages exactly when `w + k*n` is a page.
proof fn lemma_worker_pages_len(w: int, n: int, count: int, k: int)
    requires
        0 <= w < count,
        n > 0,
        k >= 1,
    ensures
        (w + (k - 1) * n + n < count) <==> worker_pages(w, n, count).len() > k,
{
    let len = (count - w - 1) / n + 1;
    assert(worker_pages(w, n, count).len() == len);
    assert((w + k * n < count) <==> len > k) by (nonlinear_arith)
        requires
            len == (count - w - 1) / n + 1,
            0 <= w < count,
            n > 0,
            k >= 1,
    {
        let q = (count - w - 1) / n;
        let r = (count - w - 1) % n;
        assert(count - w - 1 == q * n + r);
        if k * n <= count - w - 1 {
            assert(k * n <= q * n + r);
            if k > q {
                assert(k * n >= (q + 1) * n);
            }
        } else {
            if k <= q {
                assert(k * n <= q * n);
            }
        }
    }
    assert(w + (k - 1) * n + n == w + k * n) by (nonlinear_arith);
}

/// Every page belongs to the list of worker `p % n` and to no other worker's
/// list: the workers' lists partition the pages.
pub proof fn lemma_workers_partition_pages(n: int, count: int, p: int, w: int)
    requires
        n > 0,
        0 <= p < count,
        0 <= w < n,
    ensures
        worker_pages(w, n, count).contains(p) <==> w == p % n,
{
    let s = worker_pages(w, n, count);
    if w == p % n {
        let k = p / n;
        assert(p == k * n + w) by (nonlinear_arith)
            requires
                w == p % n,
                k == p / n,
                n > 0,
        ;
        assert(k < s.len()) by (nonlinear_arith)
            requires
                s.len() == (count - w - 1) / n + 1,
                p == k * n + w,
                p < count,
                n > 0,
                k >= 0,
                w >= 0,
        {
            assert(count - w - 1 >= k * n);
            assert((count - w - 1) / n >= k);
        }
        assert(k >= 0) by (nonlinear_arith)
            requires
                k == p / n,
                p >= 0,
                n > 0,
        ;
        assert(s[k] == p);
    } else {
        if s.contains(p) {
            let k = choose|k: int| 0 <= k < s.len() && s[k] == p;
            assert(p == w + k * n);
            assert(p % n == w) by (nonlinear_arith)
                requires
                    p == w + k * n,
                    0 <= w < n,
                    k >= 0,
            {
                vstd::arithmetic::div_mod::lemma_fundamental_div_mod_converse(p, n, k, w);
            }
        }
    }
}

/// The value of the last entry for page `i`, if any entry names it.
pub open spec fn last_for<T>(entries: Seq<(usize, Vec<T>)>, i: int) -> Option<Vec<T>>
    decreases entries.len(),
{
    if entries.len() == 0 {
        None
    } else if entries.last().0 == i {
        Some(entries.last().1)
    } else {
        last_for(entries.drop_last(), i)
    }
}

/// A page holds the value of its last entry, or nothing when it has none.
pub open spec fn page_holds<T>(page: Vec<T>, entry: Option<Vec<T>>) -> bool {
    match entry {
        Some(v) => page == v,
        None => page@.len() == 0,
    }
}

proof fn lemma_last_for_prepend<T>(e: (usize, Vec<T>), rest: Seq<(usize, Vec<T>)>, i: int)
    ensures
        last_for(seq![e] + rest, i) == match last_for(rest, i) {
            Some(v) => Some(v),
            None => if e.0 == i {
                Some(e.1)
            } else {
                None
            },
        },
    decreases rest.len(),
{
    if rest.len() == 0 {
        assert((seq![e] + rest).drop_last() =~= Seq::<(usize, Vec<T>)>::empty());
        assert((seq![e] + rest).last() == e);
        assert(last_for((seq![e] + rest).drop_last(), i) is None);
        assert(last_for(rest, i) is None);
    } else {
        assert((seq![e] + rest).drop_last() =~= seq![e] + rest.drop_last());
        assert((seq![e] + rest).last() == rest.last());
        lemma_last_for_prepend(e, rest.drop_last(), i);
    }
}

/// Page results in page order: page `i` gets the value of the last entry
/// naming it, or an empty list when none does; entries naming a page past
/// `page_count` are dropped.
pub fn assemble_pages<T>(page_count: usize, entries: Vec<(usize, Vec<T>)>) -> (pages: Vec<Vec<T>>)
    ensures
        pages.len() == page_count,
        forall|i: int| 0 <= i < page_count ==> #[trigger] page_holds(pages@[i], last_for(entries@, i)),
{
    let ghost all = entries@;
    let mut slots: Vec<Option<Vec<T>>> = Vec::new();
    let mut k: usize = 0;
    while k < page_count
        invariant
            k <= page_count,
            slots.len() == k,
            forall|j: int| 0 <= j < k ==> #[trigger] slots@[j] is None,
        decreases page_count - k,
    {
        slots.push(None);
        k = k + 1;
    }
    let mut entries = entries;
    assert(all.skip(all.len() as int) =~= Seq::<(usize, Vec<T>)>::empty());
    while entries.len() > 0
        invariant
            slots.len() == page_count,
            entries@ == all.take(entries.len() as int),
            entries.len() <= all.len(),
            forall|j: int|
                0 <= j < page_count ==> #[trigger] slots@[j] == last_for(
                    all.skip(entries.len() as int),
                    j,
                ),
        decreases entries.len(),
    {
        let ghost n = entries.len() as int;
        let e = entries.pop().unwrap();
        assert(e == all[n - 1]);
        assert(all.skip(n - 1) =~= seq![all[n - 1]] + all.skip(n));
        proof {
            assert forall|j: int| 0 <= j < page_count implies #[trigger] last_for(all.skip(n - 1), j) == match last_for(
                all.skip(n),
                j,
            ) {
                Some(v) => Some(v),
                None => if all[n - 1].0 == j {
                    Some(all[n - 1].1)
                } else {
                    None
                },
            } by {
                lemma_last_for_prepend(all[n - 1], all.skip(n), j);
            }
        }
        let (idx, blocks) = e;
        if idx < page_count && slots[idx].is_none() {
            slots.set(idx, Some(blocks));
        }
        assert(entries@ =~= all.take(entries.len() as int));
    }
    assert(all.skip(0) =~= all);
    let mut pages: Vec<Vec<T>> = Vec::new();
    let mut slots = slots;
    let mut rev: Vec<Vec<T>> = Vec::new();
    while slots.len() > 0
        invariant
            slots.len() + rev.len() == page_count,
            forall|j: int|
                0 <= j < slots.len() ==> #[trigger] slots@[j] == last_for(all, j),
            forall|j: int|
                0 <= j < rev.len() ==> #[trigger] page_holds(rev@[j], last_for(all, page_count - 1 - j)),
        decreases slots.len(),
    {
        let s = slots.pop().unwrap();
        let v = match s {
            Some(v) => v,
            None => Vec::new(),
        };
        rev.push(v);
    }
    while rev.len() > 0
        invariant
            rev.len() + pages.len() == page_count,
            forall|j: int|
                0 <= j < rev.len() ==> #[trigger] page_holds(rev@[j], last_for(all, page_count - 1 - j)),
            forall|j: int|
                0 <= j < pages.len() ==> #[trigger] page_holds(pages@[j], last_for(all, j)),
        decreases rev.len(),
    {
        let ghost j = pages.len() as int;
        let ghost last = rev.len() - 1;
        assert(page_holds(rev@[last], last_for(all, page_count - 1 - last)));
        let v = rev.pop().unwrap();
        assert(page_holds(v, last_for(all, j)));
        pages.push(v);
    }
    pages
}

} // verus!
