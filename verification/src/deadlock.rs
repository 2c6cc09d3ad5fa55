//! Deadlock avoidance with the banker's algorithm.
//!
//! The state is a vector of available units per resource, and one row per thread of
//! allocated units and of still needed units. Rows may be shorter than the number
//! of resources; a missing entry counts as 0.
use vstd::prelude::*;

verus! {

/// The rows of a matrix.
pub open spec fn rows(m: Seq<Vec<usize>>) -> Seq<Seq<usize>> {
    m.map_values(|r: Vec<usize>| r@)
}

/// A sequence of machine words read as integers.
pub open spec fn as_ints(s: Seq<usize>) -> Seq<int> {
    s.map_values(|x: usize| x as int)
}

/// Entry `j` of a row, 0 past its end.
pub open spec fn cell(row: Seq<usize>, j: int) -> int {
    if 0 <= j < row.len() {
        row[j] as int
    } else {
        0
    }
}

/// Row `i` of a matrix, empty past its end.
pub open spec fn row_of(m: Seq<Seq<usize>>, i: int) -> Seq<usize> {
    if 0 <= i < m.len() {
        m[i]
    } else {
        Seq::empty()
    }
}

/// Units of resource `j` held by the threads among the first `n` that `done` marks.
pub open spec fn released(alloc: Seq<Seq<usize>>, done: Seq<bool>, j: int, n: nat) -> int
    decreases n,
{
    if n == 0 {
        0
    } else {
        released(alloc, done, j, (n - 1) as nat) + if done[n - 1] {
            cell(row_of(alloc, n - 1), j)
        } else {
            0
        }
    }
}

/// The units of each resource available once the threads that `done` marks have
/// finished and given back what they hold.
pub open spec fn work_of(avail: Seq<usize>, alloc: Seq<Seq<usize>>, done: Seq<bool>) -> Seq<int> {
    Seq::new(avail.len(), |j: int| avail[j] + released(alloc, done, j, done.len()))
}

/// A thread whose remaining need is `need_row` can run to completion with `work`:
/// no entry of its need exceeds what is available (nothing is available of a
/// resource past the end of `work`).
pub open spec fn can_finish(need_row: Seq<usize>, work: Seq<int>) -> bool {
    forall|j: int|
        0 <= j < need_row.len() ==> need_row[j] <= (if j < work.len() {
            work[j]
        } else {
            0
        })
}

/// The threads among `0..n` that come before position `k` of `order`.
pub open spec fn finished_before(order: Seq<int>, k: int, n: nat) -> Seq<bool> {
    Seq::new(n, |i: int| order.take(k).contains(i))
}

/// `order` is a safe sequence: it lists every thread exactly once, and each thread
/// can finish with what is available plus what the threads before it give back.
pub open spec fn is_safe_order(
    avail: Seq<usize>,
    alloc: Seq<Seq<usize>>,
    need: Seq<Seq<usize>>,
    order: Seq<int>,
) -> bool {
    let n = alloc.len();
    &&& order.no_duplicates()
    &&& forall|k: int| 0 <= k < order.len() ==> 0 <= #[trigger] order[k] < n
    &&& forall|i: int| 0 <= i < n ==> #[trigger] order.contains(i)
    &&& forall|k: int|
        0 <= k < order.len() ==> can_finish(
            row_of(need, #[trigger] order[k]),
            work_of(avail, alloc, finished_before(order, k, n)),
        )
}

/// The state is safe: some safe sequence exists.
pub open spec fn is_safe(avail: Seq<usize>, alloc: Seq<Seq<usize>>, need: Seq<Seq<usize>>) -> bool {
    exists|order: Seq<int>| is_safe_order(avail, alloc, need, order)
}

/// Every thread marked.
pub open spec fn all_done(n: nat) -> Seq<bool> {
    Seq::new(n, |i: int| true)
}

/// Giving back everything that is allocated cannot overflow a machine word.
pub open spec fn totals_fit(avail: Seq<usize>, alloc: Seq<Seq<usize>>) -> bool {
    forall|j: int|
        0 <= j < avail.len() ==> avail[j] + #[trigger] released(alloc, all_done(alloc.len()), j, alloc.len())
            <= usize::MAX
}

proof fn lemma_released_nonneg(alloc: Seq<Seq<usize>>, done: Seq<bool>, j: int, n: nat)
    ensures
        released(alloc, done, j, n) >= 0,
    decreases n,
{
    if n > 0 {
        lemma_released_nonneg(alloc, done, j, (n - 1) as nat);
    }
}

/// More finished threads give back at least as much.
proof fn lemma_released_mono(alloc: Seq<Seq<usize>>, d1: Seq<bool>, d2: Seq<bool>, j: int, n: nat)
    requires
        forall|i: int| 0 <= i < n ==> #[trigger] d1[i] ==> d2[i],
    ensures
        released(alloc, d1, j, n) <= released(alloc, d2, j, n),
    decreases n,
{
    if n > 0 {
        lemma_released_mono(alloc, d1, d2, j, (n - 1) as nat);
    }
}

/// Marking one more thread adds what it holds.
proof fn lemma_released_mark(alloc: Seq<Seq<usize>>, done: Seq<bool>, i: int, j: int, n: nat)
    requires
        0 <= i < done.len(),
        n <= done.len(),
        !done[i],
    ensures
        released(alloc, done.update(i, true), j, n) == released(alloc, done, j, n) + if i < n {
            cell(row_of(alloc, i), j)
        } else {
            0
        },
    decreases n,
{
    if n > 0 {
        lemma_released_mark(alloc, done, i, j, (n - 1) as nat);
    }
}

/// More available units never make a safe state unsafe: the same safe sequence
/// still works when every resource has at least as many units available.
pub proof fn lemma_safe_with_more_available(
    fewer: Seq<usize>,
    more: Seq<usize>,
    alloc: Seq<Seq<usize>>,
    need: Seq<Seq<usize>>,
)
    requires
        fewer.len() == more.len(),
        forall|j: int| 0 <= j < fewer.len() ==> #[trigger] fewer[j] <= more[j],
        is_safe(fewer, alloc, need),
    ensures
        is_safe(more, alloc, need),
{
    let order = choose|order: Seq<int>| is_safe_order(fewer, alloc, need, order);
    let n = alloc.len();
    assert forall|k: int| 0 <= k < order.len() implies can_finish(
        row_of(need, #[trigger] order[k]),
        work_of(more, alloc, finished_before(order, k, n)),
    ) by {
        let done = finished_before(order, k, n);
        let w1 = work_of(fewer, alloc, done);
        let w2 = work_of(more, alloc, done);
        assert(can_finish(row_of(need, order[k]), w1));
        assert forall|j: int| 0 <= j < row_of(need, order[k]).len() implies
            row_of(need, order[k])[j] <= (if j < w2.len() { w2[j] } else { 0 }) by {
            if j < w1.len() {
                assert(w1[j] <= w2[j]);
            }
        }
    }
    assert(is_safe_order(more, alloc, need, order));
}

/// Whether a row of needs fits into the available work.
fn row_fits(row: &Vec<usize>, work: &Vec<usize>) -> (r: bool)
    ensures
        r == can_finish(row@, as_ints(work@)),
{
    let mut j: usize = 0;
    while j < row.len()
        invariant
            j <= row.len(),
            forall|k: int| 0 <= k < j ==> row@[k] <= (if k < work@.len() { work@[k] as int } else { 0 }),
        decreases row.len() - j,
    {
        let avail_j = if j < work.len() { work[j] } else { 0 };
        if row[j] > avail_j {
            return false;
        }
        j = j + 1;
    }
    true
}

/// Add a row of held units to the work.
fn give_back(work: &mut Vec<usize>, row: &Vec<usize>)
    requires
        forall|j: int| 0 <= j < old(work)@.len() ==> old(work)@[j] + cell(row@, j) <= usize::MAX,
    ensures
        final(work)@.len() == old(work)@.len(),
        forall|j: int| 0 <= j < old(work)@.len() ==> final(work)@[j] == old(work)@[j] + cell(row@, j),
{
    let ghost w0 = work@;
    let mut j: usize = 0;
    while j < row.len()
        invariant
            j <= row.len(),
            work@.len() == w0.len(),
            forall|k: int| 0 <= k < w0.len() ==> w0[k] + cell(row@, k) <= usize::MAX,
            forall|k: int| 0 <= k < w0.len() ==> work@[k] == w0[k] + if k < j { cell(row@, k) } else { 0 },
        decreases row.len() - j,
    {
        if j < work.len() {
            let v = work[j] + row[j];
            work[j] = v;
        }
        j = j + 1;
    }
}

/// No safe sequence exists when some thread is unfinished and no unfinished thread
/// can finish with what the finished ones give back.
proof fn lemma_stuck_is_unsafe(
    avail: Seq<usize>,
    alloc: Seq<Seq<usize>>,
    need: Seq<Seq<usize>>,
    done: Seq<bool>,
    u: int,
    order: Seq<int>,
    k: int,
)
    requires
        done.len() == alloc.len(),
        0 <= u < done.len(),
        !done[u],
        forall|i: int|
            0 <= i < done.len() ==> #[trigger] done[i] || !can_finish(
                row_of(need, i),
                work_of(avail, alloc, done),
            ),
        0 <= k <= order.len(),
        forall|m: int| 0 <= m < k ==> done[#[trigger] order[m]],
    ensures
        !is_safe_order(avail, alloc, need, order),
    decreases order.len() - k,
{
    let n = alloc.len();
    if !is_safe_order(avail, alloc, need, order) {
    } else if k == order.len() {
        assert(order.contains(u));
        let m = choose|m: int| 0 <= m < order.len() && order[m] == u;
        assert(done[order[m]]);
    } else if !done[order[k]] {
        let fb = finished_before(order, k, n);
        assert forall|i: int| 0 <= i < n && #[trigger] fb[i] implies done[i] by {
            assert(order.take(k).contains(i));
            let m = choose|m: int| 0 <= m < k && order.take(k)[m] == i;
            assert(order[m] == i);
        }
        let w1 = work_of(avail, alloc, fb);
        let w2 = work_of(avail, alloc, done);
        assert forall|j: int| 0 <= j < avail.len() implies w1[j] <= w2[j] by {
            lemma_released_mono(alloc, fb, done, j, n);
        }
        let v = order[k];
        assert(can_finish(row_of(need, v), w1));
        assert(can_finish(row_of(need, v), w2));
        assert(done[v] || !can_finish(row_of(need, v), w2));
    } else {
        lemma_stuck_is_unsafe(avail, alloc, need, done, u, order, k + 1);
    }
}

/// The banker's safety check: repeatedly let every unfinished thread whose need fits
/// into the available work finish and give back what it holds, until a pass makes
/// no progress; the state is safe when every thread finished.
pub fn safety_check(avail: &Vec<usize>, alloc: &Vec<Vec<usize>>, need: &Vec<Vec<usize>>) -> (r: bool)
    requires
        totals_fit(avail@, rows(alloc@)),
    ensures
        r == is_safe(avail@, rows(alloc@), rows(need@)),
{
    let ghost av = avail@;
    let ghost al = rows(alloc@);
    let ghost ne = rows(need@);
    let n = alloc.len();
    let mut work: Vec<usize> = Vec::new();
    let mut j: usize = 0;
    while j < avail.len()
        invariant
            j <= avail.len(),
            work@ == avail@.take(j as int),
        decreases avail.len() - j,
    {
        work.push(avail[j]);
        j = j + 1;
        proof {
            assert(avail@.take(j as int) =~= avail@.take(j - 1).push(avail@[j - 1]));
        }
    }
    proof {
        assert(avail@.take(avail.len() as int) =~= avail@);
    }
    let mut finish: Vec<bool> = Vec::new();
    let mut i: usize = 0;
    while i < n
        invariant
            i <= n,
            finish@ == Seq::new(i as nat, |x: int| false),
        decreases n - i,
    {
        finish.push(false);
        i = i + 1;
        proof {
            assert(finish@ =~= Seq::new(i as nat, |x: int| false));
        }
    }
    let ghost mut order: Seq<int> = Seq::empty();
    let mut count: usize = 0;
    proof {
        assert(finish@ =~= finished_before(order, 0, n as nat));
        assert forall|jj: int| 0 <= jj < work@.len() implies work@[jj] == work_of(av, al, finish@)[jj] by {
            assert(released(al, finish@, jj, n as nat) == 0) by {
                lemma_released_mono(al, finish@, Seq::new(n as nat, |x: int| false), jj, n as nat);
                lemma_released_nonneg(al, finish@, jj, n as nat);
                lemma_released_zero(al, jj, n as nat);
            }
        }
    }
    loop
        invariant_except_break
            n == alloc.len(),
            av == avail@,
            al == rows(alloc@),
            ne == rows(need@),
            totals_fit(av, al),
            finish@.len() == n,
            work@.len() == av.len(),
            forall|jj: int| 0 <= jj < av.len() ==> #[trigger] work@[jj] == work_of(av, al, finish@)[jj],
            finish@ == finished_before(order, order.len() as int, n as nat),
            order.len() == count,
            count <= n,
            order.no_duplicates(),
            forall|k: int| 0 <= k < order.len() ==> 0 <= #[trigger] order[k] < n,
            forall|k: int|
                0 <= k < order.len() ==> can_finish(
                    row_of(ne, #[trigger] order[k]),
                    work_of(av, al, finished_before(order, k, n as nat)),
                ),
        ensures
            n == alloc.len(),
            finish@.len() == n,
            finish@ == finished_before(order, order.len() as int, n as nat),
            order.no_duplicates(),
            forall|k: int| 0 <= k < order.len() ==> 0 <= #[trigger] order[k] < n,
            forall|k: int|
                0 <= k < order.len() ==> can_finish(
                    row_of(ne, #[trigger] order[k]),
                    work_of(av, al, finished_before(order, k, n as nat)),
                ),
            forall|x: int|
                0 <= x < n ==> #[trigger] finish@[x] || !can_finish(
                    row_of(ne, x),
                    work_of(av, al, finish@),
                ),
        decreases n - count,
    {
        let mut progress = false;
        let ghost work0 = work@;
        let ghost count0 = count;
        let mut i: usize = 0;
        while i < n
            invariant
                n == alloc.len(),
                av == avail@,
                al == rows(alloc@),
                ne == rows(need@),
                totals_fit(av, al),
                i <= n,
                finish@.len() == n,
                work@.len() == av.len(),
                forall|jj: int| 0 <= jj < av.len() ==> #[trigger] work@[jj] == work_of(av, al, finish@)[jj],
                finish@ == finished_before(order, order.len() as int, n as nat),
                order.len() == count,
                count <= n,
                count0 <= count,
                progress <==> count0 < count,
                !progress ==> work@ == work0,
                !progress ==> forall|x: int|
                    0 <= x < i ==> #[trigger] finish@[x] || !can_finish(
                        row_of(ne, x),
                        as_ints(work@),
                    ),
                order.no_duplicates(),
                forall|k: int| 0 <= k < order.len() ==> 0 <= #[trigger] order[k] < n,
                forall|k: int|
                    0 <= k < order.len() ==> can_finish(
                        row_of(ne, #[trigger] order[k]),
                        work_of(av, al, finished_before(order, k, n as nat)),
                    ),
            decreases n - i,
        {
            if !finish[i] {
                let fits = if i < need.len() {
                    row_fits(&need[i], &work)
                } else {
                    true
                };
                proof {
                    assert(as_ints(work@) =~= work_of(av, al, finish@));
                }
                if fits {
                    proof {
                        assert forall|jj: int| 0 <= jj < work@.len() implies work@[jj] + cell(alloc@[i as int]@, jj) <= usize::MAX by {
                            lemma_released_mark(al, finish@, i as int, jj, n as nat);
                            lemma_released_mono(al, finish@.update(i as int, true), all_done(n as nat), jj, n as nat);
                        }
                    }
                    let ghost f0 = finish@;
                    let ghost o0 = order;
                    give_back(&mut work, &alloc[i]);
                    finish[i] = true;
                    proof {
                        assert(o0.take(o0.len() as int) =~= o0);
                        assert(!o0.contains(i as int));
                        lemma_missing_bound(o0, n as nat, i as int);
                        order = order.push(i as int);
                        assert forall|jj: int| 0 <= jj < av.len() implies #[trigger] work@[jj] == work_of(av, al, finish@)[jj] by {
                            lemma_released_mark(al, f0, i as int, jj, n as nat);
                        }
                        assert(finish@ =~= finished_before(order, order.len() as int, n as nat)) by {
                            assert forall|x: int| 0 <= x < n implies finish@[x] == order.contains(x) by {
                                assert(f0[x] == o0.contains(x));
                                if x == i {
                                    assert(order[order.len() - 1] == x);
                                } else if o0.contains(x) {
                                    let m = choose|m: int| 0 <= m < o0.len() && o0[m] == x;
                                    assert(order[m] == x);
                                } else {
                                    if order.contains(x) {
                                        let m = choose|m: int| 0 <= m < order.len() && order[m] == x;
                                        assert(m < o0.len());
                                        assert(o0[m] == x);
                                    }
                                }
                            }
                            assert(order.take(order.len() as int) =~= order);
                            assert(o0.take(o0.len() as int) =~= o0);
                        }
                        assert(!o0.contains(i as int)) by {
                            assert(o0.take(o0.len() as int) =~= o0);
                        }
                        assert forall|k: int|
                            0 <= k < order.len() implies can_finish(
                                row_of(ne, #[trigger] order[k]),
                                work_of(av, al, finished_before(order, k, n as nat)),
                            ) by {
                            assert(order.take(k) =~= o0.take(k));
                            if k == o0.len() {
                                assert(o0.take(k) =~= o0);
                                assert(finished_before(o0, k, n as nat) =~= f0);
                            }
                        }
                    }
                    progress = true;
                    count = count + 1;
                }
            }
            i = i + 1;
        }
        if !progress {
            proof {
                assert(as_ints(work@) =~= work_of(av, al, finish@));
            }
            break;
        }
    }
    let mut all = true;
    let mut x: usize = 0;
    while x < n
        invariant
            x <= n,
            finish@.len() == n,
            all <==> forall|y: int| 0 <= y < x ==> #[trigger] finish@[y],
        decreases n - x,
    {
        if !finish[x] {
            all = false;
        }
        x = x + 1;
    }
    proof {
        if all {
            assert forall|y: int| 0 <= y < n implies #[trigger] order.contains(y) by {
                assert(finish@[y]);
                assert(order.take(order.len() as int) =~= order);
            }
            assert(is_safe_order(av, al, ne, order));
        } else {
            let u = choose|y: int| 0 <= y < n && !finish@[y];
            assert forall|o: Seq<int>| !is_safe_order(av, al, ne, o) by {
                lemma_stuck_is_unsafe(av, al, ne, finish@, u, o, 0);
            }
        }
    }
    all
}

/// A sequence without duplicates that lies in `0..n` and misses one member of it is
/// shorter than `n`.
proof fn lemma_missing_bound(order: Seq<int>, n: nat, i: int)
    requires
        order.no_duplicates(),
        forall|k: int| 0 <= k < order.len() ==> 0 <= #[trigger] order[k] < n,
        0 <= i < n,
        !order.contains(i),
    ensures
        order.len() < n,
{
    order.unique_seq_to_set();
    let s = vstd::set_lib::set_int_range(0, n as int).remove(i);
    vstd::set_lib::lemma_int_range(0, n as int);
    assert forall|x: int| order.to_set().contains(x) implies s.contains(x) by {
        let m = choose|m: int| 0 <= m < order.len() && order[m] == x;
    }
    vstd::set_lib::lemma_len_subset(order.to_set(), s);
}

proof fn lemma_released_zero(alloc: Seq<Seq<usize>>, j: int, n: nat)
    ensures
        released(alloc, Seq::new(n, |x: int| false), j, n) == 0,
{
    lemma_released_zero_prefix(alloc, Seq::new(n, |x: int| false), j, n);
}

proof fn lemma_released_zero_prefix(alloc: Seq<Seq<usize>>, done: Seq<bool>, j: int, n: nat)
    requires
        n <= done.len(),
        forall|i: int| 0 <= i < n ==> !#[trigger] done[i],
    ensures
        released(alloc, done, j, n) == 0,
    decreases n,
{
    if n > 0 {
        lemma_released_zero_prefix(alloc, done, j, (n - 1) as nat);
    }
}


/// A matrix cut to `n` rows, or extended to `n` rows by empty ones.
pub open spec fn resized(m: Seq<Seq<usize>>, n: nat) -> Seq<Seq<usize>> {
    if n <= m.len() {
        m.take(n as int)
    } else {
        m + Seq::new((n - m.len()) as nat, |i: int| Seq::<usize>::empty())
    }
}

/// A row extended by zeros to at least `cols` entries.
pub open spec fn padded(row: Seq<usize>, cols: nat) -> Seq<usize> {
    if row.len() < cols {
        row + Seq::new((cols - row.len()) as nat, |i: int| 0usize)
    } else {
        row
    }
}

/// Row `i` of a matrix with entry `j` replaced.
pub open spec fn with_cell(m: Seq<Seq<usize>>, i: int, j: int, v: usize) -> Seq<Seq<usize>> {
    m.update(i, m[i].update(j, v))
}

/// A copy of a row.
pub fn copy_row(row: &Vec<usize>) -> (r: Vec<usize>)
    ensures
        r@ == row@,
{
    let mut r: Vec<usize> = Vec::new();
    let mut j: usize = 0;
    while j < row.len()
        invariant
            j <= row.len(),
            r@ == row@.take(j as int),
        decreases row.len() - j,
    {
        r.push(row[j]);
        j = j + 1;
        proof {
            assert(row@.take(j as int) =~= row@.take(j - 1).push(row@[j - 1]));
        }
    }
    proof {
        assert(row@.take(row.len() as int) =~= row@);
    }
    r
}

/// Extend row `i` of a matrix by zeros to at least `cols` entries.
pub fn pad_row(m: &mut Vec<Vec<usize>>, i: usize, cols: usize)
    requires
        i < old(m)@.len(),
    ensures
        rows(final(m)@) == rows(old(m)@).update(i as int, padded(old(m)@[i as int]@, cols as nat)),
{
    let mut row = copy_row(&m[i]);
    let ghost r0 = row@;
    while row.len() < cols
        invariant
            row@.len() >= r0.len(),
            row@.len() <= if r0.len() >= cols { r0.len() } else { cols as nat },
            row@ == r0 + Seq::new((row@.len() - r0.len()) as nat, |k: int| 0usize),
        decreases cols - row.len(),
    {
        row.push(0);
        proof {
            assert(row@ =~= r0 + Seq::new((row@.len() - r0.len()) as nat, |k: int| 0usize));
        }
    }
    proof {
        if r0.len() >= cols {
            assert(row@ =~= r0);
        }
    }
    let ghost r1 = row@;
    m.set(i, row);
    proof {
        assert(r1 =~= padded(r0, cols as nat));
        assert forall|k: int| 0 <= k < m@.len() implies #[trigger] rows(m@)[k] == rows(old(m)@).update(i as int, padded(old(m)@[i as int]@, cols as nat))[k] by {
            if k == i {
                assert(m@[k]@ == r1);
            } else {
                assert(m@[k] == old(m)@[k]);
            }
        }
        assert(rows(m@) =~= rows(old(m)@).update(i as int, padded(old(m)@[i as int]@, cols as nat)));
    }
}

/// Cut a matrix to `n` rows, or extend it to `n` rows by empty ones.
pub fn resize_rows(m: &mut Vec<Vec<usize>>, n: usize)
    ensures
        rows(final(m)@) == resized(rows(old(m)@), n as nat),
{
    let ghost m0 = m@;
    if n <= m.len() {
        m.truncate(n);
        proof {
            assert forall|k: int| 0 <= k < n implies #[trigger] rows(m@)[k] == resized(rows(m0), n as nat)[k] by {
                assert(m@[k] == m0[k]);
            }
            assert(rows(m@) =~= resized(rows(m0), n as nat));
        }
    } else {
        while m.len() < n
            invariant
                m@.len() >= m0.len(),
                m@.len() <= n,
                forall|k: int| 0 <= k < m0.len() ==> #[trigger] m@[k] == m0[k],
                forall|k: int| m0.len() <= k < m@.len() ==> (#[trigger] m@[k])@ == Seq::<usize>::empty(),
            decreases n - m.len(),
        {
            let e: Vec<usize> = Vec::new();
            m.push(e);
        }
        proof {
            assert forall|k: int| 0 <= k < n implies #[trigger] rows(m@)[k] == resized(rows(m0), n as nat)[k] by {
                if k < m0.len() {
                    assert(m@[k] == m0[k]);
                } else {
                    assert(m@[k]@ == Seq::<usize>::empty());
                }
            }
            assert(rows(m@) =~= resized(rows(m0), n as nat));
        }
    }
}

/// Replace entry `j` of row `i` of a matrix.
pub fn set_cell(m: &mut Vec<Vec<usize>>, i: usize, j: usize, v: usize)
    requires
        i < old(m)@.len(),
        j < old(m)@[i as int]@.len(),
    ensures
        rows(final(m)@) == with_cell(rows(old(m)@), i as int, j as int, v),
{
    let mut row = copy_row(&m[i]);
    row.set(j, v);
    let ghost r1 = row@;
    m.set(i, row);
    proof {
        assert forall|k: int| 0 <= k < m@.len() implies #[trigger] rows(m@)[k] == with_cell(rows(old(m)@), i as int, j as int, v)[k] by {
            if k == i {
                assert(m@[k]@ == r1);
            } else {
                assert(m@[k] == old(m)@[k]);
            }
        }
        assert(rows(m@) =~= with_cell(rows(old(m)@), i as int, j as int, v));
    }
}

} // verus!
