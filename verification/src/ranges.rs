//! Byte ranges, and how nearby ones are joined into the ranges that are fetched.
use core::ops::Range;
use vstd::prelude::*;

verus! {

/// No range ends before it starts.
pub open spec fn well_formed(ranges: Seq<Range<u64>>) -> bool {
    forall|i: int| 0 <= i < ranges.len() ==> (#[trigger] ranges[i]).start <= ranges[i].end
}

/// `inner` lies within `outer`.
pub open spec fn within(inner: Range<u64>, outer: Range<u64>) -> bool {
    outer.start <= inner.start && inner.end <= outer.end
}

/// More than `gap` bytes lie between `a` and `b`.
pub open spec fn apart(a: Range<u64>, b: Range<u64>, gap: u64) -> bool {
    a.end + gap < b.start || b.end + gap < a.start
}

/// `reach` lies within `span`, starts no more than `gap` bytes behind `edge` and goes on past it.
pub open spec fn bridges(reach: Range<u64>, span: Range<u64>, edge: int, gap: u64) -> bool {
    within(reach, span) && reach.start <= edge + gap && edge < reach.end
}

/// `span` joins neighbours among `ranges`: it starts where one of them starts and ends where one
/// of them ends, the ranges outside are more than `gap` bytes away, and those inside follow one
/// another with no more than `gap` bytes between.
#[verifier::opaque]
pub open spec fn joins(ranges: Seq<Range<u64>>, gap: u64, span: Range<u64>) -> bool {
    &&& exists|i: int|
        0 <= i < ranges.len() && #[trigger] within(ranges[i], span) && ranges[i].start == span.start
    &&& exists|i: int|
        0 <= i < ranges.len() && #[trigger] within(ranges[i], span) && ranges[i].end == span.end
    &&& forall|i: int|
        0 <= i < ranges.len() ==> #[trigger] within(ranges[i], span) || apart(ranges[i], span, gap)
    &&& forall|i: int|
        0 <= i < ranges.len() && #[trigger] within(ranges[i], span) && span.start <= ranges[i].end
            < span.end ==> exists|k: int|
            0 <= k < ranges.len() && #[trigger] bridges(
                ranges[k],
                span,
                ranges[i].end as int,
                gap,
            )
}

/// `plan` has a member number `j`.
pub open spec fn has_member(plan: Seq<Range<u64>>, j: int) -> bool {
    0 <= j < plan.len()
}

/// Some member of `plan` holds `range`.
pub open spec fn holds(plan: Seq<Range<u64>>, range: Range<u64>) -> bool {
    exists|j: int| 0 <= j < plan.len() && #[trigger] within(range, plan[j])
}

/// `plan` is what is fetched to serve `ranges`: joined ranges in ascending order, more than `gap`
/// bytes from one to the next, that hold every requested range between them.
///
/// Where no range ends before it starts, there is exactly one.
pub open spec fn is_plan(ranges: Seq<Range<u64>>, gap: u64, plan: Seq<Range<u64>>) -> bool {
    &&& forall|j: int| 0 <= j < plan.len() ==> joins(ranges, gap, #[trigger] plan[j])
    &&& forall|j: int, k: int|
        0 <= j < k < plan.len() ==> (#[trigger] plan[j]).end + gap < (#[trigger] plan[k]).start
    &&& forall|i: int| 0 <= i < ranges.len() ==> #[trigger] holds(plan, ranges[i])
}

/// The plan for `ranges`.
pub open spec fn fetch_plan(ranges: Seq<Range<u64>>, gap: u64) -> Seq<Range<u64>> {
    choose|plan: Seq<Range<u64>>| is_plan(ranges, gap, plan)
}

/// The bytes of `object` from `start` up to `end`, as far as it has them.
pub open spec fn clip(object: Seq<u8>, start: int, end: int) -> Seq<u8> {
    let stop = if end < object.len() {
        end
    } else {
        object.len() as int
    };
    if start < stop {
        object.subrange(start, stop)
    } else {
        Seq::empty()
    }
}

/// What a read of `range` gives of `object`.
pub open spec fn read(object: Seq<u8>, range: Range<u64>) -> Seq<u8> {
    clip(object, range.start as int, range.end as int)
}

/// The part of `fetched`, the bytes read for `span`, that belongs to `range`.
pub open spec fn cut(fetched: Seq<u8>, span: Range<u64>, range: Range<u64>) -> Seq<u8> {
    clip(fetched, range.start - span.start, range.end - span.start)
}

/// A joined range starts where some requested range within it starts.
proof fn lemma_joined_start(ranges: Seq<Range<u64>>, gap: u64, span: Range<u64>) -> (i: int)
    requires
        well_formed(ranges),
        joins(ranges, gap, span),
    ensures
        0 <= i < ranges.len(),
        within(ranges[i], span),
        ranges[i].start == span.start,
        span.start <= span.end,
{
    reveal(joins);
    choose|i: int|
        0 <= i < ranges.len() && #[trigger] within(ranges[i], span) && ranges[i].start == span.start
}

/// A requested range lies within a joined range or more than `gap` bytes away.
proof fn lemma_within_or_apart(ranges: Seq<Range<u64>>, gap: u64, span: Range<u64>, i: int)
    requires
        joins(ranges, gap, span),
        0 <= i < ranges.len(),
    ensures
        within(ranges[i], span) || apart(ranges[i], span, gap),
{
    reveal(joins);
}

/// From any point inside a joined range some requested range leads past it that starts no more
/// than `gap` bytes behind.
proof fn lemma_bridge(ranges: Seq<Range<u64>>, gap: u64, span: Range<u64>, edge: int) -> (k: int)
    requires
        well_formed(ranges),
        joins(ranges, gap, span),
        span.start <= edge < span.end,
    ensures
        0 <= k < ranges.len(),
        bridges(ranges[k], span, edge, gap),
{
    let first = lemma_joined_start(ranges, gap, span);
    lemma_bridge_from(ranges, gap, span, edge, first)
}

proof fn lemma_bridge_from(
    ranges: Seq<Range<u64>>,
    gap: u64,
    span: Range<u64>,
    edge: int,
    from: int,
) -> (k: int)
    requires
        well_formed(ranges),
        joins(ranges, gap, span),
        edge < span.end,
        0 <= from < ranges.len(),
        within(ranges[from], span),
        ranges[from].start <= edge + gap,
    ensures
        0 <= k < ranges.len(),
        bridges(ranges[k], span, edge, gap),
    decreases span.end - ranges[from].end,
{
    if edge < ranges[from].end {
        from
    } else {
        reveal(joins);
        let next = choose|k: int|
            0 <= k < ranges.len() && #[trigger] bridges(
                ranges[k],
                span,
                ranges[from].end as int,
                gap,
            );
        lemma_bridge_from(ranges, gap, span, edge, next)
    }
}

/// Two joined ranges that hold one and the same requested range are the same.
proof fn lemma_joined_range_is_unique(
    ranges: Seq<Range<u64>>,
    gap: u64,
    a: Range<u64>,
    b: Range<u64>,
    i: int,
)
    requires
        well_formed(ranges),
        joins(ranges, gap, a),
        joins(ranges, gap, b),
        0 <= i < ranges.len(),
        within(ranges[i], a),
        within(ranges[i], b),
    ensures
        a == b,
{
    lemma_joined_range_reaches(ranges, gap, a, b, i);
    lemma_joined_range_reaches(ranges, gap, b, a, i);
}

proof fn lemma_joined_range_reaches(
    ranges: Seq<Range<u64>>,
    gap: u64,
    a: Range<u64>,
    b: Range<u64>,
    i: int,
)
    requires
        well_formed(ranges),
        joins(ranges, gap, a),
        joins(ranges, gap, b),
        0 <= i < ranges.len(),
        within(ranges[i], a),
        within(ranges[i], b),
    ensures
        b.start <= a.start,
        a.end <= b.end,
{
    if b.end < a.end {
        let k = lemma_bridge(ranges, gap, a, b.end as int);
        lemma_within_or_apart(ranges, gap, b, k);
    }
    if a.start < b.start {
        let first = lemma_joined_start(ranges, gap, a);
        lemma_within_or_apart(ranges, gap, b, first);
        let k = lemma_bridge(ranges, gap, a, b.start - gap - 1);
        lemma_within_or_apart(ranges, gap, b, k);
    }
}

/// What is cut for a requested range out of a read of the range that holds it is what a read of
/// the requested range alone gives.
pub proof fn law_cut_gives_back_the_requested_bytes(
    object: Seq<u8>,
    span: Range<u64>,
    range: Range<u64>,
)
    requires
        within(range, span),
        range.start <= range.end,
    ensures
        cut(read(object, span), span, range) == read(object, range),
{
    assert(cut(read(object, span), span, range) =~= read(object, range));
}

/// Requested ranges with no more than `gap` bytes between them are served by one and the same
/// fetch.
pub proof fn law_neighbours_share_a_fetch(
    ranges: Seq<Range<u64>>,
    gap: u64,
    plan: Seq<Range<u64>>,
    i: int,
    k: int,
)
    requires
        well_formed(ranges),
        is_plan(ranges, gap, plan),
        0 <= i < ranges.len(),
        0 <= k < ranges.len(),
        !apart(ranges[i], ranges[k], gap),
    ensures
        exists|j: int|
            0 <= j < plan.len() && #[trigger] within(ranges[i], plan[j]) && within(
                ranges[k],
                plan[j],
            ),
{
    assert(holds(plan, ranges[i]) && holds(plan, ranges[k]));
    let a = choose|j: int| 0 <= j < plan.len() && #[trigger] within(ranges[i], plan[j]);
    let b = choose|j: int| 0 <= j < plan.len() && #[trigger] within(ranges[k], plan[j]);
    if a < b {
        assert(plan[a].end + gap < plan[b].start);
    } else if b < a {
        assert(plan[b].end + gap < plan[a].start);
    }
}

/// A requested range is served by one fetch only.
pub proof fn law_each_range_has_one_fetch(
    ranges: Seq<Range<u64>>,
    gap: u64,
    plan: Seq<Range<u64>>,
    i: int,
    j: int,
    k: int,
)
    requires
        well_formed(ranges),
        is_plan(ranges, gap, plan),
        0 <= i < ranges.len(),
        0 <= j < plan.len(),
        0 <= k < plan.len(),
        within(ranges[i], plan[j]),
        within(ranges[i], plan[k]),
    ensures
        j == k,
{
    if j < k {
        assert(plan[j].end + gap < plan[k].start);
    } else if k < j {
        assert(plan[k].end + gap < plan[j].start);
    }
}

/// The requested ranges and the gap leave no choice in what is fetched.
pub proof fn law_plan_is_unique(
    ranges: Seq<Range<u64>>,
    gap: u64,
    a: Seq<Range<u64>>,
    b: Seq<Range<u64>>,
)
    requires
        well_formed(ranges),
        is_plan(ranges, gap, a),
        is_plan(ranges, gap, b),
    ensures
        a == b,
{
    lemma_plan_is_prefix(ranges, gap, a, b, a.len() as int);
    lemma_plan_is_prefix(ranges, gap, b, a, b.len() as int);
    assert(a =~= b);
}

/// A joined range of plan `a` also stands in plan `b`.
proof fn lemma_planned_in_both(
    ranges: Seq<Range<u64>>,
    gap: u64,
    a: Seq<Range<u64>>,
    b: Seq<Range<u64>>,
    j: int,
) -> (k: int)
    requires
        well_formed(ranges),
        is_plan(ranges, gap, a),
        is_plan(ranges, gap, b),
        0 <= j < a.len(),
    ensures
        0 <= k < b.len(),
        b[k] == a[j],
{
    let i = lemma_joined_start(ranges, gap, a[j]);
    assert(holds(b, ranges[i]));
    let k = choose|k: int| 0 <= k < b.len() && #[trigger] within(ranges[i], b[k]);
    lemma_joined_range_is_unique(ranges, gap, a[j], b[k], i);
    k
}

proof fn lemma_plan_is_prefix(
    ranges: Seq<Range<u64>>,
    gap: u64,
    a: Seq<Range<u64>>,
    b: Seq<Range<u64>>,
    n: int,
)
    requires
        well_formed(ranges),
        is_plan(ranges, gap, a),
        is_plan(ranges, gap, b),
        0 <= n <= a.len(),
    ensures
        n <= b.len(),
        forall|j: int| 0 <= j < n ==> a[j] == b[j],
    decreases n,
{
    if n > 0 {
        lemma_plan_is_prefix(ranges, gap, a, b, n - 1);
        let last = n - 1;
        // Where `b` has the last of these: not before, for the earlier ones are taken.
        let k = lemma_planned_in_both(ranges, gap, a, b, last);
        lemma_joined_start(ranges, gap, a[last]);
        if k < last {
            assert(a[k] == b[k]);
            assert(a[k].end + gap < a[last].start);
        }
        // And not later: what `b` has here would have to stand in `a` between its neighbours.
        if last < k {
            assert(b[last].end + gap < b[k].start);
            lemma_joined_start(ranges, gap, b[last]);
            let l = lemma_planned_in_both(ranges, gap, b, a, last);
            if l < last {
                assert(a[l] == b[l]);
                assert(b[l].end + gap < b[last].start);
            } else if last < l {
                assert(a[last].end + gap < a[l].start);
            }
        }
    }
}

/// What is called the plan is a plan, and the only one.
pub proof fn law_fetch_plan_is_the_plan(
    ranges: Seq<Range<u64>>,
    gap: u64,
    plan: Seq<Range<u64>>,
)
    requires
        well_formed(ranges),
    ensures
        is_plan(ranges, gap, fetch_plan(ranges, gap)),
        is_plan(ranges, gap, plan) <==> plan == fetch_plan(ranges, gap),
{
    law_plan_exists(ranges, gap);
    if is_plan(ranges, gap, plan) {
        law_plan_is_unique(ranges, gap, plan, fetch_plan(ranges, gap));
    }
}

/// How many members of `plan`, from the first on, end more than `gap` bytes before `point`.
proof fn lemma_members_before(plan: Seq<Range<u64>>, gap: u64, point: int, n: int) -> (k: int)
    requires
        0 <= n <= plan.len(),
        forall|j: int, l: int|
            0 <= j < l < plan.len() ==> (#[trigger] plan[j]).end < (#[trigger] plan[l]).end,
        forall|j: int| n <= j < plan.len() ==> (#[trigger] plan[j]).end + gap >= point,
    ensures
        0 <= k <= n,
        forall|j: int| 0 <= j < k ==> (#[trigger] plan[j]).end + gap < point,
        forall|j: int| k <= j < plan.len() ==> (#[trigger] plan[j]).end + gap >= point,
    decreases n,
{
    if n == 0 || plan[n - 1].end + gap < point {
        n
    } else {
        lemma_members_before(plan, gap, point, n - 1)
    }
}

/// How many members of `plan`, from the first on, start no more than `gap` bytes behind `point`.
proof fn lemma_members_up_to(plan: Seq<Range<u64>>, gap: u64, point: int, n: int) -> (k: int)
    requires
        0 <= n <= plan.len(),
        forall|j: int, l: int|
            0 <= j < l < plan.len() ==> (#[trigger] plan[j]).start < (#[trigger] plan[l]).start,
        forall|j: int| n <= j < plan.len() ==> point + gap < (#[trigger] plan[j]).start,
    ensures
        0 <= k <= n,
        forall|j: int| 0 <= j < k ==> (#[trigger] plan[j]).start <= point + gap,
        forall|j: int| k <= j < plan.len() ==> point + gap < (#[trigger] plan[j]).start,
    decreases n,
{
    if n == 0 || plan[n - 1].start <= point + gap {
        n
    } else {
        lemma_members_up_to(plan, gap, point, n - 1)
    }
}

/// A further range that is more than `gap` bytes away leaves a joined range as it is.
proof fn lemma_joins_beside(
    ranges: Seq<Range<u64>>,
    gap: u64,
    span: Range<u64>,
    range: Range<u64>,
)
    requires
        well_formed(ranges),
        range.start <= range.end,
        joins(ranges, gap, span),
        apart(range, span, gap),
    ensures
        joins(ranges.push(range), gap, span),
{
    reveal(joins);
    let more = ranges.push(range);
    let first = lemma_joined_start(ranges, gap, span);
    assert(within(more[first], span));
    let last = choose|i: int|
        0 <= i < ranges.len() && #[trigger] within(ranges[i], span) && ranges[i].end == span.end;
    assert(within(more[last], span));
    assert forall|i: int| 0 <= i < more.len() implies #[trigger] within(more[i], span) || apart(
        more[i],
        span,
        gap,
    ) by {
        if i < ranges.len() {
            lemma_within_or_apart(ranges, gap, span, i);
        }
    }
    assert forall|i: int|
        0 <= i < more.len() && #[trigger] within(more[i], span) && span.start <= more[i].end
            < span.end implies exists|k: int|
        0 <= k < more.len() && #[trigger] bridges(more[k], span, more[i].end as int, gap) by {
        assert(i < ranges.len());
        assert(within(ranges[i], span));
        let k = choose|k: int|
            0 <= k < ranges.len() && #[trigger] bridges(
                ranges[k],
                span,
                ranges[i].end as int,
                gap,
            );
        assert(bridges(more[k], span, more[i].end as int, gap));
    }
}

/// The range that a further one makes of the members `from..to` of a plan, which are those that
/// are no more than `gap` bytes away from it.
spec fn widened(plan: Seq<Range<u64>>, from: int, to: int, range: Range<u64>) -> Range<u64> {
    if from < to {
        Range {
            start: if plan[from].start < range.start {
                plan[from].start
            } else {
                range.start
            },
            end: if range.end < plan[to - 1].end {
                plan[to - 1].end
            } else {
                range.end
            },
        }
    } else {
        range
    }
}

/// `from..to` are the members of the plan for `ranges` that lie no more than `gap` bytes away
/// from `range`.
spec fn touches(
    ranges: Seq<Range<u64>>,
    gap: u64,
    plan: Seq<Range<u64>>,
    range: Range<u64>,
    from: int,
    to: int,
) -> bool {
    &&& well_formed(ranges)
    &&& range.start <= range.end
    &&& is_plan(ranges, gap, plan)
    &&& 0 <= from <= to <= plan.len()
    &&& forall|j: int| 0 <= j < plan.len() ==> (#[trigger] plan[j]).start <= plan[j].end
    &&& forall|j: int| 0 <= j < from ==> (#[trigger] plan[j]).end + gap < range.start
    &&& forall|j: int| from <= j < plan.len() ==> range.start <= (#[trigger] plan[j]).end + gap
    &&& forall|j: int| 0 <= j < to ==> (#[trigger] plan[j]).start <= range.end + gap
    &&& forall|j: int| to <= j < plan.len() ==> range.end + gap < (#[trigger] plan[j]).start
}

/// Where the requested range `i` lies with respect to the widened range.
proof fn lemma_widened_place(
    ranges: Seq<Range<u64>>,
    gap: u64,
    plan: Seq<Range<u64>>,
    range: Range<u64>,
    from: int,
    to: int,
    i: int,
) -> (j: int)
    requires
        touches(ranges, gap, plan, range, from, to),
        0 <= i < ranges.len(),
    ensures
        0 <= j < plan.len(),
        within(ranges[i], plan[j]),
        from <= j < to ==> within(plan[j], widened(plan, from, to, range)),
        from <= j < to ==> within(ranges[i], widened(plan, from, to, range)),
        !(from <= j < to) ==> apart(ranges[i], widened(plan, from, to, range), gap),
{
    assert(holds(plan, ranges[i]));
    let j = choose|j: int| 0 <= j < plan.len() && #[trigger] within(ranges[i], plan[j]);
    if from < to {
        assert(plan[from].start <= plan[from].end);
        if from < j {
            assert(plan[from].end + gap < plan[j].start);
        }
        if j < from {
            assert(plan[j].end + gap < plan[from].start);
        }
        if j < to - 1 {
            assert(plan[j].end + gap < plan[to - 1].start);
        }
        if to - 1 < j {
            assert(plan[to - 1].end + gap < plan[j].start);
        }
    }
    j
}

/// The widened range joins what it holds.
proof fn lemma_widened_joins(
    ranges: Seq<Range<u64>>,
    gap: u64,
    plan: Seq<Range<u64>>,
    range: Range<u64>,
    from: int,
    to: int,
)
    requires
        touches(ranges, gap, plan, range, from, to),
    ensures
        joins(ranges.push(range), gap, widened(plan, from, to, range)),
{
    let more = ranges.push(range);
    let span = widened(plan, from, to, range);
    let n = ranges.len() as int;
    assert(more[n] == range);
    if from < to - 1 {
        assert(plan[from].end + gap < plan[to - 1].start);
    }
    assert(within(more[n], span));
    assert(exists|i: int|
        0 <= i < more.len() && #[trigger] within(more[i], span) && more[i].start == span.start) by {
        if span.start != range.start {
            let i = lemma_joined_start(ranges, gap, plan[from]);
            assert(more[i] == ranges[i]);
            assert(within(more[i], span));
        }
    }
    assert(exists|i: int|
        0 <= i < more.len() && #[trigger] within(more[i], span) && more[i].end == span.end) by {
        if span.end != range.end {
            reveal(joins);
            assert(joins(ranges, gap, plan[to - 1]));
            let i = choose|i: int|
                0 <= i < ranges.len() && #[trigger] within(ranges[i], plan[to - 1])
                    && ranges[i].end == plan[to - 1].end;
            assert(more[i] == ranges[i]);
            assert(within(more[i], span));
        }
    }
    assert forall|i: int| 0 <= i < more.len() implies #[trigger] within(more[i], span) || apart(
        more[i],
        span,
        gap,
    ) by {
        if i < n {
            lemma_widened_place(ranges, gap, plan, range, from, to, i);
        }
    }
    assert forall|i: int|
        0 <= i < more.len() && #[trigger] within(more[i], span) && span.start <= more[i].end
            < span.end implies exists|k: int|
        0 <= k < more.len() && #[trigger] bridges(more[k], span, more[i].end as int, gap) by {
        let edge = more[i].end as int;
        if i == n {
            // The further range itself: the last member leads on.
            if plan[to - 1].start <= edge {
                let k = lemma_bridge(ranges, gap, plan[to - 1], edge);
                assert(bridges(more[k], span, edge, gap));
            } else {
                let k = lemma_joined_start(ranges, gap, plan[to - 1]);
                assert(bridges(more[k], span, edge, gap));
            }
        } else {
            let j = lemma_widened_place(ranges, gap, plan, range, from, to, i);
            if edge < plan[j].end {
                let k = lemma_bridge(ranges, gap, plan[j], edge);
                assert(bridges(more[k], span, edge, gap));
            } else {
                // At the end of a member it is the further range that leads on.
                if j < to - 1 {
                    assert(plan[j].end + gap < plan[j + 1].start);
                }
                assert(bridges(more[n], span, edge, gap));
            }
        }
    }
    reveal(joins);
}

/// Whatever is requested, there is a plan that serves it.
pub proof fn law_plan_exists(ranges: Seq<Range<u64>>, gap: u64) -> (plan: Seq<Range<u64>>)
    requires
        well_formed(ranges),
    ensures
        is_plan(ranges, gap, plan),
    decreases ranges.len(),
{
    if ranges.len() == 0 {
        Seq::empty()
    } else {
        let fewer = ranges.drop_last();
        let range = ranges.last();
        assert(ranges =~= fewer.push(range));
        assert(well_formed(fewer)) by {
            assert forall|i: int| 0 <= i < fewer.len() implies (#[trigger] fewer[i]).start
                <= fewer[i].end by {
                assert(ranges[i].start <= ranges[i].end);
            }
        }
        let old_plan = law_plan_exists(fewer, gap);
        assert forall|j: int| 0 <= j < old_plan.len() implies (#[trigger] old_plan[j]).start
            <= old_plan[j].end by {
            lemma_joined_start(fewer, gap, old_plan[j]);
        }
        let from = lemma_members_before(
            old_plan,
            gap,
            range.start as int,
            old_plan.len() as int,
        );
        let to = lemma_members_up_to(old_plan, gap, range.end as int, old_plan.len() as int);
        if to < from {
            assert(old_plan[to].end + gap < range.start);
        }
        assert(touches(fewer, gap, old_plan, range, from, to));
        lemma_plan_with(fewer, gap, old_plan, range, from, to)
    }
}

/// The plan that a further range makes of a plan.
proof fn lemma_plan_with(
    ranges: Seq<Range<u64>>,
    gap: u64,
    old_plan: Seq<Range<u64>>,
    range: Range<u64>,
    from: int,
    to: int,
) -> (plan: Seq<Range<u64>>)
    requires
        touches(ranges, gap, old_plan, range, from, to),
    ensures
        is_plan(ranges.push(range), gap, plan),
{
    let more = ranges.push(range);
    let span = widened(old_plan, from, to, range);
    let plan = old_plan.take(from).push(span) + old_plan.skip(to);
    let shift = to - from - 1;
    assert(forall|j: int| 0 <= j < from ==> plan[j] == old_plan[j]);
    assert(plan[from] == span);
    assert(forall|j: int| from < j < plan.len() ==> plan[j] == old_plan[j + shift]);
    lemma_widened_joins(ranges, gap, old_plan, range, from, to);
    if from < to - 1 {
        assert(old_plan[from].end + gap < old_plan[to - 1].start);
    }
    assert forall|j: int| 0 <= j < plan.len() implies joins(more, gap, #[trigger] plan[j]) by {
        if j < from {
            lemma_joins_beside(ranges, gap, old_plan[j], range);
        } else if from < j {
            lemma_joins_beside(ranges, gap, old_plan[j + shift], range);
        }
    }
    assert forall|j: int, k: int| 0 <= j < k < plan.len() implies (#[trigger] plan[j]).end + gap < (
    #[trigger] plan[k]).start by {
        let a = if j < from {
            j
        } else {
            j + shift
        };
        let b = if k < from {
            k
        } else {
            k + shift
        };
        if j == from {
            assert(range.end + gap < old_plan[b].start);
            if from < to {
                assert(old_plan[to - 1].end + gap < old_plan[b].start);
            }
        } else if k == from {
            assert(old_plan[a].end + gap < range.start);
            if from < to {
                assert(old_plan[a].end + gap < old_plan[from].start);
            }
        } else {
            assert(old_plan[a].end + gap < old_plan[b].start);
        }
    }
    assert forall|i: int| 0 <= i < more.len() implies #[trigger] holds(plan, more[i]) by {
        if i == ranges.len() {
            assert(within(more[i], plan[from]));
        } else {
            let j = lemma_widened_place(ranges, gap, old_plan, range, from, to, i);
            if j < from {
                assert(within(more[i], plan[j]));
            } else if j < to {
                assert(within(more[i], plan[from]));
            } else {
                assert(within(more[i], plan[j - shift]));
            }
        }
    }
    plan
}

/// A range of `a` has its place in `b` too, where both are made of the same ranges.
proof fn lemma_place_in_other(a: Seq<Range<u64>>, b: Seq<Range<u64>>, i: int) -> (k: int)
    requires
        a.to_set() == b.to_set(),
        0 <= i < a.len(),
    ensures
        0 <= k < b.len(),
        b[k] == a[i],
{
    assert(a.contains(a[i]));
    assert(a.to_set().contains(a[i]));
    assert(b.contains(a[i]));
    choose|k: int| 0 <= k < b.len() && b[k] == a[i]
}

/// The order of the ranges makes no difference to what joins them.
proof fn lemma_joins_in_any_order(
    a: Seq<Range<u64>>,
    b: Seq<Range<u64>>,
    gap: u64,
    span: Range<u64>,
)
    requires
        a.to_set() == b.to_set(),
        joins(a, gap, span),
    ensures
        joins(b, gap, span),
{
    reveal(joins);
    let first = choose|i: int|
        0 <= i < a.len() && #[trigger] within(a[i], span) && a[i].start == span.start;
    let k = lemma_place_in_other(a, b, first);
    assert(within(b[k], span));
    let last = choose|i: int|
        0 <= i < a.len() && #[trigger] within(a[i], span) && a[i].end == span.end;
    let k = lemma_place_in_other(a, b, last);
    assert(within(b[k], span));
    assert forall|i: int| 0 <= i < b.len() implies #[trigger] within(b[i], span) || apart(
        b[i],
        span,
        gap,
    ) by {
        let k = lemma_place_in_other(b, a, i);
        assert(within(a[k], span) || apart(a[k], span, gap));
    }
    assert forall|i: int|
        0 <= i < b.len() && #[trigger] within(b[i], span) && span.start <= b[i].end
            < span.end implies exists|k: int|
        0 <= k < b.len() && #[trigger] bridges(b[k], span, b[i].end as int, gap) by {
        let j = lemma_place_in_other(b, a, i);
        assert(within(a[j], span));
        let q = choose|q: int|
            0 <= q < a.len() && #[trigger] bridges(a[q], span, a[j].end as int, gap);
        let k = lemma_place_in_other(a, b, q);
        assert(bridges(b[k], span, b[i].end as int, gap));
    }
}

/// The order of the request makes no difference to what is fetched.
pub proof fn law_order_does_not_matter(
    ranges: Seq<Range<u64>>,
    reordered: Seq<Range<u64>>,
    gap: u64,
    plan: Seq<Range<u64>>,
)
    requires
        ranges.to_set() == reordered.to_set(),
        is_plan(ranges, gap, plan),
    ensures
        is_plan(reordered, gap, plan),
{
    assert forall|j: int| 0 <= j < plan.len() implies joins(reordered, gap, #[trigger] plan[j]) by {
        lemma_joins_in_any_order(ranges, reordered, gap, plan[j]);
    }
    assert forall|i: int| 0 <= i < reordered.len() implies #[trigger] holds(
        plan,
        reordered[i],
    ) by {
        let k = lemma_place_in_other(reordered, ranges, i);
        assert(holds(plan, ranges[k]));
    }
}

/// Where the requested ranges can be put in an order in which each lies no more than `gap` bytes
/// from the one before it, all of them are served by one fetch. It reaches from the least start
/// to the greatest end.
pub proof fn law_close_ranges_take_one_fetch(
    ranges: Seq<Range<u64>>,
    ordered: Seq<Range<u64>>,
    gap: u64,
    plan: Seq<Range<u64>>,
)
    requires
        well_formed(ranges),
        is_plan(ranges, gap, plan),
        ranges.len() > 0,
        ordered.to_set() == ranges.to_set(),
        forall|i: int|
            0 < i < ordered.len() ==> !apart(ordered[i - 1], #[trigger] ordered[i], gap),
    ensures
        plan.len() == 1,
        forall|i: int| 0 <= i < ranges.len() ==> within(#[trigger] ranges[i], plan[0]),
        exists|i: int| 0 <= i < ranges.len() && (#[trigger] ranges[i]).start == plan[0].start,
        exists|i: int| 0 <= i < ranges.len() && (#[trigger] ranges[i]).end == plan[0].end,
{
    law_order_does_not_matter(ranges, ordered, gap, plan);
    lemma_well_formed_in_any_order(ranges, ordered);
    lemma_place_in_other(ranges, ordered, 0);
    assert(holds(plan, ordered[0]));
    let j = choose|j: int| 0 <= j < plan.len() && #[trigger] within(ordered[0], plan[j]);
    assert forall|i: int| 0 <= i < ranges.len() implies within(#[trigger] ranges[i], plan[j]) by {
        let k = lemma_place_in_other(ranges, ordered, i);
        lemma_close_ranges(ordered, gap, plan, j, k);
    }
    if plan.len() > 1 {
        let k = if j == 0 {
            1
        } else {
            0int
        };
        let i = lemma_joined_start(ranges, gap, plan[k]);
        law_each_range_has_one_fetch(ranges, gap, plan, i, j, k);
    }
    assert(joins(ranges, gap, plan[0]));
    reveal(joins);
}

proof fn lemma_well_formed_in_any_order(a: Seq<Range<u64>>, b: Seq<Range<u64>>)
    requires
        a.to_set() == b.to_set(),
        well_formed(a),
    ensures
        well_formed(b),
{
    assert forall|i: int| 0 <= i < b.len() implies (#[trigger] b[i]).start <= b[i].end by {
        let k = lemma_place_in_other(b, a, i);
        assert(a[k].start <= a[k].end);
    }
}

proof fn lemma_close_ranges(
    ranges: Seq<Range<u64>>,
    gap: u64,
    plan: Seq<Range<u64>>,
    j: int,
    i: int,
)
    requires
        well_formed(ranges),
        is_plan(ranges, gap, plan),
        0 <= i < ranges.len(),
        0 <= j < plan.len(),
        within(ranges[0], plan[j]),
        forall|i: int|
            0 < i < ranges.len() ==> !apart(ranges[i - 1], #[trigger] ranges[i], gap),
    ensures
        within(ranges[i], plan[j]),
    decreases i,
{
    if i > 0 {
        lemma_close_ranges(ranges, gap, plan, j, i - 1);
        assert(!apart(ranges[i - 1], ranges[i], gap));
        law_neighbours_share_a_fetch(ranges, gap, plan, i - 1, i);
        let k = choose|k: int|
            0 <= k < plan.len() && #[trigger] within(ranges[i - 1], plan[k]) && within(
                ranges[i],
                plan[k],
            );
        law_each_range_has_one_fetch(ranges, gap, plan, i - 1, j, k);
    }
}

/// Ranges that can be put in an order in which they follow one another without a hole are fetched
/// as one, from the start of the first to the end of the last, whatever the gap and in whatever
/// order they are requested.
pub proof fn law_contiguous_ranges_are_fetched_as_one(
    ranges: Seq<Range<u64>>,
    ordered: Seq<Range<u64>>,
    gap: u64,
    plan: Seq<Range<u64>>,
)
    requires
        well_formed(ranges),
        is_plan(ranges, gap, plan),
        ranges.len() > 0,
        ordered.to_set() == ranges.to_set(),
        forall|i: int|
            0 < i < ordered.len() ==> ordered[i - 1].end == (#[trigger] ordered[i]).start,
    ensures
        plan == seq![Range { start: ordered[0].start, end: ordered.last().end }],
{
    lemma_well_formed_in_any_order(ranges, ordered);
    lemma_place_in_other(ranges, ordered, 0);
    assert forall|i: int| 0 < i < ordered.len() implies !apart(
        ordered[i - 1],
        #[trigger] ordered[i],
        gap,
    ) by {
        assert(ordered[i].start <= ordered[i].end);
        assert(ordered[i - 1].start <= ordered[i - 1].end);
    }
    law_close_ranges_take_one_fetch(ranges, ordered, gap, plan);
    assert forall|i: int| 0 <= i < ranges.len() implies ordered[0].start <= (
    #[trigger] ranges[i]).start && ranges[i].end <= ordered.last().end by {
        let k = lemma_place_in_other(ranges, ordered, i);
        lemma_contiguous(ordered, 0, k);
        lemma_contiguous(ordered, k, ordered.len() - 1);
    }
    let first = lemma_place_in_other(ordered, ranges, 0);
    let last = lemma_place_in_other(ordered, ranges, ordered.len() - 1);
    assert(within(ranges[first], plan[0]) && within(ranges[last], plan[0]));
    assert(plan =~= seq![Range { start: ordered[0].start, end: ordered.last().end }]);
}

proof fn lemma_contiguous(ranges: Seq<Range<u64>>, i: int, k: int)
    requires
        well_formed(ranges),
        0 <= i <= k < ranges.len(),
        forall|i: int| 0 < i < ranges.len() ==> ranges[i - 1].end == (#[trigger] ranges[i]).start,
    ensures
        ranges[i].start <= ranges[k].start,
        ranges[i].end <= ranges[k].end,
    decreases k - i,
{
    if i < k {
        lemma_contiguous(ranges, i, k - 1);
        assert(ranges[k - 1].end == ranges[k].start);
        assert(ranges[k].start <= ranges[k].end);
        assert(ranges[k - 1].start <= ranges[k - 1].end);
    }
}

/// Distinct numbers out of `0..bound` are no more than `bound`.
proof fn lemma_distinct_below(numbers: Seq<int>, bound: nat)
    requires
        numbers.no_duplicates(),
        forall|j: int| 0 <= j < numbers.len() ==> 0 <= #[trigger] numbers[j] < bound,
    ensures
        numbers.len() <= bound,
{
    numbers.unique_seq_to_set();
    vstd::set_lib::lemma_int_range(0, bound as int);
    assert(numbers.to_set().subset_of(vstd::set_lib::set_int_range(0, bound as int)));
    vstd::set_lib::lemma_len_subset(
        numbers.to_set(),
        vstd::set_lib::set_int_range(0, bound as int),
    );
}

/// There are never more fetches than requested ranges, and none where nothing is requested.
pub proof fn law_no_more_fetches_than_ranges(
    ranges: Seq<Range<u64>>,
    gap: u64,
    plan: Seq<Range<u64>>,
)
    requires
        well_formed(ranges),
        is_plan(ranges, gap, plan),
    ensures
        plan.len() <= ranges.len(),
        plan.len() == 0 <==> ranges.len() == 0,
{
    let starts = Seq::new(
        plan.len(),
        |j: int| choose|i: int| 0 <= i < ranges.len() && #[trigger] within(ranges[i], plan[j]),
    );
    assert forall|j: int| 0 <= j < plan.len() implies 0 <= #[trigger] starts[j] < ranges.len()
        && within(ranges[starts[j]], plan[j]) by {
        lemma_joined_start(ranges, gap, plan[j]);
    }
    assert forall|j: int, k: int|
        0 <= j < starts.len() && 0 <= k < starts.len() && j != k implies starts[j] != starts[k] by {
        if starts[j] == starts[k] {
            law_each_range_has_one_fetch(ranges, gap, plan, starts[j], j, k);
        }
    }
    lemma_distinct_below(starts, ranges.len());
    if ranges.len() > 0 {
        assert(holds(plan, ranges[0]));
    }
}

/// A wider gap only joins further: what is fetched with the narrower one lies within what is
/// fetched with the wider one, which takes no more fetches.
pub proof fn law_wider_gap_joins_further(
    ranges: Seq<Range<u64>>,
    gap: u64,
    wider_gap: u64,
)
    requires
        well_formed(ranges),
        gap <= wider_gap,
    ensures
        forall|j: int|
            0 <= j < fetch_plan(ranges, gap).len() ==> #[trigger] holds(
                fetch_plan(ranges, wider_gap),
                fetch_plan(ranges, gap)[j],
            ),
        fetch_plan(ranges, wider_gap).len() <= fetch_plan(ranges, gap).len(),
{
    let plan = fetch_plan(ranges, gap);
    let wider_plan = fetch_plan(ranges, wider_gap);
    law_fetch_plan_is_the_plan(ranges, gap, plan);
    law_fetch_plan_is_the_plan(ranges, wider_gap, wider_plan);
    assert forall|j: int| 0 <= j < plan.len() implies #[trigger] holds(wider_plan, plan[j]) by {
        let i = lemma_joined_start(ranges, gap, plan[j]);
        lemma_wider_member(ranges, gap, plan[j], wider_gap, wider_plan, i);
    }
    let members = Seq::new(
        wider_plan.len(),
        |k: int| choose|j: int| 0 <= j < plan.len() && #[trigger] within(plan[j], wider_plan[k]),
    );
    assert forall|k: int| 0 <= k < wider_plan.len() implies 0 <= #[trigger] members[k] < plan.len()
        && within(plan[members[k]], wider_plan[k]) by {
        let i = lemma_joined_start(ranges, wider_gap, wider_plan[k]);
        assert(holds(plan, ranges[i]));
        let j = choose|j: int| 0 <= j < plan.len() && #[trigger] within(ranges[i], plan[j]);
        let l = lemma_wider_member(ranges, gap, plan[j], wider_gap, wider_plan, i);
        law_each_range_has_one_fetch(ranges, wider_gap, wider_plan, i, k, l);
        assert(within(plan[j], wider_plan[k]));
    }
    assert forall|k: int, l: int|
        0 <= k < members.len() && 0 <= l < members.len() && k != l implies members[k]
        != members[l] by {
        if members[k] == members[l] {
            let i = lemma_joined_start(ranges, gap, plan[members[k]]);
            law_each_range_has_one_fetch(ranges, wider_gap, wider_plan, i, k, l);
        }
    }
    lemma_distinct_below(members, plan.len());
}

/// The member of the wider plan that holds a requested range also holds what the narrower gap
/// joins to it.
proof fn lemma_wider_member(
    ranges: Seq<Range<u64>>,
    gap: u64,
    span: Range<u64>,
    wider_gap: u64,
    wider_plan: Seq<Range<u64>>,
    i: int,
) -> (k: int)
    requires
        well_formed(ranges),
        joins(ranges, gap, span),
        is_plan(ranges, wider_gap, wider_plan),
        gap <= wider_gap,
        0 <= i < ranges.len(),
        within(ranges[i], span),
    ensures
        0 <= k < wider_plan.len(),
        within(ranges[i], wider_plan[k]),
        within(span, wider_plan[k]),
{
    assert(holds(wider_plan, ranges[i]));
    let k = choose|k: int| 0 <= k < wider_plan.len() && #[trigger] within(ranges[i], wider_plan[k]);
    let wider = wider_plan[k];
    if wider.end < span.end {
        let q = lemma_bridge(ranges, gap, span, wider.end as int);
        lemma_within_or_apart(ranges, wider_gap, wider, q);
    }
    if span.start < wider.start {
        let first = lemma_joined_start(ranges, gap, span);
        lemma_within_or_apart(ranges, wider_gap, wider, first);
        let q = lemma_bridge(ranges, gap, span, wider.start - wider_gap - 1);
        lemma_within_or_apart(ranges, wider_gap, wider, q);
    }
    k
}

/// A read gives the bytes that the object has from the start of the range on, up to the end of the
/// range or of the object, whichever comes first.
pub proof fn law_read_gives_the_bytes_of_the_range(object: Seq<u8>, range: Range<u64>)
    requires
        range.start <= range.end,
    ensures
        range.end <= object.len() ==> read(object, range).len() == range.end - range.start,
        range.start <= object.len() <= range.end ==> read(object, range).len() == object.len()
            - range.start,
        object.len() <= range.start ==> read(object, range).len() == 0,
        forall|k: int|
            0 <= k < read(object, range).len() ==> range.start + k < object.len()
                && #[trigger] read(object, range)[k] == object[range.start + k],
{
}

/// What is cut for a range out of the bytes fetched for a span are those from as far into them as
/// the range starts behind the span, as many as the range is long or as are there.
pub proof fn law_cut_gives_the_bytes_of_the_range(
    fetched: Seq<u8>,
    span: Range<u64>,
    range: Range<u64>,
)
    requires
        span.start <= range.start <= range.end <= span.end,
    ensures
        range.end - span.start <= fetched.len() ==> cut(fetched, span, range).len() == range.end
            - range.start,
        range.start - span.start <= fetched.len() <= range.end - span.start ==> cut(
            fetched,
            span,
            range,
        ).len() == fetched.len() - (range.start - span.start),
        forall|k: int|
            0 <= k < cut(fetched, span, range).len() ==> range.start - span.start + k
                < fetched.len() && #[trigger] cut(fetched, span, range)[k] == fetched[range.start
                - span.start + k],
{
}

/// Every requested range lies in a fetch, from its start to its end.
pub proof fn law_every_range_is_fetched(
    ranges: Seq<Range<u64>>,
    gap: u64,
    plan: Seq<Range<u64>>,
    i: int,
) -> (j: int)
    requires
        is_plan(ranges, gap, plan),
        0 <= i < ranges.len(),
    ensures
        0 <= j < plan.len(),
        plan[j].start <= ranges[i].start,
        ranges[i].end <= plan[j].end,
{
    assert(holds(plan, ranges[i]));
    choose|j: int| 0 <= j < plan.len() && #[trigger] within(ranges[i], plan[j])
}

/// Two requested ranges with no more than `gap` bytes between the end of the one and the start of
/// the other lie in the same fetch.
pub proof fn law_ranges_within_the_gap_lie_in_one_fetch(
    ranges: Seq<Range<u64>>,
    gap: u64,
    plan: Seq<Range<u64>>,
    i: int,
    k: int,
) -> (j: int)
    requires
        forall|i: int| 0 <= i < ranges.len() ==> (#[trigger] ranges[i]).start <= ranges[i].end,
        is_plan(ranges, gap, plan),
        0 <= i < ranges.len(),
        0 <= k < ranges.len(),
        ranges[k].start <= ranges[i].end + gap,
        ranges[i].start <= ranges[k].end + gap,
    ensures
        0 <= j < plan.len(),
        plan[j].start <= ranges[i].start,
        ranges[i].end <= plan[j].end,
        plan[j].start <= ranges[k].start,
        ranges[k].end <= plan[j].end,
{
    law_neighbours_share_a_fetch(ranges, gap, plan, i, k);
    choose|j: int|
        0 <= j < plan.len() && #[trigger] within(ranges[i], plan[j]) && within(ranges[k], plan[j])
}

/// Fetches come in ascending order, with more than `gap` bytes from one to the next.
pub proof fn law_fetches_are_more_than_the_gap_apart(
    ranges: Seq<Range<u64>>,
    gap: u64,
    plan: Seq<Range<u64>>,
    j: int,
    k: int,
)
    requires
        is_plan(ranges, gap, plan),
        0 <= j < k < plan.len(),
    ensures
        plan[j].end + gap < plan[k].start,
{
}

/// A fetch starts with the start of a requested range in it and ends with the end of one.
pub proof fn law_fetch_starts_and_ends_with_a_range(
    ranges: Seq<Range<u64>>,
    gap: u64,
    plan: Seq<Range<u64>>,
    j: int,
) -> (at: (int, int))
    requires
        is_plan(ranges, gap, plan),
        0 <= j < plan.len(),
    ensures
        0 <= at.0 < ranges.len(),
        ranges[at.0].start == plan[j].start,
        ranges[at.0].end <= plan[j].end,
        0 <= at.1 < ranges.len(),
        ranges[at.1].end == plan[j].end,
        plan[j].start <= ranges[at.1].start,
{
    assert(joins(ranges, gap, plan[j]));
    reveal(joins);
    let first = choose|i: int|
        0 <= i < ranges.len() && #[trigger] within(ranges[i], plan[j]) && ranges[i].start
            == plan[j].start;
    let last = choose|i: int|
        0 <= i < ranges.len() && #[trigger] within(ranges[i], plan[j]) && ranges[i].end
            == plan[j].end;
    (first, last)
}

/// Ranges are not joined over more than the gap: where each requested range ends at a point or
/// before it, or starts more than `gap` bytes behind it, so does each fetch.
pub proof fn law_wider_holes_are_not_fetched(
    ranges: Seq<Range<u64>>,
    gap: u64,
    plan: Seq<Range<u64>>,
    point: int,
    j: int,
)
    requires
        forall|i: int| 0 <= i < ranges.len() ==> (#[trigger] ranges[i]).start <= ranges[i].end,
        is_plan(ranges, gap, plan),
        forall|i: int|
            0 <= i < ranges.len() ==> (#[trigger] ranges[i]).end <= point || point + gap
                < ranges[i].start,
        0 <= j < plan.len(),
    ensures
        plan[j].end <= point || point + gap < plan[j].start,
{
    let first = lemma_joined_start(ranges, gap, plan[j]);
    if plan[j].start <= point < plan[j].end {
        let k = lemma_bridge(ranges, gap, plan[j], point);
        assert(ranges[k].end <= point || point + gap < ranges[k].start);
    }
}

/// One range that is requested alone is fetched as it is.
pub proof fn law_single_range_is_fetched_as_it_is(
    range: Range<u64>,
    gap: u64,
    plan: Seq<Range<u64>>,
)
    requires
        range.start <= range.end,
        is_plan(seq![range], gap, plan),
    ensures
        plan == seq![range],
{
    law_contiguous_ranges_are_fetched_as_one(seq![range], seq![range], gap, plan);
    assert(plan =~= seq![range]);
}

} // verus!
