//! The calls into `bytes` and `object_store` that the range reads rest on.
use crate::ranges::{cut, has_member, is_plan, joins, well_formed, within};
use bytes::Bytes;
use core::future::Future;
use core::ops::Range;
use vstd::future::FutureAdditionalSpecFns;
use vstd::prelude::*;

verus! {

/// [`bytes::Bytes`], a shared buffer of bytes.
#[verifier::external_type_specification]
#[verifier::external_body]
pub struct ExBytes(bytes::Bytes);

/// The bytes that a buffer holds.
pub uninterp spec fn contents(buffer: Bytes) -> Seq<u8>;

/// Gives [`object_store::OBJECT_STORE_COALESCE_DEFAULT`], which is one MiB.
#[verifier::external_body]
pub(crate) fn default_gap() -> (gap: u64)
    ensures
        gap == 1024 * 1024,
{
    object_store::OBJECT_STORE_COALESCE_DEFAULT
}

/// Calls [`object_store::coalesce_ranges`], whose future makes the fetches once it is awaited.
///
/// Claimed of its outcome, once it was awaited: it came of calls of `fetch` on the members of the
/// plan for `ranges`, and on no others. The replies were taken in the order of the plan. The first
/// of them that is an error is the outcome. Where none is, the outcome has a buffer for each
/// requested range, in the order of the request: the part that belongs to it of the reply for the
/// member that holds it, which is shorter where the reply is.
///
/// Once every reply is there and none is an error, it slices. It panics there on a range that ends
/// before it starts and on a reply that ends before a requested range starts, and offsets into a
/// reply are cast to `usize`. So either no such thing can come up, or some fetch has to fail. How
/// many fetches run at a time is left unsaid.
#[verifier::external_body]
pub(crate) fn coalesce_ranges<'a, F, E, Fut>(
    ranges: &'a [Range<u64>],
    fetch: F,
    gap: u64,
) -> (outcome: impl Future<Output = Result<Vec<Bytes>, E>> + 'a) where
    F: Send + Fn(Range<u64>) -> Fut + 'a,
    E: Send + 'a,
    Fut: Future<Output = Result<Bytes, E>> + Send + 'a,

    requires
        forall|span: Range<u64>| #[trigger]
            joins(ranges@, gap, span) ==> call_requires(fetch, (span,)),
        ({
            ||| {
                &&& well_formed(ranges@)
                &&& forall|span: Range<u64>| #[trigger]
                    joins(ranges@, gap, span) ==> span.end - span.start <= usize::MAX
                &&& forall|span: Range<u64>, reply: Fut, i: int|
                    joins(ranges@, gap, span) && #[trigger] call_ensures(fetch, (span,), reply)
                        && reply@ is Ok && 0 <= i < ranges@.len() && #[trigger] within(
                        ranges@[i],
                        span,
                    ) ==> ranges@[i].start - span.start <= contents(reply@->Ok_0).len()
            }
            ||| forall|plan: Seq<Range<u64>>| #[trigger]
                is_plan(ranges@, gap, plan) ==> exists|j: int|
                        #[trigger] has_member(plan, j) && (forall|reply: Fut| #[trigger]
                        call_ensures(fetch, (plan[j],), reply) ==> reply@ is Err)
        }),
    ensures
        outcome.awaited() ==> (match outcome@ {
            Ok(parts) => exists|plan: Seq<Range<u64>>, replies: Seq<Fut>|
                #![trigger is_plan(ranges@, gap, plan), replies.len()]
                {
                    &&& is_plan(ranges@, gap, plan)
                    &&& replies.len() == plan.len()
                    &&& forall|j: int|
                        0 <= j < plan.len() ==> call_ensures(
                            fetch,
                            (plan[j],),
                            #[trigger] replies[j],
                        ) && replies[j]@ is Ok
                    &&& parts@.len() == ranges@.len()
                    &&& forall|i: int, j: int|
                        0 <= i < ranges@.len() && 0 <= j < plan.len() && #[trigger] within(
                            ranges@[i],
                            plan[j],
                        ) ==> contents(parts@[i]) == cut(
                            contents(replies[j]@->Ok_0),
                            plan[j],
                            ranges@[i],
                        )
                },
            Err(error) => exists|plan: Seq<Range<u64>>, replies: Seq<Fut>|
                #![trigger is_plan(ranges@, gap, plan), replies.len()]
                {
                    &&& is_plan(ranges@, gap, plan)
                    &&& 0 < replies.len() <= plan.len()
                    &&& forall|j: int|
                        0 <= j < replies.len() ==> call_ensures(
                            fetch,
                            (plan[j],),
                            #[trigger] replies[j],
                        )
                    &&& forall|j: int|
                        0 <= j < replies.len() - 1 ==> (#[trigger] replies[j])@ is Ok
                    &&& replies.last()@ == Err::<Bytes, E>(error)
                },
        }),
{
    object_store::coalesce_ranges(ranges, fetch, gap)
}

} // verus!
