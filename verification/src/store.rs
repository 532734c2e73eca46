//! The store that joins nearby ranges, and the setting for how near they have to be.
use crate::fetch::{coalesce_ranges, contents, default_gap};
use crate::ranges::{
    cut, fetch_plan, has_member, holds, is_plan, joins, law_cut_gives_back_the_requested_bytes,
    law_fetch_plan_is_the_plan, law_wider_gap_joins_further, read, well_formed, within,
};
use crate::text::{
    decimal, is_white_space, law_number_is_read_in_white_space, law_trimmed_is_the_text_within,
    law_what_is_read_as_a_number, parse_trimmed, parsed, push_decimal, trimmed,
};
use bytes::Bytes;
use core::future::Future;
use core::ops::Range;
use vstd::future::FutureAdditionalSpecFns;
use vstd::prelude::*;
use vstd::string::StringExecFns;

verus! {

/// The gap that a setting asks for: the number that it holds, white space around it aside, or one
/// MiB where there is no setting or it holds no number.
pub open spec fn configured_gap(setting: Option<&str>) -> u64 {
    let number = match setting {
        Some(text) => parsed(trimmed(text@)),
        None => None,
    };
    match number {
        Some(gap) => gap,
        None => 0x10_0000,
    }
}

/// An object store that joins nearby byte ranges into one fetch of the store that it wraps, and
/// slices what was fetched back to the ranges asked for.
#[derive(Debug)]
pub struct CoalescingObjectStore<S> {
    /// Ranges are joined where no more than this many bytes lie between them.
    coalesce_gap: u64,
    inner: S,
}

impl<S> CoalescingObjectStore<S> {
    /// The number of bytes between two ranges up to which they are joined.
    pub closed spec fn gap(&self) -> u64 {
        self.coalesce_gap
    }

    /// The store that is wrapped.
    pub closed spec fn wrapped(&self) -> S {
        self.inner
    }

    /// Wraps a store. The gap is as the setting asks for.
    pub fn new(inner: S, setting: Option<&str>) -> (store: Self)
        ensures
            store.gap() == configured_gap(setting),
            store.wrapped() == inner,
            setting is None ==> store.gap() == 1024 * 1024,
            // A number sets the gap, with white space around it or without.
            forall|before: Seq<char>, n: u64, after: Seq<char>|
                setting is Some && setting->0@ == #[trigger] (before + decimal(n as nat) + after)
                    && (forall|i: int| 0 <= i < before.len() ==> is_white_space(before[i])) && (
                forall|i: int| 0 <= i < after.len() ==> is_white_space(after[i])) ==> store.gap()
                    == n,
    {
        proof {
            assert forall|before: Seq<char>, n: u64, after: Seq<char>|
                setting is Some && setting->0@ == #[trigger] (before + decimal(n as nat) + after)
                    && (forall|i: int| 0 <= i < before.len() ==> is_white_space(before[i])) && (
                forall|i: int| 0 <= i < after.len() ==> is_white_space(after[i])) implies
                configured_gap(setting) == n by {
                law_setting_is_the_gap(setting->0, before, n, after);
            }
        }
        let number: Option<u64> = match setting {
            Some(text) => parse_trimmed(text),
            None => None,
        };
        let coalesce_gap: u64 = match number {
            Some(gap) => gap,
            None => default_gap(),
        };
        CoalescingObjectStore { coalesce_gap, inner }
    }

    /// The number of bytes between two ranges up to which they are joined.
    pub fn coalesce_gap(&self) -> (gap: u64)
        ensures
            gap == self.gap(),
    {
        self.coalesce_gap
    }

    /// The store that is wrapped.
    pub fn inner(&self) -> (inner: &S)
        ensures
            *inner == self.wrapped(),
    {
        &self.inner
    }

    /// The store as text, given the text of the store that is wrapped.
    pub fn display(&self, inner: &str) -> (text: String)
        ensures
            text@ == "CoalescingObjectStore(gap="@ + decimal(self.gap() as nat) + ", "@ + inner@
                + ")"@,
    {
        let mut text: String = "CoalescingObjectStore(gap=".to_string();
        push_decimal(&mut text, self.coalesce_gap);
        text.append(", ");
        text.append(inner);
        text.append(")");
        text
    }

    /// The store as text with its fields named, given such a text of the store that is wrapped.
    pub fn debug(&self, inner: &str) -> (text: String)
        ensures
            text@ == "CoalescingObjectStore { coalesce_gap: "@ + decimal(self.gap() as nat)
                + ", inner: "@ + inner@ + " }"@,
    {
        let mut text: String = "CoalescingObjectStore { coalesce_gap: ".to_string();
        push_decimal(&mut text, self.coalesce_gap);
        text.append(", inner: ");
        text.append(inner);
        text.append(" }");
        text
    }

    /// The ranges that are fetched to serve `ranges`.
    pub open spec fn fetches(&self, ranges: Seq<Range<u64>>) -> Seq<Range<u64>> {
        fetch_plan(ranges, self.gap())
    }

    /// Reads byte ranges of one object with as few fetches as the gap allows: each member of the
    /// plan for the ranges is fetched, and the requested ranges are sliced out of the replies.
    /// `fetch` fetches one range of the object from the wrapped store. The fetches are made once
    /// the outcome is awaited.
    ///
    /// The first reply, in the order of the plan, that is an error is the outcome. Otherwise there
    /// is a buffer for each requested range, in the order of the request. It is shorter than the
    /// range where the object ends within the range.
    ///
    /// Slicing panics on a range that ends before it starts, and on a reply that ends before a
    /// range in it starts. Such a request is for the wrapped store to refuse.
    pub fn get_ranges<'a, F, E, Fut>(&self, ranges: &'a [Range<u64>], fetch: F) -> (outcome:
        impl Future<Output = Result<Vec<Bytes>, E>> + 'a) where
        F: Send + Fn(Range<u64>) -> Fut + 'a,
        E: Send + 'a,
        Fut: Future<Output = Result<Bytes, E>> + Send + 'a,

        requires
            forall|span: Range<u64>| #[trigger]
                joins(ranges@, self.gap(), span) ==> call_requires(fetch, (span,)),
            ({
                // Whatever is asked for can be sliced out of the reply that holds it.
                ||| {
                    &&& well_formed(ranges@)
                    &&& forall|span: Range<u64>| #[trigger]
                        joins(ranges@, self.gap(), span) ==> span.end - span.start <= usize::MAX
                    &&& forall|span: Range<u64>, reply: Fut, i: int|
                        joins(ranges@, self.gap(), span) && #[trigger] call_ensures(
                            fetch,
                            (span,),
                            reply,
                        ) && reply@ is Ok && 0 <= i < ranges@.len() && #[trigger] within(
                            ranges@[i],
                            span,
                        ) ==> ranges@[i].start - span.start <= contents(reply@->Ok_0).len()
                }
                // Or some fetch is refused.
                ||| forall|plan: Seq<Range<u64>>| #[trigger]
                    is_plan(ranges@, self.gap(), plan) ==> exists|j: int|
                        #[trigger] has_member(plan, j) && (forall|reply: Fut| #[trigger]
                            call_ensures(fetch, (plan[j],), reply) ==> reply@ is Err)
            }),
        ensures
            outcome.awaited() ==> match outcome@ {
                Ok(parts) => exists|plan: Seq<Range<u64>>, replies: Seq<Fut>|
                    #![trigger is_plan(ranges@, self.gap(), plan), replies.len()]
                    {
                        &&& is_plan(ranges@, self.gap(), plan)
                        &&& plan == self.fetches(ranges@)
                        &&& replies.len() == plan.len()
                        &&& forall|j: int|
                            0 <= j < plan.len() ==> call_ensures(
                                fetch,
                                (plan[j],),
                                #[trigger] replies[j],
                            ) && replies[j]@ is Ok
                        &&& parts@.len() == ranges@.len()
                        &&& forall|i: int, j: int|
                            0 <= i < ranges@.len() && 0 <= j < plan.len() && #[trigger] within(
                                ranges@[i],
                                plan[j],
                            ) ==> contents(parts@[i]) == cut(
                                contents(replies[j]@->Ok_0),
                                plan[j],
                                ranges@[i],
                            )
                    },
                Err(error) => exists|plan: Seq<Range<u64>>, replies: Seq<Fut>|
                    #![trigger is_plan(ranges@, self.gap(), plan), replies.len()]
                    {
                        &&& is_plan(ranges@, self.gap(), plan)
                        &&& well_formed(ranges@) ==> plan == self.fetches(ranges@)
                        &&& 0 < replies.len() <= plan.len()
                        &&& forall|j: int|
                            0 <= j < replies.len() ==> call_ensures(
                                fetch,
                                (plan[j],),
                                #[trigger] replies[j],
                            )
                        &&& forall|j: int|
                            0 <= j < replies.len() - 1 ==> (#[trigger] replies[j])@ is Ok
                        &&& replies.last()@ == Err::<Bytes, E>(error)
                    },
            },
            // Only what can be sliced is answered with bytes.
            outcome.awaited() && outcome@ is Ok ==> well_formed(ranges@),
            // Where every fetch succeeds, so does the read.
            outcome.awaited() && (forall|span: Range<u64>, reply: Fut|
                joins(ranges@, self.gap(), span) && #[trigger] call_ensures(fetch, (span,), reply)
                    ==> reply@ is Ok) ==> outcome@ is Ok,
            // Where the fetches read one object, so does the read.
            forall|object: Seq<u8>, i: int|
                outcome.awaited() && (forall|span: Range<u64>, reply: Fut|
                    joins(ranges@, self.gap(), span) && #[trigger] call_ensures(
                        fetch,
                        (span,),
                        reply,
                    ) && reply@ is Ok ==> contents(reply@->Ok_0) == read(object, span))
                    && outcome@ is Ok && 0 <= i < ranges@.len() ==> contents(outcome@->Ok_0@[i])
                    == #[trigger] read(object, ranges@[i]),
    {
        let gap: u64 = self.coalesce_gap;
        assert(gap == self.gap());
        let outcome = coalesce_ranges(ranges, fetch, gap);
        proof {
            if outcome.awaited() && outcome@ is Ok {
                let (plan, replies) = choose|plan: Seq<Range<u64>>, replies: Seq<Fut>|
                    #![trigger is_plan(ranges@, gap, plan), replies.len()]
                    {
                        &&& is_plan(ranges@, gap, plan)
                        &&& replies.len() == plan.len()
                        &&& forall|j: int|
                            0 <= j < plan.len() ==> call_ensures(
                                fetch,
                                (plan[j],),
                                #[trigger] replies[j],
                            ) && replies[j]@ is Ok
                        &&& outcome@->Ok_0@.len() == ranges@.len()
                        &&& forall|i: int, j: int|
                            0 <= i < ranges@.len() && 0 <= j < plan.len() && #[trigger] within(
                                ranges@[i],
                                plan[j],
                            ) ==> contents(outcome@->Ok_0@[i]) == cut(
                                contents(replies[j]@->Ok_0),
                                plan[j],
                                ranges@[i],
                            )
                    };
                assert(is_plan(ranges@, self.gap(), plan));
                if !well_formed(ranges@) {
                    let j = choose|j: int|
                        #[trigger] has_member(plan, j) && (forall|reply: Fut| #[trigger]
                            call_ensures(fetch, (plan[j],), reply) ==> reply@ is Err);
                    assert(call_ensures(fetch, (plan[j],), replies[j]));
                }
                law_fetch_plan_is_the_plan(ranges@, gap, plan);
                assert forall|object: Seq<u8>, i: int|
                    (forall|span: Range<u64>, reply: Fut|
                        joins(ranges@, self.gap(), span) && #[trigger] call_ensures(
                            fetch,
                            (span,),
                            reply,
                        ) && reply@ is Ok ==> contents(reply@->Ok_0) == read(object, span)) && 0
                        <= i < ranges@.len() implies contents(outcome@->Ok_0@[i]) == #[trigger] read(
                    object,
                    ranges@[i],
                ) by {
                    assert(holds(plan, ranges@[i]));
                    let j = choose|j: int|
                        0 <= j < plan.len() && #[trigger] within(ranges@[i], plan[j]);
                    assert(joins(ranges@, self.gap(), plan[j]));
                    assert(call_ensures(fetch, (plan[j],), replies[j]));
                    law_cut_gives_back_the_requested_bytes(object, plan[j], ranges@[i]);
                }
            } else if outcome.awaited() {
                let (plan, replies) = choose|plan: Seq<Range<u64>>, replies: Seq<Fut>|
                    #![trigger is_plan(ranges@, gap, plan), replies.len()]
                    {
                        &&& is_plan(ranges@, gap, plan)
                        &&& 0 < replies.len() <= plan.len()
                        &&& forall|j: int|
                            0 <= j < replies.len() ==> call_ensures(
                                fetch,
                                (plan[j],),
                                #[trigger] replies[j],
                            )
                        &&& forall|j: int|
                            0 <= j < replies.len() - 1 ==> (#[trigger] replies[j])@ is Ok
                        &&& replies.last()@ == Err::<Bytes, E>(outcome@->Err_0)
                    };
                if well_formed(ranges@) {
                    law_fetch_plan_is_the_plan(ranges@, gap, plan);
                }
                let last = replies.len() - 1;
                assert(call_ensures(fetch, (plan[last],), replies[last]));
            };
        }
        outcome
    }
}

/// Whatever number a setting holds is the gap, with white space around it or without.
pub proof fn law_setting_is_the_gap(
    setting: &str,
    before: Seq<char>,
    n: u64,
    after: Seq<char>,
)
    requires
        setting@ == before + decimal(n as nat) + after,
        forall|i: int| 0 <= i < before.len() ==> is_white_space(#[trigger] before[i]),
        forall|i: int| 0 <= i < after.len() ==> is_white_space(#[trigger] after[i]),
    ensures
        configured_gap(Some(setting)) == n,
{
    let none = Seq::<char>::empty();
    assert((none + none) + decimal(n as nat) =~= decimal(n as nat));
    law_number_is_read_in_white_space(before, none, none, n, after);
}

/// A plus sign and zeros in front of the number make no difference to the gap.
pub proof fn law_sign_and_zeros_do_not_matter(
    setting: &str,
    before: Seq<char>,
    sign: Seq<char>,
    zeros: Seq<char>,
    n: u64,
    after: Seq<char>,
)
    requires
        setting@ == before + ((sign + zeros) + decimal(n as nat)) + after,
        forall|i: int| 0 <= i < before.len() ==> is_white_space(#[trigger] before[i]),
        forall|i: int| 0 <= i < after.len() ==> is_white_space(#[trigger] after[i]),
        sign == Seq::<char>::empty() || sign == seq!['+'],
        forall|i: int| 0 <= i < zeros.len() ==> #[trigger] zeros[i] == '0',
    ensures
        configured_gap(Some(setting)) == n,
{
    law_number_is_read_in_white_space(before, sign, zeros, n, after);
}

/// Without a setting the gap is one MiB. With one it is the number that the setting holds, or one
/// MiB.
pub proof fn law_gap_is_the_number_or_one_mebibyte(setting: &str)
    ensures
        configured_gap(None) == 1024 * 1024,
        configured_gap(Some(setting)) == 1024 * 1024 || exists|
            before: Seq<char>,
            sign: Seq<char>,
            zeros: Seq<char>,
            after: Seq<char>,
        |
            {
                &&& setting@ == #[trigger] (before + ((sign + zeros) + decimal(
                    configured_gap(Some(setting)) as nat,
                )) + after)
                &&& forall|i: int| 0 <= i < before.len() ==> is_white_space(#[trigger] before[i])
                &&& forall|i: int| 0 <= i < after.len() ==> is_white_space(#[trigger] after[i])
                &&& sign == Seq::<char>::empty() || sign == seq!['+']
                &&& forall|i: int| 0 <= i < zeros.len() ==> #[trigger] zeros[i] == '0'
            },
{
    let text = trimmed(setting@);
    if parsed(text) is Some {
        let n = parsed(text)->0;
        let (before, after) = law_trimmed_is_the_text_within(setting@);
        law_what_is_read_as_a_number(text, n);
        let (sign, zeros) = choose|sign: Seq<char>, zeros: Seq<char>|
            (sign == Seq::<char>::empty() || sign == seq!['+']) && (forall|i: int|
                0 <= i < zeros.len() ==> #[trigger] zeros[i] == '0') && text == #[trigger] (sign
                + zeros) + decimal(n as nat);
        assert(setting@ == before + ((sign + zeros) + decimal(
            configured_gap(Some(setting)) as nat,
        )) + after);
    }
}

/// Of two stores, the one with the larger gap never makes more fetches for the same request, and
/// whatever the other fetches lies within what it fetches.
pub proof fn law_larger_gap_never_fetches_more<S, T>(
    store: CoalescingObjectStore<S>,
    larger: CoalescingObjectStore<T>,
    ranges: Seq<Range<u64>>,
)
    requires
        well_formed(ranges),
        store.gap() <= larger.gap(),
    ensures
        larger.fetches(ranges).len() <= store.fetches(ranges).len(),
        forall|j: int|
            0 <= j < store.fetches(ranges).len() ==> #[trigger] holds(
                larger.fetches(ranges),
                store.fetches(ranges)[j],
            ),
{
    law_wider_gap_joins_further(ranges, store.gap(), larger.gap());
}

/// Each fetch of the store with the smaller gap lies in one of the store with the larger gap, from
/// its start to its end.
pub proof fn law_fetch_lies_in_one_with_a_larger_gap<S, T>(
    store: CoalescingObjectStore<S>,
    larger: CoalescingObjectStore<T>,
    ranges: Seq<Range<u64>>,
    j: int,
) -> (k: int)
    requires
        forall|i: int| 0 <= i < ranges.len() ==> (#[trigger] ranges[i]).start <= ranges[i].end,
        store.gap() <= larger.gap(),
        0 <= j < store.fetches(ranges).len(),
    ensures
        0 <= k < larger.fetches(ranges).len(),
        larger.fetches(ranges)[k].start <= store.fetches(ranges)[j].start,
        store.fetches(ranges)[j].end <= larger.fetches(ranges)[k].end,
{
    law_larger_gap_never_fetches_more(store, larger, ranges);
    assert(holds(larger.fetches(ranges), store.fetches(ranges)[j]));
    choose|k: int|
        0 <= k < larger.fetches(ranges).len() && #[trigger] within(
            store.fetches(ranges)[j],
            larger.fetches(ranges)[k],
        )
}

} // verus!
