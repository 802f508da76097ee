//! What results of operations on many hosts have in common.

use crate::error::{Error, ErrorView};
use crate::ordered::{ascending, entries_are_the_map, map_of, precedes, OrderedMap};
use crate::text::views;
use vstd::prelude::*;

verus! {

/// The outcome of an operation on one host.
pub trait Outcome: DeepView {
    /// Whether the operation succeeded.
    spec fn succeeded(v: Self::V) -> bool;

    /// The host that it was about.
    spec fn about(v: Self::V) -> Seq<char>;

    /// Whether the operation succeeded.
    fn ok(&self) -> (r: bool)
        ensures
            r == Self::succeeded(self.deep_view()),
    ;

    /// The host that it was about.
    fn host_name(&self) -> (r: &String)
        ensures
            r@ == Self::about(self.deep_view()),
    ;
}

/// Whether all outcomes are successes.
pub open spec fn all_succeeded<V: Outcome>(entries: Seq<(Seq<char>, V::V)>) -> bool {
    forall|i: int| 0 <= i < entries.len() ==> V::succeeded(#[trigger] entries[i].1)
}

/// The hosts of the outcomes for which `p` holds, in the order of the entries.
pub open spec fn hosts_where<V: Outcome>(
    entries: Seq<(Seq<char>, V::V)>,
    p: spec_fn(V::V) -> bool,
) -> Seq<Seq<char>>
    decreases entries.len(),
{
    if entries.len() == 0 {
        Seq::empty()
    } else {
        let before = hosts_where::<V>(entries.drop_last(), p);
        if p(entries.last().1) {
            before.push(V::about(entries.last().1))
        } else {
            before
        }
    }
}

/// The hosts of the outcomes that are no successes, in the order of the entries.
pub open spec fn failures<V: Outcome>(entries: Seq<(Seq<char>, V::V)>) -> Seq<Seq<char>> {
    hosts_where::<V>(entries, |v: V::V| !V::succeeded(v))
}

/// Whether all outcomes are successes.
pub fn every_success<V: Outcome>(hosts: &OrderedMap<V>) -> (r: bool)
    ensures
        r == all_succeeded::<V>(hosts.entries()),
{
    let n: usize = hosts.len();
    let mut i: usize = 0;
    while i < n
        invariant
            i <= n,
            n == hosts.entries().len(),
            forall|j: int| 0 <= j < i ==> V::succeeded(#[trigger] hosts.entries()[j].1),
        decreases n - i,
    {
        if !hosts.value(i).ok() {
            assert(!V::succeeded(hosts.entries()[i as int].1));
            return false;
        }
        i = i + 1;
    }
    true
}

/// The hosts of the outcomes that are no successes, in the order of the entries.
pub fn failed<V: Outcome>(hosts: &OrderedMap<V>) -> (r: Vec<String>)
    ensures
        views(r@) == failures::<V>(hosts.entries()),
{
    let n: usize = hosts.len();
    let mut r: Vec<String> = Vec::new();
    let mut i: usize = 0;
    assert(views(r@) =~= failures::<V>(hosts.entries().take(0)));
    while i < n
        invariant
            i <= n,
            n == hosts.entries().len(),
            views(r@) == failures::<V>(hosts.entries().take(i as int)),
        decreases n - i,
    {
        let v: &V = hosts.value(i);
        let ghost before = views(r@);
        if !v.ok() {
            r.push(v.host_name().clone());
            assert(views(r@) =~= before.push(V::about(v.deep_view())));
        }
        proof {
            let entries = hosts.entries();
            assert(entries.take(i + 1).drop_last() =~= entries.take(i as int));
            assert(entries.take(i + 1).last() == entries[i as int]);
        }
        i = i + 1;
    }
    assert(hosts.entries().take(n as int) =~= hosts.entries());
    r
}

/// All operations succeeded exactly where no host failed.
pub proof fn success_is_the_absence_of_failures<V: Outcome>(entries: Seq<(Seq<char>, V::V)>)
    ensures
        all_succeeded::<V>(entries) <==> failures::<V>(entries).len() == 0,
{
    let all = failures::<V>(entries);
    if all.len() > 0 {
        assert(all.contains(all[0]));
        failures_are_the_hosts_that_failed::<V>(entries, all[0]);
    }
    if !all_succeeded::<V>(entries) {
        let i: int = choose|i: int|
            0 <= i < entries.len() && !V::succeeded(#[trigger] entries[i].1);
        failures_are_the_hosts_that_failed::<V>(entries, V::about(entries[i].1));
    }
}

/// All operations succeeded exactly where every host's own did.
pub proof fn success_is_that_of_every_host<V: Outcome>(entries: Seq<(Seq<char>, V::V)>)
    requires
        ascending(entries),
    ensures
        all_succeeded::<V>(entries) <==> forall|h: Seq<char>| #[trigger]
            map_of(entries).dom().contains(h) ==> V::succeeded(map_of(entries)[h]),
{
    entries_are_the_map(entries);
    if all_succeeded::<V>(entries) {
        assert forall|h: Seq<char>| #[trigger]
            map_of(entries).dom().contains(h) implies V::succeeded(map_of(entries)[h]) by {
            let i: int = choose|i: int|
                0 <= i < entries.len() && (#[trigger] entries[i]).0 == h;
            assert(V::succeeded(entries[i].1));
        }
    } else {
        let i: int = choose|i: int|
            0 <= i < entries.len() && !V::succeeded(#[trigger] entries[i].1);
        assert(map_of(entries).dom().contains(entries[i].0));
    }
}

/// The hosts for which `p` holds are exactly those with an outcome of that kind.
pub proof fn hosts_where_are_those<V: Outcome>(
    entries: Seq<(Seq<char>, V::V)>,
    p: spec_fn(V::V) -> bool,
    h: Seq<char>,
)
    ensures
        hosts_where::<V>(entries, p).contains(h) <==> exists|i: int|
            0 <= i < entries.len() && p((#[trigger] entries[i]).1) && V::about(entries[i].1) == h,
    decreases entries.len(),
{
    let all = hosts_where::<V>(entries, p);
    if entries.len() > 0 {
        let n: int = entries.len() - 1;
        let rest = entries.drop_last();
        let before = hosts_where::<V>(rest, p);
        hosts_where_are_those::<V>(rest, p, h);
        if before.contains(h) {
            let i: int = choose|i: int|
                0 <= i < rest.len() && p((#[trigger] rest[i]).1) && V::about(rest[i].1) == h;
            assert(entries[i] == rest[i]);
            let k: int = choose|k: int| 0 <= k < before.len() && before[k] == h;
            assert(all[k] == h);
        }
        if p(entries[n].1) && V::about(entries[n].1) == h {
            assert(all[before.len() as int] == h);
        }
        if all.contains(h) {
            let k: int = choose|k: int| 0 <= k < all.len() && all[k] == h;
            if k < before.len() {
                assert(before[k] == h);
            }
        }
        if exists|i: int|
            0 <= i < entries.len() && p((#[trigger] entries[i]).1) && V::about(entries[i].1) == h {
            let i: int = choose|i: int|
                0 <= i < entries.len() && p((#[trigger] entries[i]).1) && V::about(entries[i].1)
                    == h;
            if i < n {
                assert(rest[i] == entries[i]);
            }
        }
    }
}

/// The failed hosts are exactly those whose outcome is no success.
pub proof fn failures_are_the_hosts_that_failed<V: Outcome>(
    entries: Seq<(Seq<char>, V::V)>,
    h: Seq<char>,
)
    ensures
        failures::<V>(entries).contains(h) <==> exists|i: int|
            0 <= i < entries.len() && !V::succeeded((#[trigger] entries[i]).1) && V::about(
                entries[i].1,
            ) == h,
{
    hosts_where_are_those::<V>(entries, |v: V::V| !V::succeeded(v), h);
}

/// Whether every outcome stands under the host that it is about.
pub open spec fn own_names<V: Outcome>(entries: Seq<(Seq<char>, V::V)>) -> bool {
    forall|i: int| 0 <= i < entries.len() ==> V::about((#[trigger] entries[i]).1) == entries[i].0
}

/// Whether each of `names` comes before those that follow it.
pub open spec fn names_ascend(names: Seq<Seq<char>>) -> bool {
    forall|i: int, j: int|
        0 <= i < j < names.len() ==> precedes(#[trigger] names[i], #[trigger] names[j])
}

/// The hosts for which `p` holds come in ascending order, and are exactly those
/// whose outcome in the map is of that kind.
pub proof fn hosts_where_are_in_order<V: Outcome>(
    entries: Seq<(Seq<char>, V::V)>,
    p: spec_fn(V::V) -> bool,
)
    requires
        ascending(entries),
        own_names::<V>(entries),
    ensures
        names_ascend(hosts_where::<V>(entries, p)),
        forall|h: Seq<char>| #[trigger]
            hosts_where::<V>(entries, p).contains(h) <==> map_of(entries).dom().contains(h) && p(
                map_of(entries)[h],
            ),
{
    lemma_hosts_ascend::<V>(entries, p);
    entries_are_the_map(entries);
    let all = hosts_where::<V>(entries, p);
    assert forall|h: Seq<char>| #[trigger]
        all.contains(h) <==> map_of(entries).dom().contains(h) && p(map_of(entries)[h]) by {
        hosts_where_are_those::<V>(entries, p, h);
        if map_of(entries).dom().contains(h) {
            let i: int = choose|i: int|
                0 <= i < entries.len() && (#[trigger] entries[i]).0 == h;
            assert(map_of(entries)[h] == entries[i].1);
            assert(V::about(entries[i].1) == h);
        }
    }
}

proof fn lemma_hosts_ascend<V: Outcome>(
    entries: Seq<(Seq<char>, V::V)>,
    p: spec_fn(V::V) -> bool,
)
    requires
        ascending(entries),
        own_names::<V>(entries),
    ensures
        names_ascend(hosts_where::<V>(entries, p)),
    decreases entries.len(),
{
    if entries.len() > 0 {
        let n: int = entries.len() - 1;
        let rest = entries.drop_last();
        assert forall|i: int, j: int| 0 <= i < j < rest.len() implies precedes(
            #[trigger] rest[i].0,
            #[trigger] rest[j].0,
        ) by {
            assert(rest[i] == entries[i] && rest[j] == entries[j]);
        }
        assert forall|i: int| 0 <= i < rest.len() implies V::about((#[trigger] rest[i]).1)
            == rest[i].0 by {
            assert(rest[i] == entries[i]);
        }
        lemma_hosts_ascend::<V>(rest, p);
        let before = hosts_where::<V>(rest, p);
        let all = hosts_where::<V>(entries, p);
        assert forall|i: int, j: int| 0 <= i < j < all.len() implies precedes(
            #[trigger] all[i],
            #[trigger] all[j],
        ) by {
            if j < before.len() {
                assert(before[i] == all[i] && before[j] == all[j]);
            } else {
                assert(before[i] == all[i]);
                assert(before.contains(before[i]));
                hosts_where_are_those::<V>(rest, p, before[i]);
                let k: int = choose|k: int|
                    0 <= k < rest.len() && p((#[trigger] rest[k]).1) && V::about(rest[k].1)
                        == before[i];
                assert(rest[k] == entries[k]);
                assert(precedes(entries[k].0, entries[n].0));
            }
        }
    }
}

/// The failed hosts come in ascending order, and are exactly the hosts whose
/// outcome is no success.
pub proof fn failed_hosts_are_in_order<V: Outcome>(entries: Seq<(Seq<char>, V::V)>)
    requires
        ascending(entries),
        own_names::<V>(entries),
    ensures
        names_ascend(failures::<V>(entries)),
        forall|h: Seq<char>| #[trigger]
            failures::<V>(entries).contains(h) <==> map_of(entries).dom().contains(h)
                && !V::succeeded(map_of(entries)[h]),
{
    hosts_where_are_in_order::<V>(entries, |v: V::V| !V::succeeded(v));
}

/// The outcomes by host; of several for one host the last counts.
pub open spec fn by_host<T>(outcomes: Seq<(Seq<char>, T)>) -> Map<Seq<char>, T>
    decreases outcomes.len(),
{
    if outcomes.len() == 0 {
        Map::empty()
    } else {
        by_host(outcomes.drop_last()).insert(outcomes.last().0, outcomes.last().1)
    }
}

/// Whether the outcome at `i` is the last one for the host `h`.
pub open spec fn is_last_for<T>(outcomes: Seq<(Seq<char>, T)>, h: Seq<char>, i: int) -> bool {
    &&& 0 <= i < outcomes.len()
    &&& outcomes[i].0 == h
    &&& forall|j: int| i < j < outcomes.len() ==> #[trigger] outcomes[j].0 != h
}

/// Every host that an operation was tried on is reported, with its own outcome,
/// and no other host is.
pub proof fn every_host_is_reported<T>(outcomes: Seq<(Seq<char>, T)>)
    ensures
        forall|i: int|
            0 <= i < outcomes.len() ==> by_host(outcomes).dom().contains(
                (#[trigger] outcomes[i]).0,
            ),
        forall|h: Seq<char>| #[trigger]
            by_host(outcomes).dom().contains(h) ==> exists|i: int| #[trigger]
                is_last_for(outcomes, h, i) && by_host(outcomes)[h] == outcomes[i].1,
    decreases outcomes.len(),
{
    if outcomes.len() > 0 {
        let rest = outcomes.drop_last();
        every_host_is_reported(rest);
        let n: int = outcomes.len() - 1;
        assert forall|i: int| 0 <= i < outcomes.len() implies by_host(outcomes).dom().contains(
            (#[trigger] outcomes[i]).0,
        ) by {
            if i < n {
                assert(rest[i] == outcomes[i]);
            }
        }
        assert forall|h: Seq<char>| #[trigger] by_host(outcomes).dom().contains(h) implies exists|
            i: int,
        | #[trigger]
            is_last_for(outcomes, h, i) && by_host(outcomes)[h] == outcomes[i].1 by {
            if outcomes[n].0 == h {
                assert(is_last_for(outcomes, h, n));
            } else {
                assert(by_host(rest).dom().contains(h));
                let i: int = choose|i: int| #[trigger]
                    is_last_for(rest, h, i) && by_host(rest)[h] == rest[i].1;
                assert(outcomes[i] == rest[i]);
                assert forall|j: int| i < j < outcomes.len() implies #[trigger] outcomes[j].0
                    != h by {
                    if j < n {
                        assert(rest[j] == outcomes[j]);
                    }
                }
                assert(is_last_for(outcomes, h, i));
            }
        }
    }
}

/// Whether `h` is one of the hosts that `outcomes` are for.
pub open spec fn is_tried<T>(outcomes: Seq<(Seq<char>, T)>, h: Seq<char>) -> bool {
    exists|i: int| 0 <= i < outcomes.len() && (#[trigger] outcomes[i]).0 == h
}

/// The hosts that are reported are exactly those that the outcomes are for.
pub proof fn reported_hosts_are_those_tried<T>(outcomes: Seq<(Seq<char>, T)>)
    ensures
        forall|h: Seq<char>| #[trigger]
            by_host(outcomes).dom().contains(h) <==> is_tried(outcomes, h),
{
    every_host_is_reported(outcomes);
    assert forall|h: Seq<char>| #[trigger] by_host(outcomes).dom().contains(h) <==> is_tried(
        outcomes,
        h,
    ) by {
        if by_host(outcomes).dom().contains(h) {
            let i: int = choose|i: int| #[trigger]
                is_last_for(outcomes, h, i) && by_host(outcomes)[h] == outcomes[i].1;
            assert(outcomes[i].0 == h);
        }
    }
}

/// Outcomes that are each about the host they are for stand under that host when
/// they are collected.
pub proof fn collected_outcomes_keep_their_names<V: Outcome>(
    outcomes: Seq<(Seq<char>, V::V)>,
    entries: Seq<(Seq<char>, V::V)>,
)
    requires
        own_names::<V>(outcomes),
        ascending(entries),
        map_of(entries) == by_host(outcomes),
    ensures
        own_names::<V>(entries),
{
    every_host_is_reported(outcomes);
    entries_are_the_map(entries);
    assert forall|i: int| 0 <= i < entries.len() implies V::about((#[trigger] entries[i]).1)
        == entries[i].0 by {
        let h = entries[i].0;
        assert(by_host(outcomes).dom().contains(h));
        let k: int = choose|k: int| #[trigger]
            is_last_for(outcomes, h, k) && by_host(outcomes)[h] == outcomes[k].1;
        assert(V::about(outcomes[k].1) == outcomes[k].0);
    }
}

/// What a [`Result`] holds, when the value is left as it is.
pub open spec fn held<T>(r: Result<T, Error>) -> Result<T, ErrorView> {
    match r {
        Ok(v) => Ok(v),
        Err(e) => Err(e@),
    }
}

/// The result of an operation that was given limited time; `None` stands for one
/// that did not finish in time.
pub open spec fn timely<T>(what: Seq<char>, host: Seq<char>, r: Option<Result<T, Error>>) -> Result<
    T,
    ErrorView,
> {
    match r {
        Some(Ok(v)) => Ok(v),
        Some(Err(e)) => Err(e@),
        None => Err(ErrorView::Config(what + host + " timed out"@)),
    }
}

/// The result of an operation that was given limited time. `what` says, with a
/// space at its end, what was to be done.
pub fn in_time<T>(what: &str, host: &str, outcome: Option<Result<T, Error>>) -> (r: Result<
    T,
    Error,
>)
    ensures
        held(r) == timely(what@, host@, outcome),
{
    match outcome {
        Some(r) => r,
        None => Err(Error::Config(what.to_owned().concat(host).concat(" timed out"))),
    }
}

/// The hosts of some outcomes are listed one by one, in the order of the entries:
/// each is there for which `p` holds, and no other.
pub proof fn hosts_are_listed_one_by_one<V: Outcome>(
    a: Seq<(Seq<char>, V::V)>,
    e: (Seq<char>, V::V),
    b: Seq<(Seq<char>, V::V)>,
    p: spec_fn(V::V) -> bool,
)
    ensures
        hosts_where::<V>(Seq::empty(), p).len() == 0,
        hosts_where::<V>(seq![e], p) == (if p(e.1) {
            seq![V::about(e.1)]
        } else {
            Seq::empty()
        }),
        hosts_where::<V>(a + b, p) == hosts_where::<V>(a, p) + hosts_where::<V>(b, p),
    decreases b.len(),
{
    let none = Seq::<(Seq<char>, V::V)>::empty();
    assert(seq![e].drop_last() =~= none);
    assert(hosts_where::<V>(none, p) =~= Seq::<Seq<char>>::empty());
    assert(Seq::<Seq<char>>::empty().push(V::about(e.1)) =~= seq![V::about(e.1)]);
    if b.len() == 0 {
        assert(a + b =~= a);
        assert(hosts_where::<V>(a, p) + hosts_where::<V>(b, p) =~= hosts_where::<V>(a, p));
    } else {
        hosts_are_listed_one_by_one::<V>(a, e, b.drop_last(), p);
        assert((a + b).drop_last() =~= a + b.drop_last());
        assert((a + b).last() == b.last());
        assert(hosts_where::<V>(a + b, p) =~= hosts_where::<V>(a, p) + hosts_where::<V>(b, p));
    }
}

/// Of several outcomes for one host the last is the one that is reported, as it is.
pub proof fn the_last_outcome_counts<T>(outcomes: Seq<(Seq<char>, T)>, h: Seq<char>, i: int)
    requires
        is_last_for(outcomes, h, i),
    ensures
        by_host(outcomes).dom().contains(h),
        by_host(outcomes)[h] == outcomes[i].1,
{
    every_host_is_reported(outcomes);
    assert(by_host(outcomes).dom().contains(outcomes[i].0));
    let k: int = choose|k: int| #[trigger]
        is_last_for(outcomes, h, k) && by_host(outcomes)[h] == outcomes[k].1;
    if k < i {
        assert(outcomes[i].0 != h);
    }
    if i < k {
        assert(outcomes[k].0 != h);
    }
}

/// What finished in time is handed on as it is; what did not is an error that says
/// what was to be done, with which host, and that it timed out.
pub proof fn only_what_is_late_times_out<T>(what: Seq<char>, host: Seq<char>, v: T, e: Error)
    ensures
        timely(what, host, Some(Ok::<T, Error>(v))) == Ok::<T, ErrorView>(v),
        timely::<T>(what, host, Some(Err(e))) == Err::<T, ErrorView>(e@),
        timely::<T>(what, host, None) == Err::<T, ErrorView>(
            ErrorView::Config(what + host + " timed out"@),
        ),
        held(Ok::<T, Error>(v)) == Ok::<T, ErrorView>(v),
        held::<T>(Err(e)) == Err::<T, ErrorView>(e@),
{
}

/// The failed hosts of some entries and of those after them follow each other.
pub proof fn failures_are_listed_one_by_one<V: Outcome>(
    a: Seq<(Seq<char>, V::V)>,
    e: (Seq<char>, V::V),
    b: Seq<(Seq<char>, V::V)>,
)
    ensures
        failures::<V>(seq![e]) == (if V::succeeded(e.1) {
            Seq::<Seq<char>>::empty()
        } else {
            seq![V::about(e.1)]
        }),
        failures::<V>(a + b) == failures::<V>(a) + failures::<V>(b),
{
    hosts_are_listed_one_by_one::<V>(a, e, b, |v: V::V| !V::succeeded(v));
}

} // verus!
