//! A model of the whole crawl pipeline, against which its global
//! guarantees are proved. The state holds what the channels and the
//! shared sets hold; each event mirrors the contract of the library
//! function that drives it: `Dequeue` a fetcher drawing from the fetch
//! channel, `Loopback` the crawl-delay requeue of an entry already
//! drawn, `Outcome` the visited-or-failed bookkeeping of
//! `fetch_success` and the failure path (guarded by the fetcher's
//! visited set, a `KnownUrls`), `Emit` a record leaving for the
//! writer, `EnqueueBatch` an outlink flush gated by `accept_outlinks`,
//! and `Stop` the quiescence rule of `should_stop`.
use vstd::multiset::Multiset;
use vstd::prelude::*;

use crate::crawl::spec_accept;
use crate::EntryModel;

verus! {

/// The pipeline's observable state.
#[verifier::ext_equal]
pub ghost struct PipeState {
    /// URLs currently in the fetch channel.
    pub queue: Multiset<Seq<char>>,
    /// The processor's known-URL set.
    pub known: Set<Seq<char>>,
    /// Every URL ever enqueued, seeds included.
    pub enqueued: Set<Seq<char>>,
    /// One occurrence per enqueue event through the seed or outlink
    /// path; the crawl-delay loopback re-uses an entry and adds none.
    pub enqueue_events: Multiset<Seq<char>>,
    /// Every URL a fetcher ever drew from the fetch channel.
    pub dequeued: Set<Seq<char>>,
    /// Every URL whose fetch concluded, in `visited` or in `failed`.
    pub fetched: Set<Seq<char>>,
    pub visited: nat,
    pub failed: nat,
    /// URLs of the records sent to the writer.
    pub emitted: Multiset<Seq<char>>,
    pub stopped: bool,
}

/// The state after the deduplicated seed list is enqueued: the seeds
/// are in the channel and form the known set.
pub open spec fn init_state(seeds: Seq<Seq<char>>) -> PipeState {
    PipeState {
        queue: seeds.to_multiset(),
        known: seeds.to_set(),
        enqueued: seeds.to_set(),
        enqueue_events: seeds.to_multiset(),
        dequeued: Set::empty(),
        fetched: Set::empty(),
        visited: 0,
        failed: 0,
        emitted: Multiset::empty(),
        stopped: false,
    }
}

/// One observable step of the pipeline.
pub ghost enum PipeEvent {
    Dequeue { url: Seq<char> },
    Loopback { url: Seq<char> },
    Outcome { url: Seq<char>, ok: bool },
    Emit { url: Seq<char> },
    EnqueueBatch { urls: Seq<Seq<char>> },
    Stop,
}

/// The transition relation. Each arm states no more than the
/// corresponding library contract guarantees: a batch is enqueued only
/// with fresh, pairwise distinct URLs (`accept_outlinks`), an outcome
/// is booked once per URL (the fetcher's visited set), and the
/// pipeline stops only on an empty channel (`should_stop`).
pub open spec fn step(pre: PipeState, ev: PipeEvent, post: PipeState) -> bool {
    !pre.stopped && match ev {
        PipeEvent::Dequeue { url } => pre.queue.count(url) > 0 && post == (PipeState {
            queue: pre.queue.remove(url),
            dequeued: pre.dequeued.insert(url),
            ..pre
        }),
        PipeEvent::Loopback { url } => pre.dequeued.contains(url) && pre.enqueued.contains(url)
            && post == (PipeState { queue: pre.queue.insert(url), ..pre }),
        PipeEvent::Outcome { url, ok } => pre.dequeued.contains(url) && !pre.fetched.contains(url)
            && post == (PipeState {
            fetched: pre.fetched.insert(url),
            visited: if ok {
                pre.visited + 1
            } else {
                pre.visited
            },
            failed: if ok {
                pre.failed
            } else {
                pre.failed + 1
            },
            ..pre
        }),
        PipeEvent::Emit { url } => pre.dequeued.contains(url) && pre.fetched.contains(url) && post
            == (PipeState { emitted: pre.emitted.insert(url), ..pre }),
        PipeEvent::EnqueueBatch { urls } => (forall|i: int|
            0 <= i < urls.len() ==> !pre.known.contains(#[trigger] urls[i]))
            && urls.no_duplicates() && post == (PipeState {
            queue: pre.queue.add(urls.to_multiset()),
            known: pre.known.union(urls.to_set()),
            enqueued: pre.enqueued.union(urls.to_set()),
            enqueue_events: pre.enqueue_events.add(urls.to_multiset()),
            ..pre
        }),
        PipeEvent::Stop => pre.queue.len() == 0 && post == (PipeState { stopped: true, ..pre }),
    }
}

/// The inductive invariant of the pipeline.
pub open spec fn inv(s: PipeState) -> bool {
    &&& s.enqueued.subset_of(s.known)
    &&& forall|u: Seq<char>| #[trigger] s.enqueue_events.count(u) <= 1
    &&& forall|u: Seq<char>| #[trigger] s.enqueue_events.count(u) > 0 <==> s.enqueued.contains(u)
    &&& forall|u: Seq<char>| #[trigger] s.queue.count(u) > 0 ==> s.enqueued.contains(u)
    &&& s.dequeued.subset_of(s.enqueued)
    &&& s.fetched.subset_of(s.dequeued)
    &&& s.dequeued.finite()
    &&& s.fetched.finite()
    &&& s.visited + s.failed == s.fetched.len()
    &&& forall|u: Seq<char>| #[trigger] s.emitted.count(u) > 0 ==> s.dequeued.contains(u)
    &&& s.stopped ==> s.queue.len() == 0
}

/// The invariant holds at the start of a crawl whose seed list has
/// been reduced to distinct URLs.
pub proof fn lemma_init_inv(seeds: Seq<Seq<char>>)
    requires
        seeds.no_duplicates(),
    ensures
        inv(init_state(seeds)),
{
    broadcast use vstd::multiset::group_multiset_axioms, vstd::set::group_set_axioms;
    broadcast use vstd::seq_lib::group_to_multiset_ensures;

    let s = init_state(seeds);
    seeds.lemma_multiset_has_no_duplicates();
    assert forall|u: Seq<char>| #[trigger] s.enqueue_events.count(u) <= 1 by {
        if seeds.to_multiset().count(u) > 0 {
            assert(seeds.to_multiset().contains(u));
        }
    }
    assert forall|u: Seq<char>| #[trigger] s.enqueue_events.count(u) > 0 <==> s.enqueued.contains(
        u,
    ) by {
        assert(seeds.to_multiset().count(u) > 0 <==> seeds.to_multiset().contains(u));
        assert(seeds.to_multiset().contains(u) <==> seeds.contains(u));
    }
    assert forall|u: Seq<char>| #[trigger] s.queue.count(u) > 0 implies s.enqueued.contains(u) by {
        assert(seeds.to_multiset().contains(u));
    }
}

/// Every step preserves the invariant.
pub proof fn lemma_step_inv(pre: PipeState, ev: PipeEvent, post: PipeState)
    requires
        inv(pre),
        step(pre, ev, post),
    ensures
        inv(post),
{
    broadcast use vstd::multiset::group_multiset_axioms, vstd::set::group_set_axioms;
    broadcast use vstd::seq_lib::group_to_multiset_ensures;

    match ev {
        PipeEvent::Dequeue { url } => {
            assert(pre.enqueued.contains(url));
        },
        PipeEvent::Loopback { url } => {},
        PipeEvent::Outcome { url, ok } => {
            assert(post.fetched.len() == pre.fetched.len() + 1);
        },
        PipeEvent::Emit { url } => {},
        PipeEvent::EnqueueBatch { urls } => {
            urls.lemma_multiset_has_no_duplicates();
            assert forall|u: Seq<char>| #[trigger] post.enqueue_events.count(u) <= 1 by {
                assert(post.enqueue_events.count(u) == pre.enqueue_events.count(u)
                    + urls.to_multiset().count(u));
                if urls.to_multiset().count(u) > 0 {
                    assert(urls.to_multiset().contains(u));
                    assert(urls.contains(u));
                    let i = choose|i: int| 0 <= i < urls.len() && urls[i] == u;
                    assert(!pre.known.contains(u));
                    if pre.enqueue_events.count(u) > 0 {
                        assert(pre.enqueued.contains(u));
                        assert(pre.known.contains(u));
                    }
                }
            }
            assert forall|u: Seq<char>| #[trigger] post.enqueue_events.count(u) > 0 <==> post.enqueued.contains(
                u,
            ) by {
                assert(post.enqueue_events.count(u) == pre.enqueue_events.count(u)
                    + urls.to_multiset().count(u));
                assert(urls.to_multiset().count(u) > 0 <==> urls.to_multiset().contains(u));
                assert(urls.to_multiset().contains(u) <==> urls.contains(u));
                assert(post.enqueued.contains(u) <==> pre.enqueued.contains(u) || urls.to_set().contains(
                    u,
                ));
            }
            assert forall|u: Seq<char>| #[trigger] post.queue.count(u) > 0 implies post.enqueued.contains(
                u,
            ) by {
                assert(post.queue.count(u) == pre.queue.count(u) + urls.to_multiset().count(u));
                if urls.to_multiset().count(u) > 0 {
                    assert(urls.contains(u));
                    assert(urls.to_set().contains(u));
                }
            }
        },
        PipeEvent::Stop => {},
    }
}

/// A finished run of the pipeline: the state is reached from the
/// initial one by the given events.
pub open spec fn run_ok(s0: PipeState, evs: Seq<PipeEvent>, s: PipeState) -> bool
    decreases evs.len(),
{
    if evs.len() == 0 {
        s == s0
    } else {
        exists|mid: PipeState| run_ok(s0, evs.drop_last(), mid) && #[trigger] step(
            mid,
            evs.last(),
            s,
        )
    }
}

/// The invariant holds in every state any run can reach.
pub proof fn lemma_run_inv(seeds: Seq<Seq<char>>, evs: Seq<PipeEvent>, s: PipeState)
    requires
        seeds.no_duplicates(),
        run_ok(init_state(seeds), evs, s),
    ensures
        inv(s),
    decreases evs.len(),
{
    if evs.len() == 0 {
        lemma_init_inv(seeds);
    } else {
        let mid = choose|mid: PipeState|
            run_ok(init_state(seeds), evs.drop_last(), mid) && #[trigger] step(mid, evs.last(), s);
        lemma_run_inv(seeds, evs.drop_last(), mid);
        lemma_step_inv(mid, evs.last(), s);
    }
}

/// No record fabrication: every URL ever sent to the writer was drawn
/// from the fetch channel by a fetcher.
pub proof fn lemma_emitted_was_dequeued(seeds: Seq<Seq<char>>, evs: Seq<PipeEvent>, s: PipeState)
    requires
        seeds.no_duplicates(),
        run_ok(init_state(seeds), evs, s),
    ensures
        forall|u: Seq<char>| #[trigger] s.emitted.count(u) > 0 ==> s.dequeued.contains(u),
{
    lemma_run_inv(seeds, evs, s);
}

/// Each dequeued URL produces at most one of the two outcomes:
/// `visited` and `failed` together never exceed the number of
/// distinct URLs ever dequeued.
pub proof fn lemma_outcomes_bounded(seeds: Seq<Seq<char>>, evs: Seq<PipeEvent>, s: PipeState)
    requires
        seeds.no_duplicates(),
        run_ok(init_state(seeds), evs, s),
    ensures
        s.visited + s.failed <= s.dequeued.len(),
{
    lemma_run_inv(seeds, evs, s);
    vstd::set_lib::lemma_len_subset(s.fetched, s.dequeued);
}

/// At termination the known-URL set holds every URL ever enqueued and
/// the fetch channel is empty.
pub proof fn lemma_termination(seeds: Seq<Seq<char>>, evs: Seq<PipeEvent>, s: PipeState)
    requires
        seeds.no_duplicates(),
        run_ok(init_state(seeds), evs, s),
        s.stopped,
    ensures
        s.enqueued.subset_of(s.known),
        s.queue.len() == 0,
{
    lemma_run_inv(seeds, evs, s);
}

/// No URL is enqueued twice: the known-URL set gate admits each URL
/// to the fetch channel at most once over the whole crawl, the seed
/// enqueue counting as the first time.
pub proof fn lemma_enqueued_at_most_once(seeds: Seq<Seq<char>>, evs: Seq<PipeEvent>, s: PipeState)
    requires
        seeds.no_duplicates(),
        run_ok(init_state(seeds), evs, s),
    ensures
        forall|u: Seq<char>| #[trigger] s.enqueue_events.count(u) <= 1,
{
    lemma_run_inv(seeds, evs, s);
}


/// The URLs of a list of entry models, in order.
pub open spec fn urls_of(kept: Seq<EntryModel>) -> Seq<Seq<char>> {
    kept.map_values(|m: EntryModel| m.url)
}

/// The outlink gate feeds the model: a batch built by
/// `accept_outlinks` against the known set satisfies the
/// `EnqueueBatch` guard — its URLs are pairwise distinct and none was
/// known before the batch.
pub proof fn lemma_gate_enables_enqueue(cands: Seq<EntryModel>, known: Set<Seq<char>>)
    ensures
        urls_of(spec_accept(cands, known).0).no_duplicates(),
        forall|i: int|
            0 <= i < spec_accept(cands, known).0.len() ==> !known.contains(
                #[trigger] urls_of(spec_accept(cands, known).0)[i],
            ),
{
    crate::crawl::lemma_accept_fresh_distinct(cands, known);
    let kept = spec_accept(cands, known).0;
    let urls = urls_of(kept);
    assert forall|i: int, j: int| 0 <= i < j < urls.len() implies urls[i] != urls[j] by {
        assert(urls[i] == kept[i].url);
        assert(urls[j] == kept[j].url);
    }
    assert forall|i: int| 0 <= i < kept.len() implies !known.contains(#[trigger] urls[i]) by {
        assert(urls[i] == kept[i].url);
    }
}

} // verus!
