//! The decisions of the crawl pipeline, separated from its plumbing:
//! what a fetcher does with a dequeued URL (robots evaluation, the
//! crawl-delay loopback, the visited/failed outcome), what the
//! processor does with a fetched page (record assembly, outlink
//! acceptance, the link cache and its flush), and when the pipeline
//! may stop. The channels, tasks and HTTP calls around these
//! decisions live outside the library.
use vstd::prelude::*;
use vstd::string::StringSliceAdditionalSpecFns;

use crate::crawl_utils::{
    disperse_domains, dispersable_ms, entries_ms, interleaved, models_of, seed_models, soup_links,
    spec_filter_links,
};
use crate::html::{html_links, html_text};
use crate::lang::{has_language, spec_has_language, Lang, LangDetector};
use crate::response::{wet_record_for, Response, WetRecord};
use crate::robots::{
    delay_passed_spec, robot_model, robots_allows, robots_txt_url, verdict_of, Robots,
    RobotsVerdict,
};
use crate::strutil::eq_str;
use crate::urlparse::url_parse;
use crate::{CrawlCounters, CrawlEntry, EntryModel, ScrapEntry};

verus! {

/// The number of cached outlinks that forces a flush to the fetch
/// channel.
pub const LINK_CACHE_THRESHOLD: usize = 400;

/// The set of URLs ever enqueued, owned by the processor. A URL goes
/// to the fetch channel only when inserting it here reports absence.
pub struct KnownUrls {
    pub urls: Vec<String>,
}

impl KnownUrls {
    /// Each URL is recorded once.
    pub open spec fn wf(self) -> bool {
        forall|i: int, j: int|
            0 <= i < j < self.urls@.len() ==> (#[trigger] self.urls@[i])@ != (
            #[trigger] self.urls@[j])@
    }

    /// The set of recorded URLs.
    pub open spec fn spec_set(self) -> Set<Seq<char>> {
        Set::new(|u: Seq<char>| self.urls.deep_view().contains(u))
    }

    pub fn new() -> (r: Self)
        ensures
            r.wf(),
            r.spec_set() == Set::<Seq<char>>::empty(),
    {
        let r = KnownUrls { urls: Vec::new() };
        proof {
            assert(r.spec_set() =~= Set::<Seq<char>>::empty());
        }
        r
    }

    fn contains(&self, url: &str) -> (r: bool)
        ensures
            r == self.spec_set().contains(url@),
    {
        let n = self.urls.len();
        let mut i: usize = 0;
        while i < n
            invariant
                n == self.urls@.len(),
                i <= n,
                forall|k: int| 0 <= k < i ==> (#[trigger] self.urls@[k])@ != url@,
            decreases n - i,
        {
            if eq_str(self.urls[i].as_str(), url) {
                proof {
                    assert(self.urls.deep_view()[i as int] == url@);
                }
                return true;
            }
            i = i + 1;
        }
        proof {
            if self.urls.deep_view().contains(url@) {
                let k = choose|k: int|
                    0 <= k < self.urls.deep_view().len() && self.urls.deep_view()[k] == url@;
                assert((self.urls@[k])@ == url@);
            }
        }
        false
    }

    /// Records a URL. Reports true exactly when the URL was absent;
    /// inserting a URL twice reports presence the second time.
    pub fn insert(&mut self, url: String) -> (r: bool)
        requires
            old(self).wf(),
        ensures
            final(self).wf(),
            r == !old(self).spec_set().contains(url@),
            final(self).spec_set() == old(self).spec_set().insert(url@),
    {
        if self.contains(url.as_str()) {
            proof {
                assert(final(self).spec_set() =~= old(self).spec_set().insert(url@));
            }
            false
        } else {
            let ghost old_self = *self;
            self.urls.push(url);
            proof {
                let n = old_self.urls@.len() as int;
                assert((self.urls@[n])@ == url@);
                assert forall|i: int, j: int|
                    0 <= i < j < self.urls@.len() implies (#[trigger] self.urls@[i])@ != (
                #[trigger] self.urls@[j])@ by {
                    if j < n {
                        assert(old_self.urls@[i] == self.urls@[i]);
                    } else {
                        assert(j == n);
                        if (self.urls@[i])@ == url@ {
                            assert(old_self.urls.deep_view()[i] == url@);
                            assert(old_self.urls.deep_view().contains(url@));
                        }
                    }
                }
                assert forall|u: Seq<char>|
                    self.urls.deep_view().contains(u) <==> (old_self.urls.deep_view().contains(u)
                        || u == url@) by {
                    if self.urls.deep_view().contains(u) {
                        let k = choose|k: int|
                            0 <= k < self.urls.deep_view().len() && self.urls.deep_view()[k] == u;
                        if k < n {
                            assert(old_self.urls.deep_view()[k] == u);
                        }
                    }
                    if old_self.urls.deep_view().contains(u) {
                        let k = choose|k: int|
                            0 <= k < old_self.urls.deep_view().len()
                                && old_self.urls.deep_view()[k] == u;
                        assert(self.urls.deep_view()[k] == u);
                    }
                    if u == url@ {
                        assert(self.urls.deep_view()[n] == u);
                    }
                }
                assert(self.spec_set() =~= old_self.spec_set().insert(url@));
            }
            true
        }
    }

    /// Seeds the set with the URLs of the initial entries.
    pub fn from_entries(seeds: &Vec<CrawlEntry>) -> (r: Self)
        ensures
            r.wf(),
            forall|u: Seq<char>|
                #[trigger] r.spec_set().contains(u) <==> exists|i: int|
                    0 <= i < seeds@.len() && (#[trigger] seeds@[i])@.url == u,
    {
        let mut r = KnownUrls::new();
        let n = seeds.len();
        let mut i: usize = 0;
        while i < n
            invariant
                n == seeds@.len(),
                i <= n,
                r.wf(),
                forall|u: Seq<char>|
                    #[trigger] r.spec_set().contains(u) <==> exists|k: int|
                        0 <= k < i && (#[trigger] seeds@[k])@.url == u,
            decreases n - i,
        {
            let ghost before = r;
            r.insert(seeds[i].url.clone());
            proof {
                assert forall|u: Seq<char>|
                    #[trigger] r.spec_set().contains(u) <==> exists|k: int|
                        0 <= k < i + 1 && (#[trigger] seeds@[k])@.url == u by {
                    if r.spec_set().contains(u) {
                        if u == (seeds@[i as int])@.url {
                            assert(0 <= i < i + 1 && (seeds@[i as int])@.url == u);
                        } else {
                            assert(before.spec_set().contains(u));
                        }
                    }
                    if exists|k: int| 0 <= k < i + 1 && (#[trigger] seeds@[k])@.url == u {
                        let k = choose|k: int| 0 <= k < i + 1 && (#[trigger] seeds@[k])@.url == u;
                        if k < i {
                            assert(before.spec_set().contains(u));
                            assert(r.spec_set().contains(u));
                        } else {
                            assert(r.spec_set() == before.spec_set().insert(
                                (seeds@[i as int])@.url,
                            ));
                        }
                    }
                }
            }
            i = i + 1;
        }
        r
    }
}

/// Whether a URL may be enqueued as an outlink: it parses, and its
/// scheme is `http` or `https`.
pub open spec fn url_acceptable(u: Seq<char>) -> bool {
    match url_parse(u) {
        Some(m) => m.scheme == "http"@ || m.scheme == "https"@,
        None => false,
    }
}

fn check_url_acceptable(url: &str) -> (r: bool)
    ensures
        r == url_acceptable(url@),
{
    match crate::urlparse::parse_url(url) {
        Some(p) => eq_str(p.scheme.as_str(), "http") || eq_str(p.scheme.as_str(), "https"),
        None => false,
    }
}

/// The outlink gate run over a candidate list, front to back: a
/// candidate is kept when its URL is acceptable and not yet known, and
/// the known set grows by each kept URL at once.
pub open spec fn spec_accept(cands: Seq<EntryModel>, known: Set<Seq<char>>) -> (Seq<EntryModel>, Set<
    Seq<char>,
>)
    decreases cands.len(),
{
    if cands.len() == 0 {
        (Seq::empty(), known)
    } else {
        let (prev, k) = spec_accept(cands.drop_last(), known);
        let last = cands.last();
        if url_acceptable(last.url) && !k.contains(last.url) {
            (prev.push(last), k.insert(last.url))
        } else {
            (prev, k)
        }
    }
}

/// What the outlink gate promises: every kept candidate was absent
/// from the starting set, no URL is kept twice, and the final set is
/// the starting set plus exactly the kept URLs. This is why no URL is
/// enqueued twice through the outlink path.
pub proof fn lemma_accept_fresh_distinct(cands: Seq<EntryModel>, known: Set<Seq<char>>)
    ensures
        forall|i: int|
            0 <= i < spec_accept(cands, known).0.len() ==> !known.contains(
                (#[trigger] spec_accept(cands, known).0[i]).url,
            ),
        forall|i: int, j: int|
            0 <= i < j < spec_accept(cands, known).0.len() ==> (#[trigger] spec_accept(
                cands,
                known,
            ).0[i]).url != (#[trigger] spec_accept(cands, known).0[j]).url,
        forall|u: Seq<char>|
            #[trigger] spec_accept(cands, known).1.contains(u) <==> known.contains(u) || exists|
                i: int,
            | 0 <= i < spec_accept(cands, known).0.len() && (#[trigger] spec_accept(
                cands,
                known,
            ).0[i]).url == u,
    decreases cands.len(),
{
    if cands.len() > 0 {
        lemma_accept_fresh_distinct(cands.drop_last(), known);
        let (prev, k) = spec_accept(cands.drop_last(), known);
        let (cur, k2) = spec_accept(cands, known);
        let last = cands.last();
        if url_acceptable(last.url) && !k.contains(last.url) {
            assert forall|i: int| 0 <= i < cur.len() implies !known.contains(
                (#[trigger] cur[i]).url,
            ) by {
                if i < prev.len() {
                    assert(cur[i] == prev[i]);
                } else {
                    assert(cur[i] == last);
                }
            }
            assert forall|i: int, j: int| 0 <= i < j < cur.len() implies (#[trigger] cur[i]).url
                != (#[trigger] cur[j]).url by {
                if j < prev.len() {
                    assert(cur[i] == prev[i] && cur[j] == prev[j]);
                } else {
                    assert(cur[j] == last);
                    assert(cur[i] == prev[i]);
                    assert(k.contains(prev[i].url));
                }
            }
            assert forall|u: Seq<char>| #[trigger] k2.contains(u) implies (known.contains(u)
                || exists|i: int| 0 <= i < cur.len() && (#[trigger] cur[i]).url == u) by {
                if u == last.url {
                    assert(cur[cur.len() - 1].url == u);
                } else {
                    assert(k.contains(u));
                    if !known.contains(u) {
                        let i = choose|i: int| 0 <= i < prev.len() && (#[trigger] prev[i]).url == u;
                        assert(cur[i].url == u);
                    }
                }
            }
            assert forall|u: Seq<char>|
                (known.contains(u) || exists|i: int|
                    0 <= i < cur.len() && (#[trigger] cur[i]).url == u) implies #[trigger] k2.contains(
                u,
            ) by {
                if !known.contains(u) {
                    let i = choose|i: int| 0 <= i < cur.len() && (#[trigger] cur[i]).url == u;
                    if i < prev.len() {
                        assert(k.contains(u));
                    }
                }
            }
        } else {
            assert forall|u: Seq<char>| #[trigger] k2.contains(u) implies (known.contains(u)
                || exists|i: int| 0 <= i < cur.len() && (#[trigger] cur[i]).url == u) by {
                if !known.contains(u) {
                    let i = choose|i: int| 0 <= i < prev.len() && (#[trigger] prev[i]).url == u;
                    assert(cur[i].url == u);
                }
            }
            assert forall|u: Seq<char>|
                (known.contains(u) || exists|i: int|
                    0 <= i < cur.len() && (#[trigger] cur[i]).url == u) implies #[trigger] k2.contains(
                u,
            ) by {
                if !known.contains(u) {
                    let i = choose|i: int| 0 <= i < cur.len() && (#[trigger] cur[i]).url == u;
                    assert(prev[i].url == u);
                }
            }
        }
    }
}

/// Filters outlink candidates through the known-URL set: a candidate
/// survives when its URL parses with an `http` or `https` scheme and
/// was not known; each survivor is recorded at once, so a URL is kept
/// at most once even inside one batch.
pub fn accept_outlinks(known: &mut KnownUrls, candidates: Vec<CrawlEntry>) -> (r: Vec<CrawlEntry>)
    requires
        old(known).wf(),
    ensures
        final(known).wf(),
        models_of(r@) == spec_accept(models_of(candidates@), old(known).spec_set()).0,
        final(known).spec_set() == spec_accept(models_of(candidates@), old(known).spec_set()).1,
{
    let mut kept: Vec<CrawlEntry> = Vec::new();
    let n = candidates.len();
    let mut i: usize = 0;
    while i < n
        invariant
            n == candidates@.len(),
            i <= n,
            known.wf(),
            models_of(kept@) == spec_accept(
                models_of(candidates@).take(i as int),
                old(known).spec_set(),
            ).0,
            known.spec_set() == spec_accept(
                models_of(candidates@).take(i as int),
                old(known).spec_set(),
            ).1,
        decreases n - i,
    {
        proof {
            let cm = models_of(candidates@);
            assert(cm.take(i + 1).drop_last() =~= cm.take(i as int));
            assert(cm.take(i + 1).last() == cm[i as int]);
            assert(cm[i as int] == candidates@[i as int]@);
        }
        let acceptable = check_url_acceptable(candidates[i].url.as_str());
        if acceptable {
            let fresh = known.insert(candidates[i].url.clone());
            if fresh {
                kept.push(CrawlEntry::new(
                    candidates[i].url.clone(),
                    candidates[i].crawl_depth,
                ));
                proof {
                    assert(models_of(kept@) =~~= spec_accept(
                        models_of(candidates@).take(i + 1),
                        old(known).spec_set(),
                    ).0);
                    assert(known.spec_set() =~= spec_accept(
                        models_of(candidates@).take(i + 1),
                        old(known).spec_set(),
                    ).1);
                }
            } else {
                proof {
                    assert(known.spec_set() =~= spec_accept(
                        models_of(candidates@).take(i + 1),
                        old(known).spec_set(),
                    ).1);
                    assert(models_of(kept@) =~~= spec_accept(
                        models_of(candidates@).take(i + 1),
                        old(known).spec_set(),
                    ).0);
                }
            }
        } else {
            proof {
                assert(known.spec_set() =~= spec_accept(
                    models_of(candidates@).take(i + 1),
                    old(known).spec_set(),
                ).1);
                assert(models_of(kept@) =~~= spec_accept(
                    models_of(candidates@).take(i + 1),
                    old(known).spec_set(),
                ).0);
            }
        }
        i = i + 1;
    }
    proof {
        assert(models_of(candidates@).take(n as int) =~= models_of(candidates@));
    }
    kept
}

/// All anchors survive an empty protocol filter.
proof fn lemma_filter_links_all(links: Seq<Seq<char>>, protos: Seq<Seq<char>>)
    requires
        protos.len() == 0,
    ensures
        spec_filter_links(links, protos) == links,
    decreases links.len(),
{
    if links.len() > 0 {
        lemma_filter_links_all(links.drop_last(), protos);
        assert(spec_filter_links(links, protos) =~= links);
    }
}

/// Turns one fetched page into its WARC record and, when the entry
/// still has hops left and the page passes the language filter, the
/// candidate outlink entries, each carrying one hop less.
pub fn process_crawled(
    entry: &ScrapEntry,
    lang_detector: &LangDetector,
    accept_langs: &[Lang],
    accept_all: bool,
) -> (r: (WetRecord, Option<Vec<CrawlEntry>>))
    ensures
        wet_record_for(r.0, entry.response),
        r.1 is Some <==> entry.crawl_depth != 0 && (accept_all || spec_has_language(
            lang_detector.spec_langs(),
            html_text(entry.response.data@),
            accept_langs@,
        )),
        r.1 matches Some(links) ==> models_of(links@) == seed_models(
            html_links(entry.response.data@),
            (entry.crawl_depth - 1) as u8,
        ),
{
    let soup = entry.response.to_soup();
    let wet_record = entry.response.to_warcrecord(Some(&soup));
    let expand = if entry.crawl_depth == 0 {
        false
    } else if accept_all {
        true
    } else {
        has_language(lang_detector, wet_record.body.as_str(), accept_langs)
    };
    if expand {
        let child_depth = entry.crawl_depth - 1;
        let no_protocols: Vec<String> = Vec::new();
        let links = soup_links(&soup, no_protocols.as_slice());
        proof {
            lemma_filter_links_all(html_links(entry.response.data@), no_protocols.deep_view());
        }
        let mut out: Vec<CrawlEntry> = Vec::new();
        let m = links.len();
        let mut j: usize = 0;
        while j < m
            invariant
                m == links@.len(),
                j <= m,
                links.deep_view() == html_links(entry.response.data@),
                child_depth == (entry.crawl_depth - 1) as u8,
                models_of(out@) == seed_models(
                    html_links(entry.response.data@).take(j as int),
                    child_depth,
                ),
            decreases m - j,
        {
            let ghost old_out = out@;
            out.push(CrawlEntry::new(links[j].clone(), child_depth));
            proof {
                let hl = html_links(entry.response.data@);
                assert(hl.take(j + 1).drop_last() =~= hl.take(j as int));
                assert(hl.take(j + 1).last() == hl[j as int]);
                assert(links.deep_view()[j as int] == (links@[j as int])@);
                let lhs = models_of(out@);
                let rhs = seed_models(hl.take(j + 1), child_depth);
                let prev = seed_models(hl.take(j as int), child_depth);
                assert(old_out.len() == prev.len());
                assert(hl.len() == m as int);
                assert(lhs.len() == rhs.len());
                assert forall|k: int| 0 <= k < lhs.len() implies lhs[k] == rhs[k] by {
                    assert(lhs[k] == out@[k]@);
                    assert(rhs[k] == (EntryModel {
                        url: hl.take(j + 1)[k],
                        depth: child_depth,
                    }));
                    if k < j {
                        assert(out@[k] == old_out[k]);
                        assert(models_of(old_out)[k] == prev[k]);
                        assert(prev[k] == (EntryModel {
                            url: hl.take(j as int)[k],
                            depth: child_depth,
                        }));
                    } else {
                        assert(out@[k].url@ == hl[j as int]);
                    }
                }
                assert(lhs =~= rhs);
            }
            j = j + 1;
        }
        proof {
            let hl = html_links(entry.response.data@);
            assert(hl.take(m as int) =~= hl);
        }
        (wet_record, Some(out))
    } else {
        (wet_record, None)
    }
}

/// Adds the accepted outlinks to the link cache and decides whether to
/// flush: the cache is flushed when the fetch channel is empty or the
/// cache has reached the threshold. A flushed batch is dispersed, and
/// the `extra` and `queued` counters grow by its size.
pub fn cache_links(
    link_cache: &mut Vec<CrawlEntry>,
    links: Vec<CrawlEntry>,
    fetch_ch_empty: bool,
    counters: &mut CrawlCounters,
) -> (r: Option<Vec<CrawlEntry>>)
    ensures
        match r {
            Some(batch) => {
                &&& fetch_ch_empty || old(link_cache)@.len() + links@.len()
                    >= LINK_CACHE_THRESHOLD as int
                &&& entries_ms(models_of(batch@)) == dispersable_ms(
                    models_of(old(link_cache)@ + links@),
                )
                &&& interleaved(models_of(batch@))
                &&& final(link_cache)@.len() == 0
                &&& final(counters).extra == crate::wrap_add64(
                    old(counters).extra,
                    batch@.len() as u64,
                )
                &&& final(counters).queued == crate::wrap_add64(
                    old(counters).queued,
                    batch@.len() as u64,
                )
                &&& final(counters).visited == old(counters).visited
                &&& final(counters).failed == old(counters).failed
                &&& final(counters).initial == old(counters).initial
            },
            None => {
                &&& !fetch_ch_empty && old(link_cache)@.len() + links@.len()
                    < LINK_CACHE_THRESHOLD as int
                &&& final(link_cache)@ == old(link_cache)@ + links@
                &&& *final(counters) == *old(counters)
            },
        },
{
    let mut links = links;
    link_cache.append(&mut links);
    let should_flush = fetch_ch_empty || link_cache.len() >= LINK_CACHE_THRESHOLD;
    if should_flush {
        let mut cached: Vec<CrawlEntry> = Vec::new();
        core::mem::swap(link_cache, &mut cached);
        let dispersed = disperse_domains(cached);
        let len64 = dispersed.len() as u64;
        counters.extra = counters.extra.wrapping_add(len64);
        counters.queued = counters.queued.wrapping_add(len64);
        Some(dispersed)
    } else {
        None
    }
}

/// The processor's quiescence rule: it stops only when a receive has
/// timed out and the fetch channel was observed empty.
pub fn should_stop(recv_timed_out: bool, fetch_ch_empty: bool) -> (r: bool)
    ensures
        r == (recv_timed_out && fetch_ch_empty),
{
    recv_timed_out && fetch_ch_empty
}

/// Books a successful fetch: `visited` grows by one and the page
/// travels on to the processor with its remaining hop count.
pub fn fetch_success(counters: &mut CrawlCounters, response: Response, depth: u8) -> (r: ScrapEntry)
    ensures
        r.response == response,
        r.crawl_depth == depth,
        final(counters).visited == crate::wrap_add64(old(counters).visited, 1),
        final(counters).failed == old(counters).failed,
        final(counters).initial == old(counters).initial,
        final(counters).extra == old(counters).extra,
        final(counters).queued == old(counters).queued,
{
    counters.increment_visited();
    ScrapEntry { response, crawl_depth: depth }
}

/// What a fetcher learns about a URL before fetching it: the URL may
/// be malformed, its origin may be missing from the robots cache, or
/// the cached rules already give a verdict.
pub enum RobotsPrecheck {
    Malformed,
    Unknown { origin: String, robots_url: Option<String> },
    Known { origin: String, verdict: RobotsVerdict },
}

/// Evaluates a URL against the robots cache without fetching anything:
/// a malformed URL is reported as such; a cached origin yields the
/// verdict of its rules; an uncached origin yields the robots.txt URL
/// to fetch.
pub fn eval_robots_cached(robots: &Robots, url: &str, now_secs: u64) -> (r: RobotsPrecheck)
    requires
        robots.wf(),
    ensures
        match r {
            RobotsPrecheck::Malformed => url_parse(url@) is None || (url_parse(
                url@,
            ) matches Some(m) && m.host is None),
            RobotsPrecheck::Unknown { origin, robots_url } => {
                &&& url_parse(url@) matches Some(m) && m.host matches Some(h) && origin@ == m.scheme
                    + "://"@ + h
                &&& !robots.spec_has(origin@)
                &&& match robots_url {
                    Some(u) => robots_txt_url(origin@) == Some(u@),
                    None => robots_txt_url(origin@) is None,
                }
            },
            RobotsPrecheck::Known { origin, verdict } => {
                &&& url_parse(url@) matches Some(m) && m.host matches Some(h) && origin@ == m.scheme
                    + "://"@ + h
                &&& robots.spec_has(origin@)
                &&& verdict == verdict_of(
                    robots_allows(
                        robots.spec_rules(origin@).spec_agent(),
                        robots.spec_rules(origin@).spec_txt(),
                        url@,
                    ),
                    delay_passed_spec(
                        robots.spec_rules(origin@).spec_delay(),
                        robots.spec_rules(origin@).spec_last_visited(),
                        now_secs,
                    ),
                )
            },
        },
{
    match Robots::valid_url(url) {
        None => RobotsPrecheck::Malformed,
        Some(parsed) => {
            match Robots::to_domain(&parsed) {
                None => RobotsPrecheck::Malformed,
                Some(origin) => {
                    if robots.has_domain(origin.as_str()) {
                        let verdict = robots.can_visit_url(url, origin.as_str(), now_secs);
                        RobotsPrecheck::Known { origin, verdict }
                    } else {
                        let robots_url = Robots::robots_url(origin.as_str());
                        RobotsPrecheck::Unknown { origin, robots_url }
                    }
                },
            }
        },
    }
}

/// What the fetcher does after the robots.txt fetch came back: a
/// network failure is permissive and leaves the cache alone; a body
/// that does not parse forbids the URL for this attempt and leaves the
/// cache alone; otherwise the parsed rules are stored and give the
/// verdict.
pub fn robots_after_fetch(
    robots: &mut Robots,
    origin: &str,
    fetch_result: Option<&str>,
    url: &str,
    now_secs: u64,
) -> (r: Option<RobotsVerdict>)
    requires
        old(robots).wf(),
    ensures
        final(robots).wf(),
        match fetch_result {
            None => r is None && *final(robots) == *old(robots),
            Some(txt) => {
                if robot_model("*"@, txt.spec_bytes()) is None {
                    r == Some(RobotsVerdict::ForbiddenPath) && *final(robots) == *old(robots)
                } else {
                    &&& final(robots).spec_has(origin@)
                    &&& !old(robots).spec_has(origin@) ==> {
                        &&& final(robots).spec_rules(origin@).spec_agent() == "*"@
                        &&& final(robots).spec_rules(origin@).spec_txt() == txt.spec_bytes()
                        &&& robot_model("*"@, txt.spec_bytes()) matches Some(m) && m.delay_secs
                            == final(robots).spec_rules(origin@).spec_delay()
                        &&& final(robots).spec_rules(origin@).spec_last_visited() is None
                    }
                    &&& r == Some(
                        verdict_of(
                            robots_allows(
                                final(robots).spec_rules(origin@).spec_agent(),
                                final(robots).spec_rules(origin@).spec_txt(),
                                url@,
                            ),
                            delay_passed_spec(
                                final(robots).spec_rules(origin@).spec_delay(),
                                final(robots).spec_rules(origin@).spec_last_visited(),
                                now_secs,
                            ),
                        ),
                    )
                }
            },
        },
{
    match fetch_result {
        None => None,
        Some(txt) => {
            if robots.insert_entry(origin, txt) {
                Some(robots.can_visit_url(url, origin, now_secs))
            } else {
                Some(RobotsVerdict::ForbiddenPath)
            }
        },
    }
}

/// What the fetcher does with an entry after the robots evaluation.
#[derive(Clone, Copy, Debug, PartialEq, Eq, Structural)]
pub enum FetchAction {
    Fetch,
    Discard,
    Requeue,
}

/// The action a verdict calls for: ForbiddenPath drops the entry,
/// CrawlDelay requeues it, and Proceed records the visit time before
/// the fetch. Where no verdict came back, the entry is fetched and
/// nothing is recorded.
pub fn verdict_action(
    robots: &mut Robots,
    verdict: Option<RobotsVerdict>,
    origin: &str,
    now_secs: u64,
) -> (r: FetchAction)
    requires
        old(robots).wf(),
        verdict == Some(RobotsVerdict::Proceed) ==> old(robots).spec_has(origin@),
    ensures
        final(robots).wf(),
        match verdict {
            None => r == FetchAction::Fetch && *final(robots) == *old(robots),
            Some(RobotsVerdict::ForbiddenPath) => r == FetchAction::Discard && *final(robots)
                == *old(robots),
            Some(RobotsVerdict::CrawlDelay) => r == FetchAction::Requeue && *final(robots) == *old(
                robots,
            ),
            Some(RobotsVerdict::Proceed) => {
                &&& r == FetchAction::Fetch
                &&& final(robots).spec_has(origin@)
                &&& final(robots).spec_rules(origin@).spec_last_visited() == Some(now_secs)
            },
        },
{
    match verdict {
        None => FetchAction::Fetch,
        Some(RobotsVerdict::ForbiddenPath) => FetchAction::Discard,
        Some(RobotsVerdict::CrawlDelay) => FetchAction::Requeue,
        Some(RobotsVerdict::Proceed) => {
            robots.update_domain(origin, now_secs);
            FetchAction::Fetch
        },
    }
}

} // verus!
