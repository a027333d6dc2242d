//! The robots cache: parsed robots.txt rules per host origin, the
//! last-visit timestamp used for crawl-delay, and the verdict a URL
//! gets before it may be fetched. Parsing and path matching are done
//! by the `texting_robots` crate behind trusted wrappers; the delay
//! arithmetic and the cache itself are verified.
use vstd::prelude::*;
use vstd::string::StringSliceAdditionalSpecFns;

use crate::strutil::eq_str;
use crate::urlparse::{host_of, parse_url, url_parse, ParsedUrl};

verus! {

#[verifier::external_type_specification]
#[verifier::external_body]
pub struct ExRobot(texting_robots::Robot);

/// What the crawler reads of a parsed robots.txt beyond path
/// permissions: the crawl delay, in whole seconds, rounded up.
pub ghost struct RobotModel {
    pub delay_secs: Option<u64>,
}

/// The result of parsing a robots.txt body for an agent, as a function
/// of the two texts alone; `None` means the parser rejects the body.
pub uninterp spec fn robot_model(agent: Seq<char>, txt: Seq<u8>) -> Option<RobotModel>;

/// Whether the rules parsed from `txt` for `agent` allow fetching
/// `url`, as a function of the three texts alone.
pub uninterp spec fn robots_allows(agent: Seq<char>, txt: Seq<u8>, url: Seq<char>) -> bool;

/// The robots.txt URL derived from an origin URL, if one can be.
pub uninterp spec fn robots_txt_url(origin: Seq<char>) -> Option<Seq<char>>;

/// The outcome of a robots check for one URL.
#[derive(Clone, Copy, Debug, PartialEq, Eq, Structural)]
pub enum RobotsVerdict {
    ForbiddenPath,
    CrawlDelay,
    Proceed,
}

/// The verdict determined by whether the path is allowed and whether
/// the crawl delay has passed.
pub open spec fn verdict_of(path_allowed: bool, delay_passed: bool) -> RobotsVerdict {
    if !path_allowed {
        RobotsVerdict::ForbiddenPath
    } else if !delay_passed {
        RobotsVerdict::CrawlDelay
    } else {
        RobotsVerdict::Proceed
    }
}

/// Whether enough time has passed since the last visit: vacuously true
/// when no delay is declared or the host was never visited.
pub open spec fn delay_passed_spec(delay: Option<u64>, last: Option<u64>, now: u64) -> bool {
    match (delay, last) {
        (Some(d), Some(t)) => now >= t + d,
        _ => true,
    }
}

impl RobotsVerdict {
    pub fn new(path_allowed: bool, delay_passed: bool) -> (r: Self)
        ensures
            r == verdict_of(path_allowed, delay_passed),
    {
        match (path_allowed, delay_passed) {
            (false, _) => Self::ForbiddenPath,
            (true, false) => Self::CrawlDelay,
            (true, true) => Self::Proceed,
        }
    }
}

/// One host's parsed rules plus the last-visit timestamp, in seconds
/// of a monotonic clock supplied by the caller. The parsed value and
/// the text it came from travel only together: an entry is built by
/// `Rules::new` alone, so the contracts over the kept text cannot be
/// detached from the parse result.
pub struct Rules {
    pub(crate) robot: texting_robots::Robot,
    pub(crate) agent: String,
    pub(crate) txt: Vec<u8>,
    pub delay_secs: Option<u64>,
    pub last_visited: Option<u64>,
}

impl Rules {
    /// The agent the rules were parsed for.
    pub closed spec fn spec_agent(self) -> Seq<char> {
        self.agent@
    }

    /// The robots.txt body the rules were parsed from.
    pub closed spec fn spec_txt(self) -> Seq<u8> {
        self.txt@
    }

    /// The declared crawl delay, in whole seconds, rounded up.
    pub closed spec fn spec_delay(self) -> Option<u64> {
        self.delay_secs
    }

    /// The recorded time of the last visit.
    pub closed spec fn spec_last_visited(self) -> Option<u64> {
        self.last_visited
    }

    /// Relies on `texting_robots::Robot::new` to parse a robots.txt
    /// body, and on its public `delay` field for the crawl delay,
    /// whose fractional seconds are rounded up to whole seconds.
    #[verifier::external_body]
    pub fn new(agent: &str, robots: &[u8]) -> (r: Option<Rules>)
        ensures
            match r {
                Some(rules) => {
                    &&& robot_model(agent@, robots@) matches Some(m) && m.delay_secs
                        == rules.spec_delay()
                    &&& rules.spec_agent() == agent@
                    &&& rules.spec_txt() == robots@
                    &&& rules.spec_last_visited() is None
                },
                None => robot_model(agent@, robots@) is None,
            },
    {
        match texting_robots::Robot::new(agent, robots) {
            Ok(robot) => {
                let delay_secs = robot.delay.map(|d| d.ceil() as u64);
                Some(
                    Rules {
                        robot,
                        agent: agent.to_owned(),
                        txt: robots.to_vec(),
                        delay_secs,
                        last_visited: None,
                    },
                )
            },
            Err(_) => None,
        }
    }

    /// Relies on `texting_robots::Robot::allowed` for path matching.
    #[verifier::external_body]
    fn allowed_url(&self, url: &str) -> (r: bool)
        ensures
            r == robots_allows(self.spec_agent(), self.spec_txt(), url@),
    {
        self.robot.allowed(url)
    }

    /// The verdict for one URL at time `now_secs`: forbidden when the
    /// rules disallow its path, delayed while the declared crawl delay
    /// has not passed since the last visit, and proceed otherwise.
    pub fn can_visit_path(&self, url: &str, now_secs: u64) -> (r: RobotsVerdict)
        ensures
            r == verdict_of(
                robots_allows(self.spec_agent(), self.spec_txt(), url@),
                delay_passed_spec(self.spec_delay(), self.spec_last_visited(), now_secs),
            ),
    {
        let allowed = self.allowed_url(url);
        let delay_passed = match (self.delay_secs, self.last_visited) {
            (Some(d), Some(t)) => now_secs >= t && now_secs - t >= d,
            _ => true,
        };
        RobotsVerdict::new(allowed, delay_passed)
    }
}

/// A crawl-delay verdict never lets a visit through early: whenever a
/// delay `d` is declared and a visit at time `t` is recorded, a
/// `Proceed` verdict at time `now` means at least `d` seconds passed.
pub proof fn lemma_proceed_respects_delay(rules: Rules, url: Seq<char>, now: u64, d: u64, t: u64)
    requires
        rules.spec_delay() == Some(d),
        rules.spec_last_visited() == Some(t),
        verdict_of(
            robots_allows(rules.spec_agent(), rules.spec_txt(), url),
            delay_passed_spec(rules.spec_delay(), rules.spec_last_visited(), now),
        ) == RobotsVerdict::Proceed,
    ensures
        now >= t + d,
{
}

/// One host entry as the crawl-delay protocol sees it: the declared
/// delay, the recorded last visit, and every visit time in order.
pub ghost struct HostLog {
    pub delay: Option<u64>,
    pub last: Option<u64>,
    pub visits: Seq<u64>,
}

/// A freshly inserted entry: no visit recorded yet.
pub open spec fn fresh_host(delay: Option<u64>) -> HostLog {
    HostLog { delay, last: None, visits: Seq::empty() }
}

/// The entry after the visits at the given times, each recorded by
/// `update_domain`: the last time recorded stands in `last`.
pub open spec fn host_after(h0: HostLog, ts: Seq<u64>) -> HostLog
    decreases ts.len(),
{
    if ts.len() == 0 {
        h0
    } else {
        let prev = host_after(h0, ts.drop_last());
        HostLog { delay: prev.delay, last: Some(ts.last()), visits: prev.visits.push(ts.last()) }
    }
}

/// Whether every visit in `ts` was admitted: at each visit time the
/// delay test of `can_visit_path` passed against the entry state left
/// by the visits before it.
pub open spec fn visits_admitted(h0: HostLog, ts: Seq<u64>) -> bool
    decreases ts.len(),
{
    if ts.len() == 0 {
        true
    } else {
        visits_admitted(h0, ts.drop_last()) && delay_passed_spec(
            host_after(h0, ts.drop_last()).delay,
            host_after(h0, ts.drop_last()).last,
            ts.last(),
        )
    }
}

proof fn lemma_host_after_shape(h0: HostLog, ts: Seq<u64>)
    ensures
        host_after(h0, ts).delay == h0.delay,
        ts.len() > 0 ==> host_after(h0, ts).last == Some(ts.last()),
    decreases ts.len(),
{
    if ts.len() > 0 {
        lemma_host_after_shape(h0, ts.drop_last());
    }
}

proof fn lemma_admitted_prefix(h0: HostLog, ts: Seq<u64>, k: int)
    requires
        visits_admitted(h0, ts),
        0 <= k <= ts.len(),
    ensures
        visits_admitted(h0, ts.take(k)),
    decreases ts.len(),
{
    if k == ts.len() {
        assert(ts.take(k) =~= ts);
    } else if ts.len() > 0 {
        assert(ts.drop_last() =~= ts.take(ts.len() - 1));
        lemma_admitted_prefix(h0, ts.drop_last(), k);
        assert(ts.drop_last().take(k) =~= ts.take(k));
    }
}

/// For any host whose robots.txt declares a crawl delay of `d`
/// seconds, any two consecutive visits admitted by the delay test and
/// recorded by `update_domain` are separated by at least `d` seconds.
pub proof fn lemma_crawl_delay_separation(d: u64, ts: Seq<u64>, i: int)
    requires
        visits_admitted(fresh_host(Some(d)), ts),
        1 <= i < ts.len(),
    ensures
        ts[i] >= ts[i - 1] + d,
{
    let h0 = fresh_host(Some(d));
    lemma_admitted_prefix(h0, ts, i + 1);
    assert(ts.take(i + 1).drop_last() =~= ts.take(i));
    assert(ts.take(i + 1).last() == ts[i]);
    lemma_host_after_shape(h0, ts.take(i));
    assert(ts.take(i).last() == ts[i - 1]);
    assert(delay_passed_spec(Some(d), Some(ts[i - 1]), ts[i]));
}

/// The robots cache: one entry per host origin, keyed by the origin
/// URL text.
pub struct Robots {
    pub permissions: Vec<(String, Rules)>,
}

impl Robots {
    /// Each origin appears at most once in the cache.
    pub open spec fn wf(self) -> bool {
        forall|i: int, j: int|
            0 <= i < j < self.permissions@.len() ==> (#[trigger] self.permissions@[i]).0@ != (
            #[trigger] self.permissions@[j]).0@
    }

    /// Whether the cache holds an entry for this origin.
    pub open spec fn spec_has(self, origin: Seq<char>) -> bool {
        exists|i: int|
            0 <= i < self.permissions@.len() && (#[trigger] self.permissions@[i]).0@ == origin
    }

    /// The position of this origin's entry.
    pub open spec fn spec_idx(self, origin: Seq<char>) -> int {
        choose|i: int|
            0 <= i < self.permissions@.len() && (#[trigger] self.permissions@[i]).0@ == origin
    }

    /// The rules stored for this origin.
    pub open spec fn spec_rules(self, origin: Seq<char>) -> Rules {
        self.permissions@[self.spec_idx(origin)].1
    }

    pub fn new() -> (r: Self)
        ensures
            r.permissions@.len() == 0,
            r.wf(),
    {
        Self { permissions: Vec::new() }
    }

    /// Parses a URL, as `parse_url` does.
    pub fn valid_url(url: &str) -> (r: Option<ParsedUrl>)
        ensures
            match r {
                Some(p) => url_parse(url@) == Some(p@),
                None => url_parse(url@) is None,
            },
    {
        parse_url(url)
    }

    /// The origin `scheme://host` of a parsed URL, if it has a host.
    pub fn to_domain(url: &ParsedUrl) -> (r: Option<String>)
        ensures
            match url@.host {
                Some(h) => r matches Some(o) && o@ == url@.scheme + "://"@ + h,
                None => r is None,
            },
    {
        match &url.host {
            Some(h) => {
                let mut s = url.scheme.clone();
                s.append("://");
                s.append(h.as_str());
                Some(s)
            },
            None => None,
        }
    }

    /// The host of a URL given as text, if it parses and has one.
    pub fn extract_domain(url: &str) -> (r: Option<String>)
        ensures
            match r {
                Some(h) => host_of(url@) == Some(h@),
                None => host_of(url@) is None,
            },
    {
        match parse_url(url) {
            Some(p) => p.host,
            None => None,
        }
    }

    pub fn has_domain(&self, origin: &str) -> (r: bool)
        ensures
            r == self.spec_has(origin@),
    {
        let n = self.permissions.len();
        let mut i: usize = 0;
        while i < n
            invariant
                n == self.permissions@.len(),
                i <= n,
                forall|k: int| 0 <= k < i ==> (#[trigger] self.permissions@[k]).0@ != origin@,
            decreases n - i,
        {
            if eq_str(self.permissions[i].0.as_str(), origin) {
                return true;
            }
            i = i + 1;
        }
        false
    }

    /// Relies on `texting_robots::get_robots_url` to derive the
    /// robots.txt URL from an origin.
    #[verifier::external_body]
    pub fn robots_url(domain: &str) -> (r: Option<String>)
        ensures
            match r {
                Some(u) => robots_txt_url(domain@) == Some(u@),
                None => robots_txt_url(domain@) is None,
            },
    {
        texting_robots::get_robots_url(domain).ok()
    }

    /// Parses `txt` under the agent wildcard and stores the rules for
    /// `origin`. Returns false and changes nothing on parse failure;
    /// an origin already present keeps its first entry.
    pub fn insert_entry(&mut self, origin: &str, txt: &str) -> (r: bool)
        requires
            old(self).wf(),
        ensures
            final(self).wf(),
            r == (robot_model("*"@, txt.spec_bytes()) is Some),
            !r ==> *final(self) == *old(self),
            r && old(self).spec_has(origin@) ==> *final(self) == *old(self),
            r && !old(self).spec_has(origin@) ==> {
                &&& final(self).permissions@.len() == old(self).permissions@.len() + 1
                &&& forall|k: int|
                    0 <= k < old(self).permissions@.len() ==> final(self).permissions@[k]
                        == old(self).permissions@[k]
                &&& (#[trigger] final(self).permissions@.last()).0@ == origin@
                &&& final(self).spec_rules(origin@).spec_agent() == "*"@
                &&& final(self).spec_rules(origin@).spec_txt() == txt.spec_bytes()
                &&& robot_model("*"@, txt.spec_bytes()) matches Some(m) && m.delay_secs
                    == final(self).spec_rules(origin@).spec_delay()
                &&& final(self).spec_rules(origin@).spec_last_visited() is None
            },
            forall|o: Seq<char>|
                #[trigger] final(self).spec_has(o) <==> old(self).spec_has(o) || (r && o
                    == origin@),
    {
        let rules_opt = Rules::new("*", txt.as_bytes());
        match rules_opt {
            None => false,
            Some(rules) => {
                if self.has_domain(origin) {
                    proof {
                        assert forall|o: Seq<char>|
                            #[trigger] self.spec_has(o) <==> self.spec_has(o) || (o
                                == origin@) by {
                            if o == origin@ {
                                assert(self.spec_has(o));
                            }
                        }
                    }
                    true
                } else {
                    let ghost old_self = *self;
                    self.permissions.push((origin.to_owned(), rules));
                    proof {
                        let n = old_self.permissions@.len() as int;
                        assert(self.permissions@[n].0@ == origin@);
                        assert forall|i: int, j: int|
                            0 <= i < j < self.permissions@.len() implies (
                        #[trigger] self.permissions@[i]).0@ != (
                        #[trigger] self.permissions@[j]).0@ by {
                            if j < n {
                                assert(old_self.permissions@[i] == self.permissions@[i]);
                            } else {
                                assert(j == n);
                                if self.permissions@[i].0@ == origin@ {
                                    assert(old_self.spec_has(origin@));
                                }
                            }
                        }
                        assert forall|o: Seq<char>|
                            #[trigger] self.spec_has(o) <==> old_self.spec_has(o) || (o
                                == origin@) by {
                            if self.spec_has(o) {
                                let i = choose|i: int|
                                    0 <= i < self.permissions@.len() && (
                                    #[trigger] self.permissions@[i]).0@ == o;
                                if i < n {
                                    assert(old_self.spec_has(o));
                                }
                            }
                            if old_self.spec_has(o) {
                                let i = choose|i: int|
                                    0 <= i < old_self.permissions@.len() && (
                                    #[trigger] old_self.permissions@[i]).0@ == o;
                                assert(self.permissions@[i].0@ == o);
                                assert(self.spec_has(o));
                            }
                            if o == origin@ {
                                assert(self.spec_has(o));
                            }
                        }
                        // the fresh origin resolves to the new entry
                        assert(self.spec_has(origin@));
                        let j = self.spec_idx(origin@);
                        assert(0 <= j < self.permissions@.len() && self.permissions@[j].0@
                            == origin@);
                        if j < n {
                            assert(old_self.permissions@[j].0@ == origin@);
                            assert(old_self.spec_has(origin@));
                        }
                        assert(j == n);
                        assert(self.spec_rules(origin@) == self.permissions@.last().1);
                    }
                    true
                }
            },
        }
    }

    /// The verdict for `url` from the rules stored for `origin`, which
    /// must be present.
    pub fn can_visit_url(&self, url: &str, origin: &str, now_secs: u64) -> (r: RobotsVerdict)
        requires
            self.wf(),
            self.spec_has(origin@),
        ensures
            r == verdict_of(
                robots_allows(
                    self.spec_rules(origin@).spec_agent(),
                    self.spec_rules(origin@).spec_txt(),
                    url@,
                ),
                delay_passed_spec(
                    self.spec_rules(origin@).spec_delay(),
                    self.spec_rules(origin@).spec_last_visited(),
                    now_secs,
                ),
            ),
    {
        let i = self.find_domain(origin);
        self.permissions[i].1.can_visit_path(url, now_secs)
    }

    /// Records a visit to `origin`, which must be present, at time
    /// `now_secs`.
    pub fn update_domain(&mut self, origin: &str, now_secs: u64)
        requires
            old(self).wf(),
            old(self).spec_has(origin@),
        ensures
            final(self).wf(),
            final(self).permissions@.len() == old(self).permissions@.len(),
            forall|k: int|
                0 <= k < old(self).permissions@.len() && k != old(self).spec_idx(origin@)
                    ==> final(self).permissions@[k] == old(self).permissions@[k],
            final(self).permissions@[old(self).spec_idx(origin@)].0
                == old(self).permissions@[old(self).spec_idx(origin@)].0,
            final(self).spec_rules(origin@).spec_agent() == old(self).spec_rules(
                origin@,
            ).spec_agent(),
            final(self).spec_rules(origin@).spec_txt() == old(self).spec_rules(origin@).spec_txt(),
            final(self).spec_rules(origin@).spec_delay() == old(self).spec_rules(
                origin@,
            ).spec_delay(),
            final(self).spec_rules(origin@).spec_last_visited() == Some(now_secs),
            forall|o: Seq<char>| #[trigger] final(self).spec_has(o) == old(self).spec_has(o),
    {
        let i = self.find_domain(origin);
        self.permissions[i].1.last_visited = Some(now_secs);
        proof {
            let old_self = *old(self);
            assert forall|i2: int, j2: int|
                0 <= i2 < j2 < self.permissions@.len() implies (
            #[trigger] self.permissions@[i2]).0@ != (#[trigger] self.permissions@[j2]).0@ by {
                assert(self.permissions@[i2].0 == old_self.permissions@[i2].0);
                assert(self.permissions@[j2].0 == old_self.permissions@[j2].0);
            }
            assert forall|o: Seq<char>|
                #[trigger] self.spec_has(o) == old_self.spec_has(o) by {
                if self.spec_has(o) {
                    let k = choose|k: int|
                        0 <= k < self.permissions@.len() && (#[trigger] self.permissions@[k]).0@
                            == o;
                    assert(old_self.permissions@[k].0@ == o);
                    assert(old_self.spec_has(o));
                }
                if old_self.spec_has(o) {
                    let k = choose|k: int|
                        0 <= k < old_self.permissions@.len() && (
                        #[trigger] old_self.permissions@[k]).0@ == o;
                    assert(self.permissions@[k].0@ == o);
                    assert(self.spec_has(o));
                }
            }
            // this origin still resolves to the same position, where
            // only the visit time changed
            assert(self.permissions@[i as int].0@ == origin@);
            assert(self.spec_has(origin@));
            let j = self.spec_idx(origin@);
            assert(0 <= j < self.permissions@.len() && self.permissions@[j].0@ == origin@);
            if j != i as int {
                assert(self.permissions@[j].0@ != self.permissions@[i as int].0@);
            }
            assert(j == i as int);
            assert(self.spec_rules(origin@) == self.permissions@[i as int].1);
            assert(old_self.spec_rules(origin@) == old_self.permissions@[i as int].1);
            assert(self.permissions@[i as int].1.agent == old_self.permissions@[i as int].1.agent);
            assert(self.permissions@[i as int].1.txt == old_self.permissions@[i as int].1.txt);
            assert(self.permissions@[i as int].1.delay_secs == old_self.permissions@[i as int].1.delay_secs);
            assert(self.permissions@[i as int].1.last_visited == Some(now_secs));
        }
    }

    /// The position of this origin's entry, which must be present.
    fn find_domain(&self, origin: &str) -> (i: usize)
        requires
            self.wf(),
            self.spec_has(origin@),
        ensures
            i == self.spec_idx(origin@),
            i < self.permissions@.len(),
            self.permissions@[i as int].0@ == origin@,
    {
        let n = self.permissions.len();
        let mut i: usize = 0;
        while i < n
            invariant
                self.wf(),
                self.spec_has(origin@),
                n == self.permissions@.len(),
                i <= n,
                forall|k: int| 0 <= k < i ==> (#[trigger] self.permissions@[k]).0@ != origin@,
            decreases n - i,
        {
            if eq_str(self.permissions[i].0.as_str(), origin) {
                proof {
                    let j = self.spec_idx(origin@);
                    assert(0 <= j < self.permissions@.len() && self.permissions@[j].0@ == origin@);
                    if j != i {
                        assert(self.permissions@[j].0@ != self.permissions@[i as int].0@);
                    }
                }
                return i;
            }
            i = i + 1;
        }
        proof {
            let j = self.spec_idx(origin@);
            assert(0 <= j < self.permissions@.len() && self.permissions@[j].0@ == origin@);
            assert(false);
        }
        0
    }
}

} // verus!
