//! A polite, recursive, language-filtered web crawler library.
//!
//! The crate holds the verified core of the crawler: the data model
//! (crawl entries, fetched responses, WARC records), the URL disperser,
//! the robots cache with its crawl-delay policy, the language filter,
//! the processor's outlink bookkeeping, and the counters. Network and
//! file I/O live outside the library and talk to it through plain values.
use vstd::prelude::*;

pub mod crawl;
pub mod crawl_utils;
pub mod html;
pub mod job_config;
pub mod lang;
pub mod pipeline_model;
pub mod response;
pub mod robots;
pub mod strutil;
pub mod urlparse;

use crate::strutil::{dec_str, u64_to_dec};

verus! {

/// A URL paired with the number of link-expansion hops it still has.
/// Depth 0 means "fetch but do not expand".
pub struct CrawlEntry {
    pub url: String,
    pub crawl_depth: u8,
}

/// The mathematical content of a `CrawlEntry`.
#[verifier::ext_equal]
pub ghost struct EntryModel {
    pub url: Seq<char>,
    pub depth: u8,
}

impl View for CrawlEntry {
    type V = EntryModel;

    open spec fn view(&self) -> EntryModel {
        EntryModel { url: self.url@, depth: self.crawl_depth }
    }
}

impl CrawlEntry {
    pub fn new(url: String, crawl_depth: u8) -> (r: Self)
        ensures
            r.url == url,
            r.crawl_depth == crawl_depth,
    {
        Self { url, crawl_depth }
    }
}

/// A fetched page on its way from a fetcher to the processor, carrying
/// the depth its outlinks will crawl at.
pub struct ScrapEntry {
    pub response: crate::response::Response,
    pub crawl_depth: u8,
}

/// The crawl's observability counters. The fields wrap around on
/// overflow, as the atomic counters they stand for would.
pub struct CrawlCounters {
    pub visited: u64,
    pub failed: u64,
    pub initial: u64,
    pub extra: u64,
    pub queued: u64,
}

/// A counter value after adding `v`, with the wrap-around of a 64-bit
/// atomic add.
pub open spec fn wrap_add64(c: u64, v: u64) -> u64 {
    if c + v > u64::MAX {
        (c + v - 0x1_0000_0000_0000_0000) as u64
    } else {
        (c + v) as u64
    }
}

/// A counter value after subtracting `v`, with the wrap-around of a
/// 64-bit atomic subtraction.
pub open spec fn wrap_sub64(c: u64, v: u64) -> u64 {
    if c - v < 0 {
        (c - v + 0x1_0000_0000_0000_0000) as u64
    } else {
        (c - v) as u64
    }
}

/// The text of the periodic progress report.
pub open spec fn ongoing_report(visited: u64, failed: u64, extra: u64, queued: u64) -> Seq<char> {
    "Visited : "@ + dec_str(visited as nat) + "\nFailed : "@ + dec_str(failed as nat)
        + "\nExtra Extracted : "@ + dec_str(extra as nat) + "\nLinks in Queue : "@ + dec_str(
        queued as nat,
    ) + "\n<===========================================================>\n"@
}

/// The counters after `add_to`: the named counter grows by `v` with
/// 64-bit wrap-around; an unknown name changes nothing.
pub open spec fn add_to_spec(c: CrawlCounters, name: Seq<char>, v: u64) -> CrawlCounters {
    if name == "visited"@ {
        CrawlCounters { visited: wrap_add64(c.visited, v), ..c }
    } else if name == "failed"@ {
        CrawlCounters { failed: wrap_add64(c.failed, v), ..c }
    } else if name == "extra"@ {
        CrawlCounters { extra: wrap_add64(c.extra, v), ..c }
    } else if name == "queued"@ {
        CrawlCounters { queued: wrap_add64(c.queued, v), ..c }
    } else if name == "initial"@ {
        CrawlCounters { initial: wrap_add64(c.initial, v), ..c }
    } else {
        c
    }
}

impl CrawlCounters {
    pub fn new(visited: u64, failed: u64, initial: u64, extra: u64, queued: u64) -> (r: Self)
        ensures
            r.visited == visited,
            r.failed == failed,
            r.initial == initial,
            r.extra == extra,
            r.queued == queued,
    {
        Self { visited, failed, initial, extra, queued }
    }

    pub fn increment_visited(&mut self)
        ensures
            final(self).visited == wrap_add64(old(self).visited, 1),
            final(self).failed == old(self).failed,
            final(self).initial == old(self).initial,
            final(self).extra == old(self).extra,
            final(self).queued == old(self).queued,
    {
        self.visited = self.visited.wrapping_add(1);
    }

    pub fn increment_failed(&mut self)
        ensures
            final(self).failed == wrap_add64(old(self).failed, 1),
            final(self).visited == old(self).visited,
            final(self).initial == old(self).initial,
            final(self).extra == old(self).extra,
            final(self).queued == old(self).queued,
    {
        self.failed = self.failed.wrapping_add(1);
    }

    pub fn increment_queued(&mut self)
        ensures
            final(self).queued == wrap_add64(old(self).queued, 1),
            final(self).visited == old(self).visited,
            final(self).failed == old(self).failed,
            final(self).initial == old(self).initial,
            final(self).extra == old(self).extra,
    {
        self.queued = self.queued.wrapping_add(1);
    }

    pub fn decrement_queued(&mut self)
        ensures
            final(self).queued == wrap_sub64(old(self).queued, 1),
            final(self).visited == old(self).visited,
            final(self).failed == old(self).failed,
            final(self).initial == old(self).initial,
            final(self).extra == old(self).extra,
    {
        self.queued = self.queued.wrapping_sub(1);
    }

    /// Adds `value` to the counter named by `counter`; an unknown name
    /// changes nothing.
    pub fn add_to(&mut self, counter: &str, value: u64)
        ensures
            *final(self) == add_to_spec(*old(self), counter@, value),
    {
        if crate::strutil::eq_str(counter, "visited") {
            self.visited = self.visited.wrapping_add(value);
        } else if crate::strutil::eq_str(counter, "failed") {
            self.failed = self.failed.wrapping_add(value);
        } else if crate::strutil::eq_str(counter, "extra") {
            self.extra = self.extra.wrapping_add(value);
        } else if crate::strutil::eq_str(counter, "queued") {
            self.queued = self.queued.wrapping_add(value);
        } else if crate::strutil::eq_str(counter, "initial") {
            self.initial = self.initial.wrapping_add(value);
        }
    }

    /// The formatted snapshot the progress reporter prints every second.
    pub fn current_ongoing(&self) -> (r: String)
        ensures
            r@ == ongoing_report(self.visited, self.failed, self.extra, self.queued),
    {
        let mut s = "Visited : ".to_owned();
        s.append(u64_to_dec(self.visited).as_str());
        s.append("\nFailed : ");
        s.append(u64_to_dec(self.failed).as_str());
        s.append("\nExtra Extracted : ");
        s.append(u64_to_dec(self.extra).as_str());
        s.append("\nLinks in Queue : ");
        s.append(u64_to_dec(self.queued).as_str());
        s.append("\n<===========================================================>\n");
        proof {
            assert(s@ =~= ongoing_report(self.visited, self.failed, self.extra, self.queued));
        }
        s
    }
}

} // verus!
