//! Helpers around the crawl pipeline: header and list formatting, the
//! seed-list loader's computation, outlink filtering, and the URL
//! disperser that spreads a batch across hosts.
use vstd::multiset::Multiset;
use vstd::prelude::*;

use crate::html::{dom_links, dom_text, html_links, html_text, HtmlDom};
use crate::robots::Robots;
use crate::strutil::{eq_str, has_prefix, spec_has_prefix, spec_trim_end, trim_end};
use crate::urlparse::{host_of, parse_url, url_parse};
use crate::{CrawlEntry, EntryModel};

verus! {

/// Relies on `String::push` to append one character.
#[verifier::external_body]
fn push_char(s: &mut String, c: char)
    ensures
        final(s)@ == old(s)@.push(c),
{
    s.push(c);
}

/// The views of a list of entries.
pub open spec fn models_of(v: Seq<CrawlEntry>) -> Seq<EntryModel> {
    v.map_values(|e: CrawlEntry| e@)
}

/// The views of a list of header pairs.
pub open spec fn pairs_view(v: Seq<(String, String)>) -> Seq<(Seq<char>, Seq<char>)> {
    v.map_values(|p: (String, String)| (p.0@, p.1@))
}

/// One formatted header line, without its terminator.
pub open spec fn spec_header_line(p: (Seq<char>, Seq<char>)) -> Seq<char> {
    p.0 + ": "@ + p.1
}

/// Header pairs formatted as `name: value` lines separated by CRLF,
/// with no trailing CRLF.
pub open spec fn spec_headers_fmt(hs: Seq<(Seq<char>, Seq<char>)>) -> Seq<char>
    decreases hs.len(),
{
    if hs.len() == 0 {
        Seq::empty()
    } else if hs.len() == 1 {
        spec_header_line(hs[0])
    } else {
        spec_headers_fmt(hs.drop_last()) + "\r\n"@ + spec_header_line(hs.last())
    }
}

/// Formats header pairs for the `headers` field of a response record.
pub fn http_headers_fmt(header_map: &Vec<(String, String)>) -> (r: String)
    ensures
        r@ == spec_headers_fmt(pairs_view(header_map@)),
{
    let mut displayed = String::new();
    let n = header_map.len();
    let mut i: usize = 0;
    while i < n
        invariant
            n == header_map@.len(),
            i <= n,
            displayed@ == spec_headers_fmt(pairs_view(header_map@).take(i as int)),
        decreases n - i,
    {
        if i > 0 {
            displayed.append("\r\n");
        }
        displayed.append(header_map[i].0.as_str());
        displayed.append(": ");
        displayed.append(header_map[i].1.as_str());
        proof {
            let pv = pairs_view(header_map@);
            assert(pv.take(i + 1).drop_last() =~= pv.take(i as int));
            assert(pv.take(i + 1).last() == pv[i as int]);
            assert(displayed@ =~= spec_headers_fmt(pv.take(i + 1)));
        }
        i = i + 1;
    }
    proof {
        assert(pairs_view(header_map@).take(n as int) =~= pairs_view(header_map@));
    }
    displayed
}

/// Strings joined by a single delimiter character.
pub open spec fn spec_array_stringify(ss: Seq<Seq<char>>, delim: char) -> Seq<char>
    decreases ss.len(),
{
    if ss.len() == 0 {
        Seq::empty()
    } else if ss.len() == 1 {
        ss[0]
    } else {
        spec_array_stringify(ss.drop_last(), delim) + seq![delim] + ss.last()
    }
}

/// Joins strings with a delimiter between consecutive elements.
pub fn array_stringify(arr: &[String], delim: char) -> (r: String)
    ensures
        r@ == spec_array_stringify(arr.deep_view(), delim),
{
    let mut string = String::new();
    let n = arr.len();
    let mut i: usize = 0;
    while i < n
        invariant
            n == arr@.len(),
            i <= n,
            string@ == spec_array_stringify(arr.deep_view().take(i as int), delim),
        decreases n - i,
    {
        if i > 0 {
            push_char(&mut string, delim);
        }
        string.append(arr[i].as_str());
        proof {
            let dv = arr.deep_view();
            assert(dv.take(i + 1).drop_last() =~= dv.take(i as int));
            assert(dv.take(i + 1).last() == dv[i as int]);
            assert(string@ =~= spec_array_stringify(dv.take(i + 1), delim));
        }
        i = i + 1;
    }
    proof {
        assert(arr.deep_view().take(n as int) =~= arr.deep_view());
    }
    string
}

/// Anchors kept by the protocol filter: all of them when no protocol
/// is listed, otherwise those with a listed literal prefix.
pub open spec fn spec_filter_links(links: Seq<Seq<char>>, protos: Seq<Seq<char>>) -> Seq<Seq<char>>
    decreases links.len(),
{
    if links.len() == 0 {
        Seq::empty()
    } else {
        let prev = spec_filter_links(links.drop_last(), protos);
        if protos.len() == 0 || (exists|k: int|
            0 <= k < protos.len() && spec_has_prefix(links.last(), #[trigger] protos[k])) {
            prev.push(links.last())
        } else {
            prev
        }
    }
}

fn matches_any_protocol(link: &str, protocols: &[String]) -> (r: bool)
    ensures
        r == exists|k: int|
            0 <= k < protocols@.len() && spec_has_prefix(link@, (#[trigger] protocols@[k])@),
{
    let n = protocols.len();
    let mut i: usize = 0;
    while i < n
        invariant
            n == protocols@.len(),
            i <= n,
            forall|k: int| 0 <= k < i ==> !spec_has_prefix(link@, (#[trigger] protocols@[k])@),
        decreases n - i,
    {
        if has_prefix(link, protocols[i].as_str()) {
            return true;
        }
        i = i + 1;
    }
    false
}

/// The `href` of every anchor of the page, kept only when it starts
/// with one of the listed protocols; an empty protocol list keeps all.
pub fn soup_links(dom: &HtmlDom, protocols: &[String]) -> (r: Vec<String>)
    ensures
        r.deep_view() == spec_filter_links(html_links(dom.spec_html()), protocols.deep_view()),
{
    let all = dom_links(dom);
    let mut links: Vec<String> = Vec::new();
    let n = all.len();
    let no_filter = protocols.is_empty();
    let mut i: usize = 0;
    while i < n
        invariant
            n == all@.len(),
            i <= n,
            all.deep_view() == html_links(dom.spec_html()),
            no_filter == (protocols@.len() == 0),
            links.deep_view() == spec_filter_links(
                html_links(dom.spec_html()).take(i as int),
                protocols.deep_view(),
            ),
        decreases n - i,
    {
        proof {
            let hl = html_links(dom.spec_html());
            assert(hl.take(i + 1).drop_last() =~= hl.take(i as int));
            assert(hl.take(i + 1).last() == hl[i as int]);
            assert(all.deep_view()[i as int] == all@[i as int]@);
        }
        let keep = if no_filter {
            true
        } else {
            matches_any_protocol(all[i].as_str(), protocols)
        };
        proof {
            assert forall|k: int| 0 <= k < protocols@.len() implies protocols.deep_view()[k] == (
            protocols@[k])@ by {}
        }
        if keep {
            links.push(all[i].clone());
            proof {
                if !no_filter {
                    let k = choose|k: int|
                        0 <= k < protocols@.len() && spec_has_prefix(
                            all@[i as int]@,
                            (#[trigger] protocols@[k])@,
                        );
                    assert(protocols.deep_view()[k] == (protocols@[k])@);
                    assert(spec_has_prefix(
                        html_links(dom.spec_html())[i as int],
                        protocols.deep_view()[k],
                    ));
                }
                assert(links.deep_view() =~~= spec_filter_links(
                    html_links(dom.spec_html()).take(i + 1),
                    protocols.deep_view(),
                ));
            }
        } else {
            proof {
                assert(links.deep_view() =~~= spec_filter_links(
                    html_links(dom.spec_html()).take(i + 1),
                    protocols.deep_view(),
                ));
            }
        }
        i = i + 1;
    }
    proof {
        assert(html_links(dom.spec_html()).take(n as int) =~= html_links(dom.spec_html()));
    }
    links
}

/// The visible text of the page.
pub fn soup_text(dom: &HtmlDom) -> (r: String)
    ensures
        r@ == html_text(dom.spec_html()),
{
    dom_text(dom)
}

/// The multiset of a list of entry models.
pub open spec fn entries_ms(v: Seq<EntryModel>) -> Multiset<EntryModel>
    decreases v.len(),
{
    if v.len() == 0 {
        Multiset::empty()
    } else {
        entries_ms(v.drop_last()).insert(v.last())
    }
}

/// The multiset of the entries whose URL has a host; only these
/// survive the disperser.
pub open spec fn dispersable_ms(v: Seq<EntryModel>) -> Multiset<EntryModel>
    decreases v.len(),
{
    if v.len() == 0 {
        Multiset::empty()
    } else if host_of(v.last().url) is Some {
        dispersable_ms(v.drop_last()).insert(v.last())
    } else {
        dispersable_ms(v.drop_last())
    }
}

/// When every entry's URL has a host, nothing is dropped.
pub proof fn lemma_dispersable_all_hosts(v: Seq<EntryModel>)
    requires
        forall|i: int| 0 <= i < v.len() ==> host_of((#[trigger] v[i]).url) is Some,
    ensures
        dispersable_ms(v) == entries_ms(v),
    decreases v.len(),
{
    if v.len() > 0 {
        lemma_dispersable_all_hosts(v.drop_last());
    }
}

/// An entry multiset has no more elements than the list it came from.
pub proof fn lemma_dispersable_len(v: Seq<EntryModel>)
    ensures
        dispersable_ms(v).len() <= v.len(),
    decreases v.len(),
{
    broadcast use vstd::multiset::group_multiset_axioms, vstd::multiset::lemma_insert_len;

    if v.len() > 0 {
        lemma_dispersable_len(v.drop_last());
    }
}

/// The multiset of one host bucket.
pub open spec fn bucket_ms(b: (String, Vec<CrawlEntry>)) -> Multiset<EntryModel> {
    entries_ms(models_of(b.1@))
}

/// The multiset of all host buckets together.
pub open spec fn buckets_ms(bs: Seq<(String, Vec<CrawlEntry>)>) -> Multiset<EntryModel>
    decreases bs.len(),
{
    if bs.len() == 0 {
        Multiset::empty()
    } else {
        buckets_ms(bs.drop_last()).add(bucket_ms(bs.last()))
    }
}

proof fn lemma_buckets_ms_update_insert(
    bs: Seq<(String, Vec<CrawlEntry>)>,
    i: int,
    x: (String, Vec<CrawlEntry>),
    m: EntryModel,
)
    requires
        0 <= i < bs.len(),
        bucket_ms(x) == bucket_ms(bs[i]).insert(m),
    ensures
        buckets_ms(bs.update(i, x)) == buckets_ms(bs).insert(m),
    decreases bs.len(),
{
    broadcast use vstd::multiset::group_multiset_axioms;

    let upd = bs.update(i, x);
    if i == bs.len() - 1 {
        assert(upd.drop_last() =~= bs.drop_last());
        assert(upd.last() == x);
        assert(buckets_ms(upd) =~= buckets_ms(bs).insert(m));
    } else {
        lemma_buckets_ms_update_insert(bs.drop_last(), i, x, m);
        assert(upd.drop_last() =~= bs.drop_last().update(i, x));
        assert(upd.last() == bs.last());
        assert(buckets_ms(upd) =~= buckets_ms(bs).insert(m));
    }
}

proof fn lemma_buckets_ms_update_same(
    bs: Seq<(String, Vec<CrawlEntry>)>,
    i: int,
    x: (String, Vec<CrawlEntry>),
)
    requires
        0 <= i < bs.len(),
        bucket_ms(x) == bucket_ms(bs[i]),
    ensures
        buckets_ms(bs.update(i, x)) == buckets_ms(bs),
    decreases bs.len(),
{
    broadcast use vstd::multiset::group_multiset_axioms;

    let upd = bs.update(i, x);
    if i == bs.len() - 1 {
        assert(upd.drop_last() =~= bs.drop_last());
        assert(upd.last() == x);
        assert(buckets_ms(upd) =~= buckets_ms(bs));
    } else {
        lemma_buckets_ms_update_same(bs.drop_last(), i, x);
        assert(upd.drop_last() =~= bs.drop_last().update(i, x));
        assert(upd.last() == bs.last());
        assert(buckets_ms(upd) =~= buckets_ms(bs));
    }
}

proof fn lemma_buckets_ms_update_remove(
    bs: Seq<(String, Vec<CrawlEntry>)>,
    i: int,
    x: (String, Vec<CrawlEntry>),
    m: EntryModel,
)
    requires
        0 <= i < bs.len(),
        bucket_ms(bs[i]) == bucket_ms(x).insert(m),
    ensures
        buckets_ms(bs) == buckets_ms(bs.update(i, x)).insert(m),
    decreases bs.len(),
{
    broadcast use vstd::multiset::group_multiset_axioms;

    let upd = bs.update(i, x);
    if i == bs.len() - 1 {
        assert(upd.drop_last() =~= bs.drop_last());
        assert(upd.last() == x);
        assert(buckets_ms(bs) =~= buckets_ms(upd).insert(m));
    } else {
        lemma_buckets_ms_update_remove(bs.drop_last(), i, x, m);
        assert(upd.drop_last() =~= bs.drop_last().update(i, x));
        assert(upd.last() == bs.last());
        assert(buckets_ms(bs) =~= buckets_ms(upd).insert(m));
    }
}

proof fn lemma_buckets_ms_all_empty(bs: Seq<(String, Vec<CrawlEntry>)>)
    requires
        forall|i: int| 0 <= i < bs.len() ==> (#[trigger] bs[i]).1@.len() == 0,
    ensures
        buckets_ms(bs) == Multiset::<EntryModel>::empty(),
    decreases bs.len(),
{
    broadcast use vstd::multiset::group_multiset_axioms;

    if bs.len() > 0 {
        lemma_buckets_ms_all_empty(bs.drop_last());
        assert(bs.last().1@.len() == 0);
        assert(bucket_ms(bs.last()) == Multiset::<EntryModel>::empty());
        assert(buckets_ms(bs) =~= Multiset::<EntryModel>::empty());
    }
}

/// Two consecutive entries share a host only when every entry from
/// the earlier one onward shares it: the disperser emits a same-host
/// run only as the final stretch, once a single host is all that is
/// left.
pub open spec fn interleaved(ms: Seq<EntryModel>) -> bool {
    forall|i: int, k: int|
        0 <= i && i + 1 < ms.len() && i <= k < ms.len() && host_of((#[trigger] ms[i]).url)
            == host_of(ms[i + 1].url) ==> host_of((#[trigger] ms[k]).url) == host_of(ms[i].url)
}

/// No two consecutive entries share a host.
pub open spec fn no_adjacent_hosts(ms: Seq<EntryModel>) -> bool {
    forall|i: int|
        0 <= i && i + 1 < ms.len() ==> host_of((#[trigger] ms[i]).url) != host_of(ms[i + 1].url)
}

/// Bucket keys are pairwise distinct.
spec fn keys_unique(bs: Seq<(String, Vec<CrawlEntry>)>) -> bool {
    forall|i: int, j: int|
        0 <= i < j < bs.len() ==> (#[trigger] bs[i]).0@ != (#[trigger] bs[j]).0@
}

/// Every entry sits in the bucket keyed by its own host.
spec fn buckets_hosted(bs: Seq<(String, Vec<CrawlEntry>)>) -> bool {
    forall|i: int, j: int|
        0 <= i < bs.len() && 0 <= j < bs[i].1@.len() ==> host_of((#[trigger] bs[i].1@[j])@.url)
            == Some(bs[i].0@)
}

/// At most one bucket still holds entries.
spec fn at_most_one_nonempty(bs: Seq<(String, Vec<CrawlEntry>)>) -> bool {
    forall|i1: int, i2: int|
        0 <= i1 < i2 < bs.len() ==> (#[trigger] bs[i1]).1@.len() == 0 || (
        #[trigger] bs[i2]).1@.len() == 0
}

/// Replacing one bucket by a prefix of itself (same key) keeps the
/// key and hosting discipline.
proof fn lemma_bucket_update_wf(bs: Seq<(String, Vec<CrawlEntry>)>, i: int, x: (String, Vec<CrawlEntry>))
    requires
        0 <= i < bs.len(),
        keys_unique(bs),
        buckets_hosted(bs),
        x.0 == bs[i].0,
        x.1@.len() <= bs[i].1@.len(),
        forall|j: int| 0 <= j < x.1@.len() ==> #[trigger] x.1@[j] == bs[i].1@[j],
    ensures
        keys_unique(bs.update(i, x)),
        buckets_hosted(bs.update(i, x)),
{
    let upd = bs.update(i, x);
    assert forall|i2: int, j2: int| 0 <= i2 < j2 < upd.len() implies (#[trigger] upd[i2]).0@ != (
    #[trigger] upd[j2]).0@ by {
        assert(upd[i2].0 == bs[i2].0);
        assert(upd[j2].0 == bs[j2].0);
    }
    assert forall|i2: int, j2: int|
        0 <= i2 < upd.len() && 0 <= j2 < upd[i2].1@.len() implies host_of(
        (#[trigger] upd[i2].1@[j2])@.url,
    ) == Some(upd[i2].0@) by {
        if i2 == i {
            assert(upd[i2].1@[j2] == bs[i].1@[j2]);
            assert(host_of(bs[i].1@[j2]@.url) == Some(bs[i].0@));
        } else {
            assert(upd[i2] == bs[i2]);
            assert(host_of(bs[i2].1@[j2]@.url) == Some(bs[i2].0@));
        }
    }
}

/// A list whose front has no same-host neighbours and whose tail is
/// host-constant is interleaved.
proof fn lemma_interleaved_parts(ms: Seq<EntryModel>, m: int)
    requires
        0 <= m <= ms.len(),
        no_adjacent_hosts(ms.take(m)),
        forall|k: int| m <= k < ms.len() ==> host_of((#[trigger] ms[k]).url) == host_of(ms[m].url),
    ensures
        interleaved(ms),
{
    assert forall|i: int, k: int|
        0 <= i && i + 1 < ms.len() && i <= k < ms.len() && host_of((#[trigger] ms[i]).url)
            == host_of(ms[i + 1].url) implies host_of((#[trigger] ms[k]).url) == host_of(
        ms[i].url,
    ) by {
        if i + 1 < m {
            assert(ms.take(m)[i] == ms[i]);
            assert(ms.take(m)[i + 1] == ms[i + 1]);
        } else {
            if k >= m {
                if i >= m {
                    assert(host_of(ms[i].url) == host_of(ms[m].url));
                } else {
                    assert(i + 1 == m);
                    assert(host_of(ms[i].url) == host_of(ms[m].url));
                }
            } else {
                assert(k == i);
            }
        }
    }
}

fn two_nonempty(buckets: &Vec<(String, Vec<CrawlEntry>)>) -> (r: bool)
    ensures
        r == exists|i1: int, i2: int|
            0 <= i1 < i2 < buckets@.len() && (#[trigger] buckets@[i1]).1@.len() > 0 && (
            #[trigger] buckets@[i2]).1@.len() > 0,
{
    let n = buckets.len();
    let mut first: Option<usize> = None;
    let mut i: usize = 0;
    while i < n
        invariant
            n == buckets@.len(),
            i <= n,
            match first {
                None => forall|k: int| 0 <= k < i ==> (#[trigger] buckets@[k]).1@.len() == 0,
                Some(f) => f < i && buckets@[f as int].1@.len() > 0 && (forall|k: int|
                    0 <= k < i && k != f ==> (#[trigger] buckets@[k]).1@.len() == 0),
            },
        decreases n - i,
    {
        if buckets[i].1.len() > 0 {
            match first {
                Some(f) => {
                    proof {
                        assert(0 <= f < i < buckets@.len());
                        assert(buckets@[f as int].1@.len() > 0 && buckets@[i as int].1@.len() > 0);
                    }
                    return true;
                },
                None => {
                    first = Some(i);
                },
            }
        }
        i = i + 1;
    }
    proof {
        if exists|i1: int, i2: int|
            0 <= i1 < i2 < buckets@.len() && (#[trigger] buckets@[i1]).1@.len() > 0 && (
            #[trigger] buckets@[i2]).1@.len() > 0 {
            let (i1, i2) = choose|i1: int, i2: int|
                0 <= i1 < i2 < buckets@.len() && (#[trigger] buckets@[i1]).1@.len() > 0 && (
                #[trigger] buckets@[i2]).1@.len() > 0;
            match first {
                None => {
                    assert(buckets@[i1].1@.len() == 0);
                },
                Some(f) => {
                    if i1 != f {
                        assert(buckets@[i1].1@.len() == 0);
                    } else {
                        assert(buckets@[i2].1@.len() == 0);
                    }
                },
            }
        }
    }
    false
}

/// Appends the entry to its host's bucket, opening a new bucket for a
/// host not seen before.
fn push_or_insert(map: &mut Vec<(String, Vec<CrawlEntry>)>, key: String, value: CrawlEntry)
    requires
        keys_unique(old(map)@),
        buckets_hosted(old(map)@),
        host_of(value@.url) == Some(key@),
    ensures
        buckets_ms(final(map)@) == buckets_ms(old(map)@).insert(value@),
        keys_unique(final(map)@),
        buckets_hosted(final(map)@),
{
    let n = map.len();
    let mut i: usize = 0;
    while i < n
        invariant
            n == map@.len(),
            i <= n,
            map@ == old(map)@,
            keys_unique(map@),
            buckets_hosted(map@),
            host_of(value@.url) == Some(key@),
            forall|k: int| 0 <= k < i ==> (#[trigger] map@[k]).0@ != key@,
        decreases n - i,
    {
        if eq_str(map[i].0.as_str(), key.as_str()) {
            let ghost old_map = map@;
            let ghost old_bucket = map@[i as int].1@;
            map[i].1.push(value);
            proof {
                let fe = map@[i as int];
                assert(map@ == old_map.update(i as int, fe));
                assert(fe.1@ == old_bucket.push(value));
                assert(models_of(fe.1@).drop_last() =~= models_of(old_bucket));
                assert(models_of(fe.1@).last() == value@);
                assert(bucket_ms(fe) == bucket_ms(old_map[i as int]).insert(value@));
                lemma_buckets_ms_update_insert(old_map, i as int, fe, value@);
                assert(fe.0 == old_map[i as int].0);
                assert(fe.0@ == key@);
                assert forall|i2: int, j2: int| 0 <= i2 < j2 < map@.len() implies (
                #[trigger] map@[i2]).0@ != (#[trigger] map@[j2]).0@ by {
                    assert(map@[i2].0 == old_map[i2].0);
                    assert(map@[j2].0 == old_map[j2].0);
                }
                assert forall|i2: int, j2: int|
                    0 <= i2 < map@.len() && 0 <= j2 < map@[i2].1@.len() implies host_of(
                    (#[trigger] map@[i2].1@[j2])@.url,
                ) == Some(map@[i2].0@) by {
                    if i2 == i {
                        if j2 < old_bucket.len() {
                            assert(map@[i2].1@[j2] == old_bucket[j2]);
                            assert(host_of(old_bucket[j2]@.url) == Some(old_map[i2].0@));
                        } else {
                            assert(map@[i2].1@[j2] == value);
                        }
                    } else {
                        assert(map@[i2] == old_map[i2]);
                        assert(host_of(old_map[i2].1@[j2]@.url) == Some(old_map[i2].0@));
                    }
                }
            }
            return ;
        }
        i = i + 1;
    }
    let ghost old_map = map@;
    let mut fresh: Vec<CrawlEntry> = Vec::new();
    fresh.push(value);
    map.push((key, fresh));
    proof {
        broadcast use vstd::multiset::group_multiset_axioms;

        assert(map@.drop_last() =~= old_map);
        let m = models_of(map@.last().1@);
        assert(map@.last().1@ == fresh@);
        assert(m.len() == 1);
        assert(m.drop_last() =~= Seq::<EntryModel>::empty());
        assert(entries_ms(m.drop_last()) == Multiset::<EntryModel>::empty());
        assert(m.last() == value@);
        assert(entries_ms(m) == entries_ms(m.drop_last()).insert(m.last()));
        assert(bucket_ms(map@.last()) == Multiset::<EntryModel>::empty().insert(value@));
        assert(buckets_ms(map@) =~= buckets_ms(old_map).insert(value@));
        let nn = old_map.len() as int;
        assert forall|i2: int, j2: int| 0 <= i2 < j2 < map@.len() implies (
        #[trigger] map@[i2]).0@ != (#[trigger] map@[j2]).0@ by {
            if j2 < nn {
                assert(map@[i2] == old_map[i2] && map@[j2] == old_map[j2]);
            } else {
                assert(map@[j2].0@ == key@);
                assert(map@[i2] == old_map[i2]);
            }
        }
        assert forall|i2: int, j2: int|
            0 <= i2 < map@.len() && 0 <= j2 < map@[i2].1@.len() implies host_of(
            (#[trigger] map@[i2].1@[j2])@.url,
        ) == Some(map@[i2].0@) by {
            if i2 < nn {
                assert(map@[i2] == old_map[i2]);
                assert(host_of(old_map[i2].1@[j2]@.url) == Some(old_map[i2].0@));
            } else {
                assert(map@[i2].1@[j2] == value);
            }
        }
    }
}

/// Reorders a batch so that entries are taken round-robin from host
/// buckets: the result holds exactly the entries whose URL has a
/// host, as a multiset, and two consecutive entries share a host only
/// when a single host is all that remains. An entry whose host cannot
/// be extracted is dropped.
#[verifier::rlimit(100)]
pub fn disperse_domains(links: Vec<CrawlEntry>) -> (r: Vec<CrawlEntry>)
    ensures
        entries_ms(models_of(r@)) == dispersable_ms(models_of(links@)),
        interleaved(models_of(r@)),
{
    let ghost orig = models_of(links@);
    let mut links = links;
    let total = links.len();
    let mut buckets: Vec<(String, Vec<CrawlEntry>)> = Vec::new();
    let mut count: usize = 0;
    proof {
        broadcast use vstd::multiset::group_multiset_axioms, vstd::multiset::lemma_insert_len;

        lemma_dispersable_len(orig);
    }
    loop
        invariant
            buckets_ms(buckets@).add(dispersable_ms(models_of(links@))) == dispersable_ms(orig),
            count == buckets_ms(buckets@).len(),
            total == orig.len(),
            dispersable_ms(orig).len() <= orig.len(),
            keys_unique(buckets@),
            buckets_hosted(buckets@),
        ensures
            links@.len() == 0,
            buckets_ms(buckets@) == dispersable_ms(orig),
            count == buckets_ms(buckets@).len(),
            keys_unique(buckets@),
            buckets_hosted(buckets@),
        decreases links@.len(),
    {
        broadcast use vstd::multiset::group_multiset_axioms, vstd::multiset::lemma_insert_len;

        let ghost links_before = models_of(links@);
        match links.pop() {
            None => {
                proof {
                    assert(dispersable_ms(models_of(links@)) == Multiset::<EntryModel>::empty());
                    assert(buckets_ms(buckets@) =~= dispersable_ms(orig));
                }
                break ;
            },
            Some(link) => {
                proof {
                    assert(models_of(links@) =~= links_before.drop_last());
                    assert(links_before.last() == link@);
                }
                match Robots::extract_domain(link.url.as_str()) {
                    Some(domain) => {
                        proof {
                            assert(dispersable_ms(links_before) == dispersable_ms(
                                links_before.drop_last(),
                            ).insert(link@));
                        }
                        push_or_insert(&mut buckets, domain, link);
                        proof {
                            assert(buckets_ms(buckets@).len() == count + 1);
                            assert(dispersable_ms(orig).len() == buckets_ms(buckets@).len()
                                + dispersable_ms(models_of(links@)).len());
                            assert(count + 1 <= total);
                        }
                        count = count + 1;
                    },
                    None => {
                        proof {
                            assert(dispersable_ms(links_before) == dispersable_ms(
                                links_before.drop_last(),
                            ));
                        }
                    },
                }
            },
        }
    }
    let mut results: Vec<CrawlEntry> = Vec::new();
    let n = buckets.len();
    let mut remaining = count;
    let ghost mut last_j: int = 0;
    // Round-robin: one sweep over the buckets per turn, one entry per
    // non-empty bucket, while at least two buckets hold entries.
    loop
        invariant
            n == buckets@.len(),
            remaining == buckets_ms(buckets@).len(),
            entries_ms(models_of(results@)).add(buckets_ms(buckets@)) == dispersable_ms(orig),
            keys_unique(buckets@),
            buckets_hosted(buckets@),
            no_adjacent_hosts(models_of(results@)),
            results@.len() > 0 ==> 0 <= last_j < n && host_of(models_of(results@).last().url)
                == Some(buckets@[last_j].0@) && (forall|k: int|
                last_j < k < n ==> (#[trigger] buckets@[k]).1@.len() == 0),
        ensures
            n == buckets@.len(),
            remaining == buckets_ms(buckets@).len(),
            entries_ms(models_of(results@)).add(buckets_ms(buckets@)) == dispersable_ms(orig),
            keys_unique(buckets@),
            buckets_hosted(buckets@),
            no_adjacent_hosts(models_of(results@)),
            at_most_one_nonempty(buckets@),
        decreases remaining,
    {
        broadcast use vstd::multiset::group_multiset_axioms, vstd::multiset::lemma_insert_len;

        if !two_nonempty(&buckets) {
            proof {
                assert forall|i1: int, i2: int| 0 <= i1 < i2 < buckets@.len() implies (
                #[trigger] buckets@[i1]).1@.len() == 0 || (#[trigger] buckets@[i2]).1@.len()
                    == 0 by {
                    if buckets@[i1].1@.len() > 0 && buckets@[i2].1@.len() > 0 {
                        assert(0 <= i1 < i2 < buckets@.len() && buckets@[i1].1@.len() > 0
                            && buckets@[i2].1@.len() > 0);
                    }
                }
            }
            break ;
        }
        let ghost sweep_start = buckets@;
        let ghost start_len = results@.len();
        let before = remaining;
        let mut b: usize = 0;
        while b < n
            invariant
                n == buckets@.len(),
                b <= n,
                remaining <= before,
                remaining == buckets_ms(buckets@).len(),
                entries_ms(models_of(results@)).add(buckets_ms(buckets@)) == dispersable_ms(orig),
                keys_unique(buckets@),
                buckets_hosted(buckets@),
                no_adjacent_hosts(models_of(results@)),
                results@.len() > 0 ==> 0 <= last_j < n && host_of(models_of(results@).last().url)
                    == Some(buckets@[last_j].0@),
                exists|i1: int, i2: int|
                    0 <= i1 < i2 < n && (#[trigger] sweep_start[i1]).1@.len() > 0 && (
                    #[trigger] sweep_start[i2]).1@.len() > 0,
                forall|k: int|
                    0 <= k < n ==> (#[trigger] buckets@[k]).1@.len() <= sweep_start[k].1@.len(),
                remaining == before ==> results@.len() == start_len && (forall|k: int|
                    0 <= k < n ==> (#[trigger] buckets@[k]).1@.len() == sweep_start[k].1@.len())
                    && (forall|k: int| 0 <= k < b ==> (#[trigger] buckets@[k]).1@.len() == 0) && (
                results@.len() > 0 ==> forall|k: int|
                    last_j < k < n ==> (#[trigger] buckets@[k]).1@.len() == 0),
                remaining < before ==> results@.len() > 0 && last_j < b && (forall|k: int|
                    last_j < k < b ==> (#[trigger] buckets@[k]).1@.len() == 0),
            decreases n - b,
        {
            broadcast use vstd::multiset::group_multiset_axioms, vstd::multiset::lemma_insert_len;

            let ghost old_buckets = buckets@;
            let ghost old_results = models_of(results@);
            let ghost first_pop = remaining == before;
            let popped = buckets[b].1.pop();
            match popped {
                Some(e) => {
                    proof {
                        let fe = buckets@[b as int];
                        assert(buckets@ == old_buckets.update(b as int, fe));
                        assert(fe.1@ == old_buckets[b as int].1@.drop_last());
                        assert(models_of(fe.1@) =~= models_of(
                            old_buckets[b as int].1@,
                        ).drop_last());
                        assert(models_of(old_buckets[b as int].1@).last() == e@);
                        assert(bucket_ms(old_buckets[b as int]) == bucket_ms(fe).insert(e@));
                        lemma_buckets_ms_update_remove(old_buckets, b as int, fe, e@);
                        assert(buckets_ms(old_buckets) == buckets_ms(buckets@).insert(e@));
                        assert(fe.0 == old_buckets[b as int].0);
                        lemma_bucket_update_wf(old_buckets, b as int, fe);
                        // the popped entry carries this bucket's host
                        let bl = old_buckets[b as int].1@.len() as int;
                        assert(old_buckets[b as int].1@[bl - 1] == e);
                        assert(host_of(e@.url) == Some(old_buckets[b as int].0@));
                        assert forall|k: int| 0 <= k < n && k != b as int implies (
                        #[trigger] buckets@[k]).1@.len() == old_buckets[k].1@.len() by {
                            assert(buckets@[k] == old_buckets[k]);
                        }
                        if old_results.len() > 0 {
                            // the last emitted entry came from another
                            // bucket, so the hosts differ
                            if first_pop {
                                if last_j == b as int {
                                    let (i1, i2) = choose|i1: int, i2: int|
                                        0 <= i1 < i2 < n && (#[trigger] sweep_start[i1]).1@.len()
                                            > 0 && (#[trigger] sweep_start[i2]).1@.len() > 0;
                                    if i1 != b as int {
                                        assert(old_buckets[i1].1@.len() == sweep_start[i1].1@.len());
                                        assert(old_buckets[i1].1@.len() == 0);
                                    } else {
                                        assert(old_buckets[i2].1@.len() == sweep_start[i2].1@.len());
                                        assert(old_buckets[i2].1@.len() == 0);
                                    }
                                    assert(false);
                                }
                            } else {
                                assert(last_j < b as int);
                            }
                            if last_j < b as int {
                                assert(old_buckets[last_j].0@ != old_buckets[b as int].0@);
                            } else {
                                assert(old_buckets[b as int].0@ != old_buckets[last_j].0@);
                            }
                            assert(host_of(old_results.last().url) != host_of(e@.url));
                        }
                    }
                    results.push(e);
                    proof {
                        assert(models_of(results@).drop_last() =~= old_results);
                        assert(models_of(results@).last() == e@);
                        assert(entries_ms(models_of(results@)) == entries_ms(old_results).insert(
                            e@,
                        ));
                        assert(entries_ms(models_of(results@)).add(buckets_ms(buckets@))
                            =~= dispersable_ms(orig));
                        let res = models_of(results@);
                        assert forall|i2: int| 0 <= i2 && i2 + 1 < res.len() implies host_of(
                            (#[trigger] res[i2]).url,
                        ) != host_of(res[i2 + 1].url) by {
                            if i2 + 1 < old_results.len() {
                                assert(res[i2] == old_results[i2]);
                                assert(res[i2 + 1] == old_results[i2 + 1]);
                            } else {
                                assert(i2 + 1 == res.len() - 1);
                                assert(res[i2] == old_results[i2]);
                                assert(res[i2] == old_results.last());
                                assert(res[i2 + 1] == e@);
                            }
                        }
                        last_j = b as int;
                        assert(buckets@[last_j].0 == old_buckets[b as int].0);
                    }
                    remaining = remaining - 1;
                },
                None => {
                    proof {
                        let fe = buckets@[b as int];
                        assert(buckets@ == old_buckets.update(b as int, fe));
                        assert(fe.1@ == old_buckets[b as int].1@);
                        assert(fe.0 == old_buckets[b as int].0);
                        assert(bucket_ms(fe) == bucket_ms(old_buckets[b as int]));
                        lemma_buckets_ms_update_same(old_buckets, b as int, fe);
                        assert(buckets_ms(buckets@) == buckets_ms(old_buckets));
                        lemma_bucket_update_wf(old_buckets, b as int, fe);
                        assert(buckets@[b as int].1@.len() == 0);
                        assert forall|k: int| 0 <= k < n implies (#[trigger] buckets@[k]).1@.len()
                            == old_buckets[k].1@.len() by {
                            if k != b as int {
                                assert(buckets@[k] == old_buckets[k]);
                            }
                        }
                        if results@.len() > 0 {
                            assert(buckets@[last_j].0 == old_buckets[last_j].0);
                        }
                    }
                },
            }
            b = b + 1;
        }
        proof {
            if remaining == before {
                // nothing was popped although the sweep started with two
                // non-empty buckets: impossible, every bucket was empty
                let (i1, i2) = choose|i1: int, i2: int|
                    0 <= i1 < i2 < n && (#[trigger] sweep_start[i1]).1@.len() > 0 && (
                    #[trigger] sweep_start[i2]).1@.len() > 0;
                assert(buckets@[i1].1@.len() == sweep_start[i1].1@.len());
                assert(buckets@[i1].1@.len() == 0);
                assert(false);
            }
        }
    }
    // Drain: at most one bucket still holds entries; its run is the
    // one same-host tail the round-robin shape allows.
    let ghost mid = results@.len() as int;
    let ghost mut tail_j: int = 0;
    proof {
        assert(models_of(results@).take(mid) =~= models_of(results@));
    }
    let mut b: usize = 0;
    while b < n
        invariant
            n == buckets@.len(),
            b <= n,
            remaining == buckets_ms(buckets@).len(),
            entries_ms(models_of(results@)).add(buckets_ms(buckets@)) == dispersable_ms(orig),
            keys_unique(buckets@),
            buckets_hosted(buckets@),
            at_most_one_nonempty(buckets@),
            0 <= mid <= results@.len(),
            no_adjacent_hosts(models_of(results@).take(mid)),
            results@.len() > mid ==> 0 <= tail_j < n && host_of(models_of(results@)[mid].url)
                == Some(buckets@[tail_j].0@) && (forall|k2: int|
                mid <= k2 < models_of(results@).len() ==> host_of(
                    (#[trigger] models_of(results@)[k2]).url,
                ) == host_of(models_of(results@)[mid].url)) && (forall|k: int|
                0 <= k < n && k != tail_j ==> (#[trigger] buckets@[k]).1@.len() == 0),
            forall|k: int| 0 <= k < b ==> (#[trigger] buckets@[k]).1@.len() == 0,
        decreases n - b,
    {
        loop
            invariant
                n == buckets@.len(),
                b < n,
                remaining == buckets_ms(buckets@).len(),
                entries_ms(models_of(results@)).add(buckets_ms(buckets@)) == dispersable_ms(orig),
                keys_unique(buckets@),
                buckets_hosted(buckets@),
                at_most_one_nonempty(buckets@),
                0 <= mid <= results@.len(),
                no_adjacent_hosts(models_of(results@).take(mid)),
                results@.len() > mid ==> 0 <= tail_j < n && host_of(models_of(results@)[mid].url)
                    == Some(buckets@[tail_j].0@) && (forall|k2: int|
                    mid <= k2 < models_of(results@).len() ==> host_of(
                        (#[trigger] models_of(results@)[k2]).url,
                    ) == host_of(models_of(results@)[mid].url)) && (forall|k: int|
                    0 <= k < n && k != tail_j ==> (#[trigger] buckets@[k]).1@.len() == 0),
                forall|k: int| 0 <= k < b ==> (#[trigger] buckets@[k]).1@.len() == 0,
            ensures
                n == buckets@.len(),
                remaining == buckets_ms(buckets@).len(),
                entries_ms(models_of(results@)).add(buckets_ms(buckets@)) == dispersable_ms(orig),
                keys_unique(buckets@),
                buckets_hosted(buckets@),
                at_most_one_nonempty(buckets@),
                0 <= mid <= results@.len(),
                no_adjacent_hosts(models_of(results@).take(mid)),
                results@.len() > mid ==> 0 <= tail_j < n && host_of(models_of(results@)[mid].url)
                    == Some(buckets@[tail_j].0@) && (forall|k2: int|
                    mid <= k2 < models_of(results@).len() ==> host_of(
                        (#[trigger] models_of(results@)[k2]).url,
                    ) == host_of(models_of(results@)[mid].url)) && (forall|k: int|
                    0 <= k < n && k != tail_j ==> (#[trigger] buckets@[k]).1@.len() == 0),
                forall|k: int| 0 <= k <= b ==> (#[trigger] buckets@[k]).1@.len() == 0,
            decreases buckets@[b as int].1@.len(),
        {
            broadcast use vstd::multiset::group_multiset_axioms, vstd::multiset::lemma_insert_len;

            let ghost old_buckets = buckets@;
            let ghost old_results = models_of(results@);
            let popped = buckets[b].1.pop();
            match popped {
                None => {
                    proof {
                        let fe = buckets@[b as int];
                        assert(buckets@ == old_buckets.update(b as int, fe));
                        assert(fe.1@ == old_buckets[b as int].1@);
                        assert(fe.0 == old_buckets[b as int].0);
                        assert(bucket_ms(fe) == bucket_ms(old_buckets[b as int]));
                        lemma_buckets_ms_update_same(old_buckets, b as int, fe);
                        lemma_bucket_update_wf(old_buckets, b as int, fe);
                        assert(buckets@[b as int].1@.len() == 0);
                        assert forall|k: int| 0 <= k < n && k != b as int implies (
                        #[trigger] buckets@[k]).1@ == old_buckets[k].1@ && buckets@[k].0
                            == old_buckets[k].0 by {
                            assert(buckets@[k] == old_buckets[k]);
                        }
                        assert forall|i1: int, i2: int| 0 <= i1 < i2 < n implies (
                        #[trigger] buckets@[i1]).1@.len() == 0 || (
                        #[trigger] buckets@[i2]).1@.len() == 0 by {
                            assert(old_buckets[i1].1@.len() == 0 || old_buckets[i2].1@.len() == 0);
                            assert(buckets@[i1].1@.len() == old_buckets[i1].1@.len());
                            assert(buckets@[i2].1@.len() == old_buckets[i2].1@.len());
                        }
                        if results@.len() > mid {
                            assert(buckets@[tail_j].0 == old_buckets[tail_j].0);
                        }
                    }
                    break ;
                },
                Some(e) => {
                    proof {
                        let fe = buckets@[b as int];
                        assert(buckets@ == old_buckets.update(b as int, fe));
                        assert(fe.1@ == old_buckets[b as int].1@.drop_last());
                        assert(models_of(fe.1@) =~= models_of(
                            old_buckets[b as int].1@,
                        ).drop_last());
                        assert(models_of(old_buckets[b as int].1@).last() == e@);
                        assert(bucket_ms(old_buckets[b as int]) == bucket_ms(fe).insert(e@));
                        lemma_buckets_ms_update_remove(old_buckets, b as int, fe, e@);
                        assert(buckets_ms(old_buckets) == buckets_ms(buckets@).insert(e@));
                        assert(fe.0 == old_buckets[b as int].0);
                        lemma_bucket_update_wf(old_buckets, b as int, fe);
                        let bl = old_buckets[b as int].1@.len() as int;
                        assert(old_buckets[b as int].1@[bl - 1] == e);
                        assert(host_of(e@.url) == Some(old_buckets[b as int].0@));
                        assert forall|k: int| 0 <= k < n && k != b as int implies (
                        #[trigger] buckets@[k]).1@.len() == old_buckets[k].1@.len() by {
                            assert(buckets@[k] == old_buckets[k]);
                        }
                        assert forall|i1: int, i2: int| 0 <= i1 < i2 < n implies (
                        #[trigger] buckets@[i1]).1@.len() == 0 || (
                        #[trigger] buckets@[i2]).1@.len() == 0 by {
                            assert(old_buckets[i1].1@.len() == 0 || old_buckets[i2].1@.len() == 0);
                        }
                        if old_results.len() > mid {
                            // everything since the front came from this
                            // bucket: all the others are already empty
                            if b as int != tail_j {
                                assert(old_buckets[b as int].1@.len() == 0);
                                assert(false);
                            }
                        } else {
                            tail_j = b as int;
                            assert forall|k: int|
                                0 <= k < n && k != tail_j implies (
                            #[trigger] old_buckets[k]).1@.len() == 0 by {
                                if k < b as int {
                                    assert(old_buckets[k].1@.len() == 0);
                                } else {
                                    assert((b as int) < k && k < n);
                                    assert(old_buckets[b as int].1@.len() == 0
                                        || old_buckets[k].1@.len() == 0);
                                }
                            }
                        }
                    }
                    results.push(e);
                    proof {
                        assert(models_of(results@).drop_last() =~= old_results);
                        assert(models_of(results@).last() == e@);
                        assert(entries_ms(models_of(results@)) == entries_ms(old_results).insert(
                            e@,
                        ));
                        assert(entries_ms(models_of(results@)).add(buckets_ms(buckets@))
                            =~= dispersable_ms(orig));
                        let res = models_of(results@);
                        assert(res.take(mid) =~= old_results.take(mid));
                        assert(res.len() > mid);
                        assert(res[res.len() - 1] == e@);
                        assert forall|k2: int| mid <= k2 < res.len() implies host_of(
                            (#[trigger] res[k2]).url,
                        ) == host_of(res[mid].url) by {
                            if k2 < res.len() - 1 {
                                assert(res[k2] == old_results[k2]);
                                if old_results.len() > mid {
                                    assert(host_of(old_results[k2].url) == host_of(
                                        old_results[mid].url,
                                    ));
                                }
                            } else {
                                assert(res[k2] == e@);
                                if old_results.len() > mid {
                                    assert(host_of(e@.url) == Some(
                                        old_buckets[tail_j].0@,
                                    ));
                                }
                            }
                            assert(res[mid] == if old_results.len() > mid {
                                old_results[mid]
                            } else {
                                e@
                            });
                        }
                        assert(buckets@[tail_j].0 == old_buckets[tail_j].0);
                    }
                    remaining = remaining - 1;
                },
            }
        }
        b = b + 1;
    }
    proof {
        broadcast use vstd::multiset::group_multiset_axioms, vstd::multiset::lemma_multiset_empty_len;

        lemma_buckets_ms_all_empty(buckets@);
        assert(entries_ms(models_of(results@)) =~= dispersable_ms(orig));
        lemma_interleaved_parts(models_of(results@), mid);
    }
    results
}


/// The seed URLs kept from the lines of a seed file: each line with
/// its trailing whitespace trimmed, blank lines dropped, lines that do
/// not parse as URLs dropped, and later duplicates dropped.
pub open spec fn spec_seed_urls(lines: Seq<Seq<char>>) -> Seq<Seq<char>>
    decreases lines.len(),
{
    if lines.len() == 0 {
        Seq::empty()
    } else {
        let prev = spec_seed_urls(lines.drop_last());
        let t = spec_trim_end(lines.last());
        if t.len() > 0 && url_parse(t) is Some && !prev.contains(t) {
            prev.push(t)
        } else {
            prev
        }
    }
}

/// A seed list with duplicates reduces to the unique set before it is
/// enqueued: the kept seed URLs are pairwise distinct.
pub proof fn lemma_seed_urls_distinct(lines: Seq<Seq<char>>)
    ensures
        forall|i: int, j: int|
            0 <= i < j < spec_seed_urls(lines).len() ==> spec_seed_urls(lines)[i]
                != spec_seed_urls(lines)[j],
    decreases lines.len(),
{
    if lines.len() > 0 {
        lemma_seed_urls_distinct(lines.drop_last());
        let prev = spec_seed_urls(lines.drop_last());
        let r = spec_seed_urls(lines);
        assert forall|i: int, j: int| 0 <= i < j < r.len() implies r[i] != r[j] by {
            if j < prev.len() {
                assert(prev[i] == r[i] && prev[j] == r[j]);
            } else {
                assert(r[i] == prev[i]);
                assert(prev.contains(prev[i]));
            }
        }
    }
}

fn contains_string(v: &Vec<String>, s: &str) -> (r: bool)
    ensures
        r == v.deep_view().contains(s@),
{
    let n = v.len();
    let mut i: usize = 0;
    while i < n
        invariant
            n == v@.len(),
            i <= n,
            forall|k: int| 0 <= k < i ==> (#[trigger] v@[k])@ != s@,
        decreases n - i,
    {
        if eq_str(v[i].as_str(), s) {
            proof {
                assert(v.deep_view()[i as int] == s@);
            }
            return true;
        }
        i = i + 1;
    }
    proof {
        if v.deep_view().contains(s@) {
            let k = choose|k: int| 0 <= k < v.deep_view().len() && v.deep_view()[k] == s@;
            assert((v@[k])@ == s@);
        }
    }
    false
}

/// The entries a list of seed URLs becomes at a given depth.
pub open spec fn seed_models(urls: Seq<Seq<char>>, depth: u8) -> Seq<EntryModel> {
    urls.map_values(|u: Seq<char>| EntryModel { url: u, depth })
}

/// Turns the lines of a seed file into dispersed crawl entries: lines
/// are trimmed, blanks and unparsable URLs dropped, duplicates
/// reduced to their first occurrence, and the result dispersed across
/// hosts.
pub fn init_seed_list(lines: Vec<String>, recursion_depth: u8) -> (r: Vec<CrawlEntry>)
    ensures
        entries_ms(models_of(r@)) == dispersable_ms(
            seed_models(spec_seed_urls(lines.deep_view()), recursion_depth),
        ),
        interleaved(models_of(r@)),
{
    let mut urls: Vec<String> = Vec::new();
    let n = lines.len();
    let mut i: usize = 0;
    while i < n
        invariant
            n == lines@.len(),
            i <= n,
            urls.deep_view() == spec_seed_urls(lines.deep_view().take(i as int)),
        decreases n - i,
    {
        proof {
            let lv = lines.deep_view();
            assert(lv.take(i + 1).drop_last() =~= lv.take(i as int));
            assert(lv.take(i + 1).last() == lv[i as int]);
            assert(lv[i as int] == (lines@[i as int])@);
        }
        let t = trim_end(lines[i].as_str());
        let keep = if t.as_str().is_empty() {
            false
        } else if parse_url(t.as_str()).is_none() {
            false
        } else {
            !contains_string(&urls, t.as_str())
        };
        if keep {
            urls.push(t);
            proof {
                assert(urls.deep_view() =~~= spec_seed_urls(lines.deep_view().take(i + 1)));
            }
        } else {
            proof {
                assert(urls.deep_view() =~~= spec_seed_urls(lines.deep_view().take(i + 1)));
            }
        }
        i = i + 1;
    }
    proof {
        assert(lines.deep_view().take(n as int) =~= lines.deep_view());
    }
    let mut entries: Vec<CrawlEntry> = Vec::new();
    let m = urls.len();
    let mut j: usize = 0;
    while j < m
        invariant
            m == urls@.len(),
            j <= m,
            urls.deep_view() == spec_seed_urls(lines.deep_view()),
            models_of(entries@) == seed_models(urls.deep_view().take(j as int), recursion_depth),
        decreases m - j,
    {
        let ghost old_entries = entries@;
        entries.push(CrawlEntry::new(urls[j].clone(), recursion_depth));
        proof {
            let lhs = models_of(entries@);
            let rhs = seed_models(urls.deep_view().take(j + 1), recursion_depth);
            let prev = seed_models(urls.deep_view().take(j as int), recursion_depth);
            assert(old_entries.len() == prev.len());
            assert(prev.len() == j as int);
            assert(lhs.len() == entries@.len());
            assert(entries@.len() == old_entries.len() + 1);
            assert(urls.deep_view().len() == m as int);
            assert(rhs.len() == j + 1);
            assert(lhs.len() == rhs.len());
            assert forall|k: int| 0 <= k < lhs.len() implies lhs[k] == rhs[k] by {
                assert(lhs[k] == entries@[k]@);
                assert(rhs[k] == (EntryModel {
                    url: urls.deep_view().take(j + 1)[k],
                    depth: recursion_depth,
                }));
                if k < j {
                    assert(entries@[k] == old_entries[k]);
                    assert(models_of(old_entries)[k] == prev[k]);
                    assert(prev[k] == (EntryModel {
                        url: urls.deep_view().take(j as int)[k],
                        depth: recursion_depth,
                    }));
                } else {
                    assert(entries@[k].url@ == urls.deep_view()[j as int]);
                }
            }
            assert(lhs =~= rhs);
        }
        j = j + 1;
    }
    proof {
        assert(urls.deep_view().take(m as int) =~= urls.deep_view());
    }
    disperse_domains(entries)
}

} // verus!
