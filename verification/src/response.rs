//! The record of one fetched page: what the fetcher captured from the
//! HTTP exchange, reduced to plain values, and its conversion into a
//! WARC record for the output stream.
use vstd::prelude::*;
use vstd::string::StrSliceExecFns;
use vstd::string::StringSliceAdditionalSpecFns;
use vstd::utf8::encode_utf8;

use crate::crawl_utils::{http_headers_fmt, pairs_view, soup_text, spec_headers_fmt};
use crate::html::{html_text, parse_html, HtmlDom};
use crate::strutil::{dec_str, eq_str, u64_to_dec};

verus! {

/// One record of the output WARC stream: a version preamble, named
/// headers in order, and the page text as the body.
pub struct WetRecord {
    pub version: String,
    pub headers: Vec<(String, Vec<u8>)>,
    pub body: String,
}

/// What the fetcher keeps of a successful HTTP exchange. The
/// `content_length` field reflects the Content-Length header as
/// reported; absent means zero.
pub struct Response {
    pub ip: String,
    pub version: String,
    pub status: String,
    pub url: String,
    pub data: String,
    pub content_length: u64,
    pub headers: String,
    pub time: String,
}

/// Why a fetched page could not become a `Response`.
#[derive(Debug, PartialEq, Eq, Structural)]
pub enum ResponseError {
    RequestError,
    TextError,
}

/// Header pairs with every `content-length` header removed, order
/// kept.
pub open spec fn spec_strip_cl(hs: Seq<(Seq<char>, Seq<char>)>) -> Seq<(Seq<char>, Seq<char>)>
    decreases hs.len(),
{
    if hs.len() == 0 {
        Seq::empty()
    } else {
        let prev = spec_strip_cl(hs.drop_last());
        if hs.last().0 == "content-length"@ {
            prev
        } else {
            prev.push(hs.last())
        }
    }
}

/// Header pairs with the `content-length` header set to `v`: any
/// reported value is removed and the definitive one stands last.
pub open spec fn spec_set_cl(hs: Seq<(Seq<char>, Seq<char>)>, v: Seq<char>) -> Seq<
    (Seq<char>, Seq<char>),
> {
    spec_strip_cl(hs).push(("content-length"@, v))
}

/// What the WARC record of a response holds: the version preamble,
/// the six headers in order, and the page's visible text as the body.
/// The record identifier is fresh and not pinned down.
pub open spec fn wet_record_for(rec: WetRecord, resp: Response) -> bool {
    &&& rec.version@ == "1.0"@
    &&& rec.body@ == html_text(resp.data@)
    &&& rec.headers@.len() == 6
    &&& rec.headers@[0].0@ == "WARC-Record-ID"@
    &&& rec.headers@[0].1@.len() > 0
    &&& rec.headers@[1].0@ == "WARC-Target-URI"@
    &&& rec.headers@[1].1@ == encode_utf8(resp.url@)
    &&& rec.headers@[2].0@ == "WARC-Type"@
    &&& rec.headers@[2].1@ == encode_utf8("warcinfo"@)
    &&& rec.headers@[3].0@ == "WARC-Date"@
    &&& rec.headers@[3].1@ == encode_utf8(resp.time@)
    &&& rec.headers@[4].0@ == "WARC-IP-Address"@
    &&& rec.headers@[4].1@ == encode_utf8(resp.ip@)
    &&& rec.headers@[5].0@ == "Content-Length"@
    &&& rec.headers@[5].1@ == encode_utf8(dec_str(encode_utf8(rec.body@).len()))
}

/// A non-empty sequence encodes to at least one byte.
proof fn lemma_encode_utf8_nonempty(s: Seq<char>)
    requires
        s.len() > 0,
    ensures
        encode_utf8(s).len() > 0,
{
    assert(vstd::utf8::encode_scalar(s[0] as u32).len() > 0);
}

/// Relies on warc's `Record::generate_record_id` for a fresh record
/// identifier, always of the bracketed URN form, so never empty; the
/// value itself is random and not claimed.
#[verifier::external_body]
fn generate_record_id() -> (r: String)
    ensures
        r@.len() > 0,
{
    warc::Record::<warc::BufferedBody>::generate_record_id()
}

impl Response {
    /// Builds the kept form of a fetched response. The formatted
    /// header block carries the reported content length as its
    /// definitive `content-length` value.
    pub fn new(
        ip: String,
        version: String,
        status: String,
        url: &str,
        data: &str,
        content_length: u64,
        headers: &Vec<(String, String)>,
        time: &str,
    ) -> (r: Self)
        ensures
            r.ip == ip,
            r.version == version,
            r.status == status,
            r.url@ == url@,
            r.data@ == data@,
            r.content_length == content_length,
            r.time@ == time@,
            r.headers@ == spec_headers_fmt(
                spec_set_cl(pairs_view(headers@), dec_str(content_length as nat)),
            ),
    {
        let mut hs: Vec<(String, String)> = Vec::new();
        let n = headers.len();
        let mut i: usize = 0;
        while i < n
            invariant
                n == headers@.len(),
                i <= n,
                pairs_view(hs@) == spec_strip_cl(pairs_view(headers@).take(i as int)),
            decreases n - i,
        {
            proof {
                let pv = pairs_view(headers@);
                assert(pv.take(i + 1).drop_last() =~= pv.take(i as int));
                assert(pv.take(i + 1).last() == pv[i as int]);
            }
            if !eq_str(headers[i].0.as_str(), "content-length") {
                hs.push((headers[i].0.clone(), headers[i].1.clone()));
                proof {
                    assert(pairs_view(hs@) =~~= spec_strip_cl(
                        pairs_view(headers@).take(i + 1),
                    ));
                }
            } else {
                proof {
                    assert(pairs_view(hs@) =~~= spec_strip_cl(
                        pairs_view(headers@).take(i + 1),
                    ));
                }
            }
            i = i + 1;
        }
        proof {
            assert(pairs_view(headers@).take(n as int) =~= pairs_view(headers@));
        }
        hs.push(("content-length".to_owned(), u64_to_dec(content_length)));
        proof {
            assert(pairs_view(hs@) =~~= spec_set_cl(
                pairs_view(headers@),
                dec_str(content_length as nat),
            ));
        }
        let headers_fmt = http_headers_fmt(&hs);
        Response {
            ip,
            version,
            status,
            url: url.to_owned(),
            data: data.to_owned(),
            content_length,
            headers: headers_fmt,
            time: time.to_owned(),
        }
    }

    /// Parses the page body into a DOM.
    pub fn to_soup(&self) -> (r: HtmlDom)
        ensures
            r.spec_html() == self.data@,
    {
        parse_html(self.data.as_str())
    }

    /// Assembles the WARC record of this response: the fixed header
    /// list in order, and the page's visible text as the body. The
    /// record identifier is freshly generated and not pinned down.
    pub fn to_warcrecord(&self, soup: Option<&HtmlDom>) -> (r: WetRecord)
        ensures
            r.version@ == "1.0"@,
            r.body@ == (match soup {
                Some(d) => html_text(d.spec_html()),
                None => html_text(self.data@),
            }),
            r.headers@.len() == 6,
            r.headers@[0].0@ == "WARC-Record-ID"@,
            r.headers@[0].1@.len() > 0,
            r.headers@[1].0@ == "WARC-Target-URI"@,
            r.headers@[1].1@ == encode_utf8(self.url@),
            r.headers@[2].0@ == "WARC-Type"@,
            r.headers@[2].1@ == encode_utf8("warcinfo"@),
            r.headers@[3].0@ == "WARC-Date"@,
            r.headers@[3].1@ == encode_utf8(self.time@),
            r.headers@[4].0@ == "WARC-IP-Address"@,
            r.headers@[4].1@ == encode_utf8(self.ip@),
            r.headers@[5].0@ == "Content-Length"@,
            r.headers@[5].1@ == encode_utf8(dec_str(encode_utf8(r.body@).len())),
    {
        let text = match soup {
            Some(my_soup) => soup_text(my_soup),
            None => {
                let dom = self.to_soup();
                soup_text(&dom)
            },
        };
        let body_len = text.as_str().as_bytes().len();
        let content_length = u64_to_dec(body_len as u64);
        let record_id = generate_record_id();
        proof {
            lemma_encode_utf8_nonempty(record_id@);
        }
        let mut headers: Vec<(String, Vec<u8>)> = Vec::new();
        headers.push(("WARC-Record-ID".to_owned(), record_id.as_str().as_bytes_vec()));
        headers.push(("WARC-Target-URI".to_owned(), self.url.as_str().as_bytes_vec()));
        headers.push(("WARC-Type".to_owned(), "warcinfo".as_bytes_vec()));
        headers.push(("WARC-Date".to_owned(), self.time.as_str().as_bytes_vec()));
        headers.push(("WARC-IP-Address".to_owned(), self.ip.as_str().as_bytes_vec()));
        headers.push(("Content-Length".to_owned(), content_length.as_str().as_bytes_vec()));
        WetRecord { version: "1.0".to_owned(), headers, body: text }
    }
}

} // verus!
