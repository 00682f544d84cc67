//! Streaming parse sessions over fetched sitemap bodies, and robots.txt
//! seeding: the two wire formats are read by outside parser crates behind
//! trusted wrappers, and surface here as plain records.

use vstd::prelude::*;

use robotparser::service::RobotsTxtService;

use crate::util::url_host;

verus! {

/// One record pulled out of a sitemap body: a page URL to surface, a
/// nested sitemap to descend into, or a record that could not be read.
pub enum RawRecord {
    UrlEntry(String),
    NestedSitemap(String),
    Malformed,
}

/// Mathematical image of a [`RawRecord`].
pub enum RecView {
    UrlEntry(Seq<char>),
    NestedSitemap(Seq<char>),
    Malformed,
}

impl View for RawRecord {
    type V = RecView;

    open spec fn view(&self) -> RecView {
        match self {
            RawRecord::UrlEntry(s) => RecView::UrlEntry(s@),
            RawRecord::NestedSitemap(s) => RecView::NestedSitemap(s@),
            RawRecord::Malformed => RecView::Malformed,
        }
    }
}

/// The records the sitemap crate parses out of a body, in stream order.
pub uninterp spec fn records_of(body: Seq<u8>) -> Seq<RecView>;

/// An open streaming parse session over one fetched sitemap body. The
/// session is finite and not restartable; a fresh one is opened per fetch.
#[verifier::external_body]
pub(crate) struct ParseSession {
    reader: sitemap::reader::SiteMapReader<std::io::Cursor<Vec<u8>>>,
}

/// The records an open session has not yet handed out, in stream order.
pub uninterp spec fn session_records(s: ParseSession) -> Seq<RecView>;

/// Relies on `sitemap::reader::SiteMapReader::new`: opens a streaming
/// parse session whose remaining records are exactly what the sitemap
/// crate parses out of `body`.
#[verifier::external_body]
pub(crate) fn open_session(body: Vec<u8>) -> (s: ParseSession)
    ensures
        session_records(s) == records_of(body@),
{
    ParseSession { reader: sitemap::reader::SiteMapReader::new(std::io::Cursor::new(body)) }
}

/// Relies on `SiteMapReader`'s iterator (`next`) and
/// `sitemap::structs::Location::get_url`: pulls the next record of the
/// open session. URL and nested-sitemap entries carry their absolute
/// location text; an entry without a parsed location, like an XML read
/// error, is a malformed record.
#[verifier::external_body]
pub(crate) fn session_next(s: &mut ParseSession) -> (r: Option<RawRecord>)
    ensures
        session_records(*old(s)).len() == 0 ==> r is None && session_records(*final(s))
            == session_records(*old(s)),
        session_records(*old(s)).len() > 0 ==> r is Some && r->0@ == session_records(*old(s))[0]
            && session_records(*final(s)) == session_records(*old(s)).drop_first(),
{
    let rec = match s.reader.next() {
        None => return None,
        Some(sitemap::reader::SiteMapEntity::Url(u)) => match u.loc.get_url() {
            Some(link) => RawRecord::UrlEntry(String::from(link.as_str())),
            None => RawRecord::Malformed,
        },
        Some(sitemap::reader::SiteMapEntity::SiteMap(m)) => match m.loc.get_url() {
            Some(link) => RawRecord::NestedSitemap(String::from(link.as_str())),
            None => RawRecord::Malformed,
        },
        Some(sitemap::reader::SiteMapEntity::Err(_)) => RawRecord::Malformed,
    };
    Some(rec)
}

/// The sitemap locations a robots.txt body declares, in order, as the
/// robotparser crate reads them out of the body text.
pub uninterp spec fn robots_sitemaps_of(body: Seq<char>) -> Seq<Seq<char>>;

/// Relies on `robotparser::parser::parse_robots_txt` and
/// `RobotsTxtService::get_sitemaps` (and on `url::Url::parse` for the
/// origin handed to the parser): reads a robots.txt body and hands back
/// the declared sitemap locations. The declared sitemaps are a function
/// of the body alone; the origin only scopes the access rules, which are
/// not consulted here.
#[verifier::external_body]
pub(crate) fn robots_sitemaps(origin_url: &str, body: &str) -> (r: Vec<String>)
    requires
        url_host(origin_url@) is Some,
    ensures
        r@.map_values(|s: String| s@) == robots_sitemaps_of(body@),
{
    let origin = url::Url::parse(origin_url).unwrap().origin();
    let parsed = robotparser::parser::parse_robots_txt(origin, body).get_result();
    parsed.get_sitemaps().iter().map(|u| String::from(u.as_str())).collect()
}

} // verus!
