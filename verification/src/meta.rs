//! Site metadata traversal: the value types identifying sitemap resources
//! and the pull-based engine that walks a host's sitemap federation.

use vstd::prelude::*;
use vstd::string::StringExecFns;

use crate::sectioned_list::{lemma_has_key_arena, lemma_keys_has_key, lemma_main_in_arena,
    SectionedList};
use crate::session::{open_session, records_of, robots_sitemaps, robots_sitemaps_of, session_next,
    session_records, ParseSession, RawRecord, RecView};
use crate::util::{parse_host, url_host, UrlError};

verus! {

/// Resource identity reported by a server for a fetched sitemap: an entity
/// tag or a last-modified date, used for conditional re-fetching.
pub enum ResID {
    ETag(String),
    LastMod(String),
    Empty,
}

/// Mathematical image of a [`ResID`].
pub enum IdView {
    ETag(Seq<char>),
    LastMod(Seq<char>),
    Empty,
}

impl View for ResID {
    type V = IdView;

    open spec fn view(&self) -> IdView {
        match self {
            ResID::ETag(s) => IdView::ETag(s@),
            ResID::LastMod(s) => IdView::LastMod(s@),
            ResID::Empty => IdView::Empty,
        }
    }
}

impl Clone for ResID {
    fn clone(&self) -> (r: Self)
        ensures
            r@ == self@,
    {
        match self {
            ResID::ETag(s) => ResID::ETag(s.clone()),
            ResID::LastMod(s) => ResID::LastMod(s.clone()),
            ResID::Empty => ResID::Empty,
        }
    }
}

/// The conditional-request header name for an identity kind.
pub open spec fn keytxt_spec(id: IdView) -> Seq<char> {
    match id {
        IdView::LastMod(_) => "If-Modified-Since"@,
        IdView::ETag(_) => "If-Match"@,
        IdView::Empty => ""@,
    }
}

/// The conditional-request header value for an identity kind.
pub open spec fn valtxt_spec(id: IdView) -> Seq<char> {
    match id {
        IdView::LastMod(s) => s,
        IdView::ETag(s) => s,
        IdView::Empty => ""@,
    }
}

impl ResID {
    /// An absent identity.
    pub fn empty() -> (r: Self)
        ensures
            r@ == IdView::Empty,
    {
        ResID::Empty
    }

    /// Whether no identity was recorded.
    pub fn is_empty(&self) -> (r: bool)
        ensures
            r == (self@ is Empty),
    {
        match self {
            ResID::Empty => true,
            _ => false,
        }
    }

    /// The header name to send when re-fetching conditionally.
    pub fn keytxt(&self) -> (r: &str)
        requires
            !(self@ is Empty),
        ensures
            r@ == keytxt_spec(self@),
    {
        match self {
            ResID::LastMod(_) => "If-Modified-Since",
            ResID::ETag(_) => "If-Match",
            ResID::Empty => "",
        }
    }

    /// The header value to send when re-fetching conditionally.
    pub fn valtxt(&self) -> (r: &str)
        requires
            !(self@ is Empty),
        ensures
            r@ == valtxt_spec(self@),
    {
        match self {
            ResID::LastMod(s) => s.as_str(),
            ResID::ETag(s) => s.as_str(),
            ResID::Empty => "",
        }
    }
}

/// A sitemap location known to the crawler, with the resource identity
/// recorded the last time it was fetched successfully. The location text
/// is the deduplication key.
pub struct SitemapRef {
    pub location: String,
    pub last_id: ResID,
}

/// Mathematical image of a [`SitemapRef`].
pub struct RefView {
    pub location: Seq<char>,
    pub id: IdView,
}

impl View for SitemapRef {
    type V = RefView;

    open spec fn view(&self) -> RefView {
        RefView { location: self.location@, id: self.last_id@ }
    }
}

impl Clone for SitemapRef {
    fn clone(&self) -> (r: Self)
        ensures
            r@ == self@,
    {
        SitemapRef { location: self.location.clone(), last_id: self.last_id.clone() }
    }
}

impl SitemapRef {
    /// A reference to a sitemap that has never been fetched.
    pub fn new(location: String) -> (r: Self)
        ensures
            r@.location == location@,
            r@.id == IdView::Empty,
            r@ == (RefView { location: location@, id: IdView::Empty }),
    {
        SitemapRef { location, last_id: ResID::Empty }
    }
}

/// The idiomatic guess for a host's sitemap location: a file named
/// `sitemap.xml` at the root of the domain.
pub open spec fn default_guess(host: Seq<char>) -> Seq<char> {
    "https://"@ + host + "/sitemap.xml"@
}

/// The standard location of a host's robots.txt file.
pub open spec fn robots_guess(host: Seq<char>) -> Seq<char> {
    "https://"@ + host + "/robots.txt"@
}

/// Builds the idiomatic sitemap guess for a host name.
pub fn guess_sitemap(host: &str) -> (r: String)
    ensures
        r@ == default_guess(host@),
{
    let mut out = String::from_str("https://");
    out.append(host);
    out.append("/sitemap.xml");
    out
}

/// Builds the standard robots.txt location for a host name.
pub fn guess_robots(host: &str) -> (r: String)
    ensures
        r@ == robots_guess(host@),
{
    let mut out = String::from_str("https://");
    out.append(host);
    out.append("/robots.txt");
    out
}

/// What the engine asks of its caller next: fetch a sitemap at this
/// location and report the outcome, take this discovered URL, or stop —
/// the traversal is exhausted.
pub enum Step {
    Fetch(String),
    Url(String),
    Done,
}

/// Whether a record is the next one to surface: a URL entry whose
/// location is an absolute URL with a host, not yielded before.
pub open spec fn record_yieldable(rec: RecView, seen: Set<Seq<char>>) -> bool {
    rec matches RecView::UrlEntry(u) && url_host(u) is Some && !seen.contains(u)
}

/// The outcome of draining an open parse session up to the next URL to
/// surface, or to exhaustion.
pub struct DrainOut {
    pub yielded_url: Option<Seq<char>>,
    pub rest: Seq<RecView>,
    pub map_keys: Set<Seq<char>>,
    pub fresh: Seq<RefView>,
    pub seen: Set<Seq<char>>,
}

/// Drains records in stream order: nested sitemaps with a resolvable
/// location are enqueued (subject to dedup against every sitemap ever
/// seen), malformed and unresolvable records are skipped, and the first
/// URL entry not yielded before stops the drain and is surfaced.
pub open spec fn drain(
    records: Seq<RecView>,
    map_keys: Set<Seq<char>>,
    fresh: Seq<RefView>,
    seen: Set<Seq<char>>,
) -> DrainOut
    decreases records.len(),
{
    if records.len() == 0 {
        DrainOut { yielded_url: None, rest: records, map_keys, fresh, seen }
    } else {
        match records[0] {
            RecView::UrlEntry(u) => {
                if url_host(u) is Some && !seen.contains(u) {
                    DrainOut {
                        yielded_url: Some(u),
                        rest: records.drop_first(),
                        map_keys,
                        fresh,
                        seen: seen.insert(u),
                    }
                } else {
                    drain(records.drop_first(), map_keys, fresh, seen)
                }
            },
            RecView::NestedSitemap(m) => {
                if url_host(m) is Some && !map_keys.contains(m) {
                    drain(
                        records.drop_first(),
                        map_keys.insert(m),
                        fresh.push(RefView { location: m, id: IdView::Empty }),
                        seen,
                    )
                } else {
                    drain(records.drop_first(), map_keys, fresh, seen)
                }
            },
            RecView::Malformed => drain(records.drop_first(), map_keys, fresh, seen),
        }
    }
}

/// Law: the URL stream is free of duplicates. A drain only surfaces a
/// URL that was never surfaced before, marks it surfaced, and never
/// unmarks one — so however many sitemaps repeat a URL, within one file
/// or across federation levels, it reaches the caller at most once.
pub proof fn lemma_yield_once(
    records: Seq<RecView>,
    map_keys: Set<Seq<char>>,
    fresh: Seq<RefView>,
    seen: Set<Seq<char>>,
)
    ensures
        ({
            let d = drain(records, map_keys, fresh, seen);
            &&& (d.yielded_url matches Some(u) ==> !seen.contains(u) && d.seen.contains(u))
            &&& (forall|u: Seq<char>| seen.contains(u) ==> #[trigger] d.seen.contains(u))
        }),
    decreases records.len(),
{
    if records.len() > 0 {
        match records[0] {
            RecView::UrlEntry(u) => {
                if !(url_host(u) is Some && !seen.contains(u)) {
                    lemma_yield_once(records.drop_first(), map_keys, fresh, seen);
                }
            },
            RecView::NestedSitemap(m) => {
                if url_host(m) is Some && !map_keys.contains(m) {
                    lemma_yield_once(
                        records.drop_first(),
                        map_keys.insert(m),
                        fresh.push(RefView { location: m, id: IdView::Empty }),
                        seen,
                    );
                } else {
                    lemma_yield_once(records.drop_first(), map_keys, fresh, seen);
                }
            },
            RecView::Malformed => {
                lemma_yield_once(records.drop_first(), map_keys, fresh, seen);
            },
        }
    }
}

/// Seeding: pushes each declared location in order, skipping the ones
/// whose key is already present.
pub open spec fn seeded(fresh: Seq<RefView>, keys: Set<Seq<char>>, locs: Seq<Seq<char>>) -> (
    Seq<RefView>,
    Set<Seq<char>>,
)
    decreases locs.len(),
{
    if locs.len() == 0 {
        (fresh, keys)
    } else {
        let l = locs[0];
        if keys.contains(l) {
            seeded(fresh, keys, locs.drop_first())
        } else {
            seeded(
                fresh.push(RefView { location: l, id: IdView::Empty }),
                keys.insert(l),
                locs.drop_first(),
            )
        }
    }
}

/// The step an idle engine (no open session) takes from a state whose
/// queue is not completely empty: fetch the front fresh entry, or report
/// exhaustion.
pub open spec fn pending_result(fresh: Seq<RefView>, step: Step) -> bool {
    if fresh.len() > 0 {
        step matches Step::Fetch(u) && u@ == fresh[0].location
    } else {
        step is Done
    }
}

/// The resumable crawl traversal engine for one host: a pull-based state
/// machine over a two-section queue of pending sitemap references, with
/// fetching left to the caller. [`CrawlState::next_step`] says what to do
/// next; fetch outcomes come back through [`CrawlState::on_fetch_success`]
/// and [`CrawlState::on_fetch_failure`].
pub struct CrawlState {
    host: String,
    maps: SectionedList,
    seen: SectionedList,
    session: Option<ParseSession>,
}

impl CrawlState {
    /// The host this traversal covers.
    pub closed spec fn host_view(self) -> Seq<char> {
        self.host@
    }

    /// The pending (fresh) sitemap references, front to back.
    pub closed spec fn fresh(self) -> Seq<RefView> {
        self.maps.main_view()
    }

    /// The sitemap references that failed on their last fetch attempt.
    pub closed spec fn stale(self) -> Seq<RefView> {
        self.maps.stale_view()
    }

    /// Every sitemap location ever enqueued — pending, stale or consumed.
    pub closed spec fn map_keys(self) -> Set<Seq<char>> {
        self.maps.keys()
    }

    /// How many sitemap references the engine has ever enqueued.
    pub closed spec fn map_count(self) -> int {
        self.maps.arena().len() as int
    }

    /// Every URL surfaced to the caller so far.
    pub closed spec fn yielded(self) -> Set<Seq<char>> {
        self.seen.keys()
    }

    /// The records the open parse session has not yet handed out.
    pub closed spec fn open_records(self) -> Option<Seq<RecView>> {
        match self.session {
            Some(s) => Some(session_records(s)),
            None => None,
        }
    }

    /// Invariant: both queues are internally consistent, and a session is
    /// open only while the sitemap it reads sits at the front of the
    /// fresh section.
    pub closed spec fn inv(self) -> bool {
        &&& self.maps.inv()
        &&& self.seen.inv()
        &&& (self.session is Some ==> self.maps.main_view().len() > 0)
    }

    /// A traversal over the host of `raw_url`, with nothing enqueued yet:
    /// the default sitemap guess is made lazily, on the first step.
    pub fn from_host(raw_url: &str) -> (r: Result<CrawlState, UrlError>)
        ensures
            r is Ok <==> url_host(raw_url@) is Some,
            r is Err ==> r->Err_0 == UrlError::InvalidHost,
            r is Ok ==> {
                let st = r->Ok_0;
                &&& st.inv()
                &&& st.host_view() == url_host(raw_url@)->0
                &&& st.fresh() == Seq::<RefView>::empty()
                &&& st.stale() == Seq::<RefView>::empty()
                &&& st.map_count() == 0
                &&& st.yielded() == Set::<Seq<char>>::empty()
                &&& st.open_records() is None
            },
    {
        match parse_host(raw_url) {
            Some(host) => Ok(
                CrawlState {
                    host,
                    maps: SectionedList::new(),
                    seen: SectionedList::new(),
                    session: None,
                },
            ),
            None => Err(UrlError::InvalidHost),
        }
    }

    /// A traversal seeded from a fetched robots.txt body: every declared
    /// sitemap location is enqueued, in order and deduplicated. If the
    /// body declares none, the engine falls back to the default guess
    /// lazily, on the first step.
    pub fn from_robots(robots_url: &str, robots_body: &str) -> (r: Result<CrawlState, UrlError>)
        ensures
            r is Ok <==> url_host(robots_url@) is Some,
            r is Err ==> r->Err_0 == UrlError::InvalidHost,
            r is Ok ==> {
                let st = r->Ok_0;
                &&& st.inv()
                &&& st.host_view() == url_host(robots_url@)->0
                &&& (st.fresh(), st.map_keys()) == seeded(
                    Seq::<RefView>::empty(),
                    Set::<Seq<char>>::empty(),
                    robots_sitemaps_of(robots_body@),
                )
                &&& st.stale() == Seq::<RefView>::empty()
                &&& st.yielded() == Set::<Seq<char>>::empty()
                &&& st.open_records() is None
            },
    {
        let host = match parse_host(robots_url) {
            Some(host) => host,
            None => {
                return Err(UrlError::InvalidHost);
            },
        };
        let mut st = CrawlState {
            host,
            maps: SectionedList::new(),
            seen: SectionedList::new(),
            session: None,
        };
        let locs = robots_sitemaps(robots_url, robots_body);
        let ghost all = robots_sitemaps_of(robots_body@);
        let mut i: usize = 0;
        proof {
            assert(all == locs@.map_values(|s: String| s@));
            assert(all.skip(0) =~= all);
        }
        while i < locs.len()
            invariant
                st.inv(),
                st.host_view() == url_host(robots_url@)->0,
                st.stale() == Seq::<RefView>::empty(),
                st.yielded() == Set::<Seq<char>>::empty(),
                st.open_records() is None,
                i <= locs.len(),
                all == locs@.map_values(|s: String| s@),
                seeded(Seq::<RefView>::empty(), Set::<Seq<char>>::empty(), all) == seeded(
                    st.fresh(),
                    st.map_keys(),
                    all.skip(i as int),
                ),
            decreases locs.len() - i,
        {
            let ghost pre = st;
            let ghost i0 = i as int;
            let loc = locs[i].clone();
            proof {
                assert(loc@ == all[i0]);
                lemma_keys_has_key(st.maps, loc@);
            }
            let added = st.maps.push_main(SitemapRef::new(loc));
            i = i + 1;
            proof {
                let tail = all.skip(i0);
                assert(tail.len() == all.len() - i0);
                assert(tail[0] == all[i0]);
                assert(tail.drop_first() =~= all.skip(i0 + 1));
                assert(seeded(pre.fresh(), pre.map_keys(), tail) == seeded(
                    st.fresh(),
                    st.map_keys(),
                    all.skip(i0 + 1),
                ));
            }
        }
        proof {
            assert(all.skip(locs@.len() as int).len() == 0);
        }
        Ok(st)
    }

    /// How many sitemap references are parked in the stale section: the
    /// entries whose last fetch attempt failed.
    pub fn stale_count(&self) -> (r: usize)
        requires
            self.inv(),
        ensures
            r == self.stale().len(),
    {
        self.maps.stale_len()
    }

    /// Hands the engine a successful fetch of the front fresh entry: the
    /// entry's resource identity is recorded for future conditional
    /// re-fetching, and a streaming parse session is opened over the body.
    pub fn on_fetch_success(&mut self, body: Vec<u8>, id: ResID)
        requires
            old(self).inv(),
            old(self).open_records() is None,
            old(self).fresh().len() > 0,
        ensures
            final(self).inv(),
            final(self).host_view() == old(self).host_view(),
            final(self).stale() == old(self).stale(),
            final(self).yielded() == old(self).yielded(),
            final(self).map_keys() == old(self).map_keys(),
            final(self).map_count() == old(self).map_count(),
            final(self).open_records() == Some(records_of(body@)),
            final(self).fresh() == old(self).fresh().update(
                0,
                RefView { location: old(self).fresh()[0].location, id: id@ },
            ),
    {
        self.maps.set_main_front_id(id);
        self.session = Some(open_session(body));
    }

    /// Hands the engine a failed fetch of the front fresh entry: the
    /// entry moves to the back of the stale section, untouched, and is
    /// not retried within this traversal.
    pub fn on_fetch_failure(&mut self)
        requires
            old(self).inv(),
            old(self).open_records() is None,
            old(self).fresh().len() > 0,
        ensures
            final(self).inv(),
            final(self).host_view() == old(self).host_view(),
            final(self).yielded() == old(self).yielded(),
            final(self).map_keys() == old(self).map_keys(),
            final(self).map_count() == old(self).map_count(),
            final(self).open_records() is None,
            final(self).fresh() == old(self).fresh().drop_first(),
            final(self).stale() == old(self).stale().push(old(self).fresh()[0]),
    {
        self.maps.skip_main();
    }

    /// The step an engine with no open session takes: fetch the front
    /// fresh entry; else, on a completely empty queue, enqueue the
    /// default sitemap guess once and fetch it; else the traversal is
    /// exhausted.
    fn idle_step(&mut self) -> (step: Step)
        requires
            old(self).inv(),
            old(self).open_records() is None,
        ensures
            final(self).inv(),
            final(self).host_view() == old(self).host_view(),
            final(self).open_records() is None,
            final(self).stale() == old(self).stale(),
            final(self).yielded() == old(self).yielded(),
            if old(self).fresh().len() > 0 {
                &&& final(self).fresh() == old(self).fresh()
                &&& final(self).map_keys() == old(self).map_keys()
                &&& final(self).map_count() == old(self).map_count()
                &&& step matches Step::Fetch(u) && u@ == old(self).fresh()[0].location
            } else if old(self).map_count() == 0 {
                &&& final(self).fresh() == old(self).fresh().push(
                    RefView {
                        location: default_guess(old(self).host_view()),
                        id: IdView::Empty,
                    },
                )
                &&& final(self).map_keys() == old(self).map_keys().insert(
                    default_guess(old(self).host_view()),
                )
                &&& step matches Step::Fetch(u) && u@ == default_guess(old(self).host_view())
            } else {
                &&& final(self).fresh() == old(self).fresh()
                &&& final(self).map_keys() == old(self).map_keys()
                &&& final(self).map_count() == old(self).map_count()
                &&& step is Done
            },
    {
        if self.maps.has_main() {
            let front = self.maps.peek_main().unwrap();
            return Step::Fetch(front.location.clone());
        }
        if self.maps.is_empty() {
            let guess = guess_sitemap(self.host.as_str());
            proof {
                lemma_has_key_arena(self.maps, guess@);
            }
            let added = self.maps.push_main(SitemapRef::new(guess.clone()));
            return Step::Fetch(guess);
        }
        Step::Done
    }

    /// Performs one pull on the traversal. With an open session, records
    /// are drained: nested sitemaps are enqueued (deduplicated), bad
    /// records are skipped, and the first new resolvable URL is surfaced;
    /// an exhausted session closes, its sitemap is consumed for good, and
    /// the engine falls back to asking for the next fetch. With no open
    /// session, the front fresh entry is asked to be fetched — after the
    /// lazy default guess if nothing was ever enqueued — or the
    /// traversal reports exhaustion.
    #[verifier::loop_isolation(false)]
    pub fn next_step(&mut self) -> (step: Step)
        requires
            old(self).inv(),
        ensures
            final(self).inv(),
            final(self).host_view() == old(self).host_view(),
            final(self).stale() == old(self).stale(),
            match old(self).open_records() {
                Some(recs) => {
                    let d = drain(
                        recs,
                        old(self).map_keys(),
                        old(self).fresh(),
                        old(self).yielded(),
                    );
                    match d.yielded_url {
                        Some(u) => {
                            &&& step matches Step::Url(su) && su@ == u
                            &&& final(self).open_records() == Some(d.rest)
                            &&& final(self).fresh() == d.fresh
                            &&& final(self).map_keys() == d.map_keys
                            &&& final(self).yielded() == d.seen
                        },
                        None => {
                            &&& final(self).open_records() is None
                            &&& final(self).fresh() == d.fresh.drop_first()
                            &&& final(self).map_keys() == d.map_keys
                            &&& final(self).yielded() == d.seen
                            &&& pending_result(final(self).fresh(), step)
                        },
                    }
                },
                None => {
                    &&& final(self).yielded() == old(self).yielded()
                    &&& final(self).open_records() is None
                    &&& if old(self).fresh().len() > 0 {
                        &&& final(self).fresh() == old(self).fresh()
                        &&& final(self).map_keys() == old(self).map_keys()
                        &&& step matches Step::Fetch(u) && u@ == old(self).fresh()[0].location
                    } else if old(self).map_count() == 0 {
                        &&& final(self).fresh() == old(self).fresh().push(
                            RefView {
                                location: default_guess(old(self).host_view()),
                                id: IdView::Empty,
                            },
                        )
                        &&& final(self).map_keys() == old(self).map_keys().insert(
                            default_guess(old(self).host_view()),
                        )
                        &&& step matches Step::Fetch(u) && u@ == default_guess(
                            old(self).host_view(),
                        )
                    } else {
                        &&& final(self).fresh() == old(self).fresh()
                        &&& final(self).map_keys() == old(self).map_keys()
                        &&& step is Done
                    }
                },
            },
    {
        let ghost host0 = self.host@;
        let ghost stale0 = self.maps.stale_view();
        if self.session.is_some() {
            let mut sess = self.session.take().unwrap();
            proof {
                assert(old(self).open_records() == Some(session_records(sess)));
            }
            let ghost d = drain(
                session_records(sess),
                self.maps.keys(),
                self.maps.main_view(),
                self.seen.keys(),
            );
            loop
                invariant
                    self.maps.inv(),
                    self.seen.inv(),
                    self.session is None,
                    self.maps.main_view().len() > 0,
                    self.host@ == host0,
                    self.maps.stale_view() == stale0,
                    drain(
                        session_records(sess),
                        self.maps.keys(),
                        self.maps.main_view(),
                        self.seen.keys(),
                    ) == d,
                decreases session_records(sess).len(),
            {
                let ghost pre_records = session_records(sess);
                let ghost pre_keys = self.maps.keys();
                let ghost pre_fresh = self.maps.main_view();
                let ghost pre_seen = self.seen.keys();
                match session_next(&mut sess) {
                    None => {
                        proof {
                            assert(d == (DrainOut {
                                yielded_url: None,
                                rest: pre_records,
                                map_keys: pre_keys,
                                fresh: pre_fresh,
                                seen: pre_seen,
                            }));
                            lemma_main_in_arena(self.maps);
                        }
                        self.maps.consume_main();
                        let step = self.idle_step();
                        return step;
                    },
                    Some(RawRecord::UrlEntry(u)) => {
                        proof {
                            assert(pre_records[0] == RecView::UrlEntry(u@));
                        }
                        if parse_host(u.as_str()).is_some() {
                            proof {
                                lemma_keys_has_key(self.seen, u@);
                            }
                            let added = self.seen.push_main(SitemapRef::new(u.clone()));
                            if added {
                                self.session = Some(sess);
                                proof {
                                    assert(d == (DrainOut {
                                        yielded_url: Some(u@),
                                        rest: pre_records.drop_first(),
                                        map_keys: pre_keys,
                                        fresh: pre_fresh,
                                        seen: pre_seen.insert(u@),
                                    }));
                                }
                                return Step::Url(u);
                            } else {
                                proof {
                                    assert(pre_seen.contains(u@));
                                    assert(drain(pre_records, pre_keys, pre_fresh, pre_seen)
                                        == drain(
                                        pre_records.drop_first(),
                                        pre_keys,
                                        pre_fresh,
                                        pre_seen,
                                    ));
                                }
                            }
                        } else {
                            proof {
                                assert(drain(pre_records, pre_keys, pre_fresh, pre_seen) == drain(
                                    pre_records.drop_first(),
                                    pre_keys,
                                    pre_fresh,
                                    pre_seen,
                                ));
                            }
                        }
                    },
                    Some(RawRecord::NestedSitemap(m)) => {
                        proof {
                            assert(pre_records[0] == RecView::NestedSitemap(m@));
                        }
                        if parse_host(m.as_str()).is_some() {
                            proof {
                                lemma_keys_has_key(self.maps, m@);
                            }
                            let ghost mv = m@;
                            let added = self.maps.push_main(SitemapRef::new(m));
                            proof {
                                if added {
                                    assert(!pre_keys.contains(mv));
                                    assert(drain(pre_records, pre_keys, pre_fresh, pre_seen)
                                        == drain(
                                        pre_records.drop_first(),
                                        pre_keys.insert(mv),
                                        pre_fresh.push(
                                            RefView { location: mv, id: IdView::Empty },
                                        ),
                                        pre_seen,
                                    ));
                                } else {
                                    assert(pre_keys.contains(mv));
                                    assert(drain(pre_records, pre_keys, pre_fresh, pre_seen)
                                        == drain(
                                        pre_records.drop_first(),
                                        pre_keys,
                                        pre_fresh,
                                        pre_seen,
                                    ));
                                }
                            }
                        } else {
                            proof {
                                assert(drain(pre_records, pre_keys, pre_fresh, pre_seen) == drain(
                                    pre_records.drop_first(),
                                    pre_keys,
                                    pre_fresh,
                                    pre_seen,
                                ));
                            }
                        }
                    },
                    Some(RawRecord::Malformed) => {
                        proof {
                            assert(pre_records[0] == RecView::Malformed);
                            assert(drain(pre_records, pre_keys, pre_fresh, pre_seen) == drain(
                                pre_records.drop_first(),
                                pre_keys,
                                pre_fresh,
                                pre_seen,
                            ));
                        }
                    },
                }
            }
        }
        let step = self.idle_step();
        step
    }
}

} // verus!
