use rs_pider::meta::{CrawlState, ResID, Step};
use rs_pider::util::UrlError;

fn urlset(locs: &[&str]) -> Vec<u8> {
    let mut body = String::from(
        "<?xml version=\"1.0\" encoding=\"UTF-8\"?>\
         <urlset xmlns=\"http://www.sitemaps.org/schemas/sitemap/0.9\">",
    );
    for loc in locs {
        body.push_str("<url><loc>");
        body.push_str(loc);
        body.push_str("</loc></url>");
    }
    body.push_str("</urlset>");
    body.into_bytes()
}

fn sitemapindex(locs: &[&str]) -> Vec<u8> {
    let mut body = String::from(
        "<?xml version=\"1.0\" encoding=\"UTF-8\"?>\
         <sitemapindex xmlns=\"http://www.sitemaps.org/schemas/sitemap/0.9\">",
    );
    for loc in locs {
        body.push_str("<sitemap><loc>");
        body.push_str(loc);
        body.push_str("</loc></sitemap>");
    }
    body.push_str("</sitemapindex>");
    body.into_bytes()
}

fn expect_fetch(state: &mut CrawlState) -> String {
    match state.next_step() {
        Step::Fetch(loc) => loc,
        Step::Url(u) => panic!("expected a fetch request, got URL {}", u),
        Step::Done => panic!("expected a fetch request, got exhaustion"),
    }
}

/// Pulls the traversal to exhaustion, feeding it the given bodies by
/// location, and collects every yielded URL.
fn run_crawl(state: &mut CrawlState, bodies: &[(&str, Vec<u8>)]) -> Vec<String> {
    let mut urls = Vec::new();
    let mut steps = 0;
    loop {
        steps += 1;
        assert!(steps < 1000, "traversal did not terminate");
        match state.next_step() {
            Step::Fetch(loc) => {
                match bodies.iter().find(|(l, _)| *l == loc.as_str()) {
                    Some((_, body)) => state.on_fetch_success(body.clone(), ResID::Empty),
                    None => state.on_fetch_failure(),
                }
            }
            Step::Url(u) => urls.push(u),
            Step::Done => return urls,
        }
    }
}

#[test]
fn invalid_host_is_rejected() {
    let r = CrawlState::from_host("mailto:someone@example.com");
    assert!(matches!(r, Err(UrlError::InvalidHost)));
    let r = CrawlState::from_host("not a url at all");
    assert!(matches!(r, Err(UrlError::InvalidHost)));
}

#[test]
fn default_guess_is_made_lazily() {
    let mut state = CrawlState::from_host("https://example.com").unwrap();
    let loc = expect_fetch(&mut state);
    assert_eq!(loc, "https://example.com/sitemap.xml");
}

#[test]
fn root_with_no_sitemap() {
    // robots.txt declares no sitemaps; the guessed default 404s:
    // the traversal yields nothing and exactly one stale entry remains
    let robots = "User-agent: *\nDisallow: /private\n";
    let mut state =
        CrawlState::from_robots("https://example.com/robots.txt", robots).unwrap();
    let loc = expect_fetch(&mut state);
    assert_eq!(loc, "https://example.com/sitemap.xml");
    state.on_fetch_failure(); // HttpStatus(404)
    assert!(matches!(state.next_step(), Step::Done));
    assert_eq!(state.stale_count(), 1);
}

#[test]
fn robots_seeding_declares_sitemaps() {
    let robots = "User-agent: *\nDisallow:\nSitemap: https://example.com/s1.xml\nSitemap: https://example.com/s2.xml\n";
    let mut state =
        CrawlState::from_robots("https://example.com/robots.txt", robots).unwrap();
    let loc = expect_fetch(&mut state);
    assert_eq!(loc, "https://example.com/s1.xml");
    state.on_fetch_failure();
    let loc = expect_fetch(&mut state);
    assert_eq!(loc, "https://example.com/s2.xml");
    state.on_fetch_failure();
    assert!(matches!(state.next_step(), Step::Done));
    assert_eq!(state.stale_count(), 2);
}

#[test]
fn relative_sitemap_directives_are_ignored() {
    // a Sitemap directive must carry an absolute URL; a relative one is
    // dropped by the robots parser, so the engine falls back to the guess
    let robots = "User-agent: *\nSitemap: /relative.xml\n";
    let mut state =
        CrawlState::from_robots("https://example.com/robots.txt", robots).unwrap();
    let loc = expect_fetch(&mut state);
    assert_eq!(loc, "https://example.com/sitemap.xml");
}

#[test]
fn nested_federation_yields_all_urls_once() {
    // a root sitemap index federates two nested sitemaps; the traversal
    // yields all three distinct URLs, and the nested sitemaps' own
    // locations are consumed, never yielded as URLs
    let mut state = CrawlState::from_host("https://example.com").unwrap();
    let urls = run_crawl(
        &mut state,
        &[
            (
                "https://example.com/sitemap.xml",
                sitemapindex(&["https://example.com/a.xml", "https://example.com/b.xml"]),
            ),
            (
                "https://example.com/a.xml",
                urlset(&["https://example.com/page1", "https://example.com/page2"]),
            ),
            (
                "https://example.com/b.xml",
                urlset(&["https://example.com/page3"]),
            ),
        ],
    );
    assert_eq!(
        urls,
        vec![
            "https://example.com/page1",
            "https://example.com/page2",
            "https://example.com/page3",
        ]
    );
    assert_eq!(state.stale_count(), 0);
}

#[test]
fn self_referencing_federation_terminates() {
    // a sitemap index that lists itself is deduplicated, not re-fetched
    let mut state = CrawlState::from_host("https://example.com").unwrap();
    let urls = run_crawl(
        &mut state,
        &[
            (
                "https://example.com/sitemap.xml",
                sitemapindex(&["https://example.com/sitemap.xml", "https://example.com/a.xml"]),
            ),
            (
                "https://example.com/a.xml",
                urlset(&["https://example.com/page1"]),
            ),
        ],
    );
    assert_eq!(urls, vec!["https://example.com/page1"]);
}

#[test]
fn duplicate_across_levels_yields_once() {
    // the second sitemap repeats a URL already yielded from the first:
    // the traversal yields that URL exactly once
    let mut state = CrawlState::from_host("https://example.com").unwrap();
    let urls = run_crawl(
        &mut state,
        &[
            (
                "https://example.com/sitemap.xml",
                sitemapindex(&["https://example.com/a.xml", "https://example.com/b.xml"]),
            ),
            (
                "https://example.com/a.xml",
                urlset(&["https://example.com/page1", "https://example.com/page2"]),
            ),
            (
                "https://example.com/b.xml",
                urlset(&["https://example.com/page2", "https://example.com/page3"]),
            ),
        ],
    );
    assert_eq!(
        urls,
        vec![
            "https://example.com/page1",
            "https://example.com/page2",
            "https://example.com/page3",
        ]
    );
}

#[test]
fn duplicate_within_one_sitemap_yields_once() {
    let mut state = CrawlState::from_host("https://example.com").unwrap();
    let urls = run_crawl(
        &mut state,
        &[(
            "https://example.com/sitemap.xml",
            urlset(&[
                "https://example.com/page1",
                "https://example.com/page1",
                "https://example.com/page2",
            ]),
        )],
    );
    assert_eq!(
        urls,
        vec!["https://example.com/page1", "https://example.com/page2"]
    );
}

#[test]
fn malformed_records_are_skipped_not_fatal() {
    // records without a location, and records whose location does not
    // parse, are interleaved between valid entries: all valid URLs are
    // yielded and the traversal does not abort early
    let body = String::from(
        "<?xml version=\"1.0\" encoding=\"UTF-8\"?>\
         <urlset>\
         <url></url>\
         <url><loc>https://example.com/page1</loc></url>\
         <url><loc>::not a url::</loc></url>\
         <url><loc>https://example.com/page2</loc></url>\
         <url><lastmod>2019-01-01</lastmod></url>\
         <url><loc>https://example.com/page3</loc></url>\
         </urlset>",
    )
    .into_bytes();
    let mut state = CrawlState::from_host("https://example.com").unwrap();
    let urls = run_crawl(&mut state, &[("https://example.com/sitemap.xml", body)]);
    assert_eq!(
        urls,
        vec![
            "https://example.com/page1",
            "https://example.com/page2",
            "https://example.com/page3",
        ]
    );
    assert_eq!(state.stale_count(), 0);
}

#[test]
fn partial_failure_is_isolated() {
    // one nested sitemap fails to fetch; the other still contributes,
    // and the failed one is reported through the stale count
    let mut state = CrawlState::from_host("https://example.com").unwrap();
    let urls = run_crawl(
        &mut state,
        &[
            (
                "https://example.com/sitemap.xml",
                sitemapindex(&["https://example.com/gone.xml", "https://example.com/a.xml"]),
            ),
            (
                "https://example.com/a.xml",
                urlset(&["https://example.com/page1"]),
            ),
        ],
    );
    assert_eq!(urls, vec!["https://example.com/page1"]);
    assert_eq!(state.stale_count(), 1);
}

#[test]
fn resource_identity_header_texts() {
    let etag = ResID::ETag(String::from("\"abc\""));
    assert!(!etag.is_empty());
    assert_eq!(etag.keytxt(), "If-Match");
    assert_eq!(etag.valtxt(), "\"abc\"");
    let lastmod = ResID::LastMod(String::from("Tue, 01 Jan 2019 00:00:00 GMT"));
    assert_eq!(lastmod.keytxt(), "If-Modified-Since");
    assert_eq!(lastmod.valtxt(), "Tue, 01 Jan 2019 00:00:00 GMT");
    assert!(ResID::empty().is_empty());
}
