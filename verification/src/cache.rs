//! The downloaded catalog: what may be cached, and which dataset a run works on.
use vstd::prelude::*;
use crate::adapter::{catalog_dataset, parse_catalog};
use crate::date::{elapsed, rfc3339_instant, truncated, Instant};
use crate::error::{outcome, Error};
use crate::model::{Dataset, DatasetView};
use crate::order::{distinct_ascending, OrderedSet};
use crate::text::{
    begins_with, decimal, decimal_text, same_text, starts_with, trim, trimmed,
};

verus! {

/// A downloaded catalog with where and when it was downloaded.
#[derive(Clone, Debug)]
pub struct CacheEnvelope {
    pub version: u32,
    pub fetched_at: String,
    pub catalog_url: String,
    pub term_url: String,
    pub catalog: String,
    pub term: String,
}

#[verifier::ext_equal]
pub struct CacheEnvelopeView {
    pub version: u32,
    pub fetched_at: Seq<char>,
    pub catalog_url: Seq<char>,
    pub term_url: Seq<char>,
    pub catalog: Seq<char>,
    pub term: Seq<char>,
}

impl DeepView for CacheEnvelope {
    type V = CacheEnvelopeView;

    open spec fn deep_view(&self) -> CacheEnvelopeView {
        CacheEnvelopeView {
            version: self.version,
            fetched_at: self.fetched_at@,
            catalog_url: self.catalog_url@,
            term_url: self.term_url@,
            catalog: self.catalog@,
            term: self.term@,
        }
    }
}

/// Where the latest catalog is published.
pub open spec fn catalog_source() -> Seq<char> {
    "https://hydrant.mit.edu/latest.json"@
}

/// Where the metadata of the latest term are published.
pub open spec fn term_source() -> Seq<char> {
    "https://hydrant.mit.edu/latestTerm.json"@
}

pub fn latest_catalog_url() -> (r: &'static str)
    ensures
        r@ == catalog_source(),
{
    "https://hydrant.mit.edu/latest.json"
}

pub fn latest_term_url() -> (r: &'static str)
    ensures
        r@ == term_source(),
{
    "https://hydrant.mit.edu/latestTerm.json"
}

/// What is wrong with a source that is not public and encrypted.
pub open spec fn url_fault(url: Seq<char>) -> Option<Seq<char>> {
    if begins_with(url, "https://"@) {
        None
    } else {
        Some("only public HTTPS URLs are allowed: "@ + url)
    }
}

pub fn ensure_https(url: &str) -> (r: Result<(), Error>)
    ensures
        outcome(r) == (match url_fault(url@) {
            Some(fault) => Err::<(), _>(fault),
            None => Ok(()),
        }),
{
    if starts_with(url, "https://") {
        Ok(())
    } else {
        let mut message = "only public HTTPS URLs are allowed: ".to_owned();
        message.append(url);
        Err(Error { message })
    }
}

/// The largest download, in bytes.
pub const MAX_BODY_BYTES: usize = 33554432;

/// Checks that a download is not too large.
pub fn check_body_size(url: &str, size: usize) -> (r: Result<(), Error>)
    ensures
        outcome(r) == (if size <= MAX_BODY_BYTES {
            Ok::<(), Seq<char>>(())
        } else {
            Err("GET "@ + url@ + " exceeded the catalog size limit"@)
        }),
{
    if size <= MAX_BODY_BYTES {
        return Ok(());
    }
    let mut message = "GET ".to_owned();
    message.append(url);
    message.append(" exceeded the catalog size limit");
    Err(Error { message })
}

/// What is wrong with a cached catalog, if anything.
pub open spec fn envelope_fault(envelope: CacheEnvelopeView) -> Option<Seq<char>> {
    if envelope.version != 1 {
        Some("unsupported cache version "@ + decimal(envelope.version as nat))
    } else if url_fault(envelope.catalog_url) is Some {
        url_fault(envelope.catalog_url)
    } else if url_fault(envelope.term_url) is Some {
        url_fault(envelope.term_url)
    } else if envelope.catalog_url != catalog_source() || envelope.term_url != term_source() {
        Some("cache source URLs do not match the public Hydrant endpoints"@)
    } else if trimmed(envelope.catalog).len() == 0 {
        Some("cached catalog is empty"@)
    } else if trimmed(envelope.term).len() == 0 {
        Some("cached term metadata is empty"@)
    } else {
        match rfc3339_instant(envelope.fetched_at) {
            Ok(_) => None,
            Err(fault) => Some("cache fetched_at must be RFC3339"@ + ": "@ + fault),
        }
    }
}

pub fn validate_cache_envelope(envelope: &CacheEnvelope) -> (r: Result<(), Error>)
    ensures
        outcome(r) == (match envelope_fault(envelope.deep_view()) {
            Some(fault) => Err::<(), _>(fault),
            None => Ok(()),
        }),
{
    if envelope.version != 1 {
        let mut message = "unsupported cache version ".to_owned();
        message.append(decimal_text(envelope.version as u64).as_str());
        return Err(Error { message });
    }
    match ensure_https(envelope.catalog_url.as_str()) {
        Ok(_) => {},
        Err(error) => {
            return Err(error);
        },
    }
    match ensure_https(envelope.term_url.as_str()) {
        Ok(_) => {},
        Err(error) => {
            return Err(error);
        },
    }
    if !same_text(envelope.catalog_url.as_str(), latest_catalog_url()) || !same_text(
        envelope.term_url.as_str(),
        latest_term_url(),
    ) {
        return Err(
            Error::new("cache source URLs do not match the public Hydrant endpoints"),
        );
    }
    if trim(envelope.catalog.as_str()).as_str().is_empty() {
        return Err(Error::new("cached catalog is empty"));
    }
    if trim(envelope.term.as_str()).as_str().is_empty() {
        return Err(Error::new("cached term metadata is empty"));
    }
    match Instant::parse(envelope.fetched_at.as_str()) {
        Ok(_) => Ok(()),
        Err(error) => Err(error.within("cache fetched_at must be RFC3339")),
    }
}

/// The dataset that a cached catalog holds.
pub open spec fn cached_dataset(envelope: CacheEnvelopeView) -> Result<DatasetView, Seq<char>> {
    match envelope_fault(envelope) {
        Some(fault) => Err(fault),
        None => catalog_dataset(envelope.catalog, envelope.term),
    }
}

pub fn dataset_from_cache(envelope: &CacheEnvelope) -> (r: Result<Dataset, Error>)
    ensures
        outcome(r) == cached_dataset(envelope.deep_view()),
{
    match validate_cache_envelope(envelope) {
        Ok(_) => parse_catalog(envelope.catalog.as_str(), envelope.term.as_str()),
        Err(error) => Err(error),
    }
}

/// Checks that a catalog may be cached: what is in the cache can always be used.
pub fn check_cacheable(envelope: &CacheEnvelope) -> (r: Result<(), Error>)
    ensures
        outcome(r) == (match envelope_fault(envelope.deep_view()) {
            Some(fault) => Err::<(), _>(fault),
            None => match cached_dataset(envelope.deep_view()) {
                Err(fault) => Err("refusing to cache invalid catalog"@ + ": "@ + fault),
                Ok(_) => Ok(()),
            },
        }),
{
    match validate_cache_envelope(envelope) {
        Ok(_) => {},
        Err(error) => {
            return Err(error);
        },
    }
    match dataset_from_cache(envelope) {
        Ok(_) => Ok(()),
        Err(error) => Err(error.within("refusing to cache invalid catalog")),
    }
}

/// What a run without the network works on, given what was read from the cache.
pub open spec fn offline_answer(
    cache: Result<CacheEnvelopeView, Seq<char>>,
    directory: Seq<char>,
) -> Result<DatasetView, Seq<char>> {
    match cache {
        Err(fault) => Err("offline cache is unavailable in "@ + directory + ": "@ + fault),
        Ok(envelope) => match cached_dataset(envelope) {
            Err(fault) => Err("offline cache is corrupt or incompatible"@ + ": "@ + fault),
            Ok(dataset) => Ok(dataset),
        },
    }
}

pub fn offline_dataset(cache: Result<CacheEnvelope, Error>, directory: &str) -> (r: Result<
    Dataset,
    Error,
>)
    ensures
        outcome(r) == offline_answer(outcome(cache), directory@),
{
    match cache {
        Err(error) => {
            let mut context = "offline cache is unavailable in ".to_owned();
            context.append(directory);
            Err(error.within(context.as_str()))
        },
        Ok(envelope) => match dataset_from_cache(&envelope) {
            Ok(dataset) => Ok(dataset),
            Err(error) => Err(error.within("offline cache is corrupt or incompatible")),
        },
    }
}

/// What a download amounts to: the dataset, and what goes into the cache.
pub open spec fn download_answer(
    catalog: Seq<char>,
    term: Seq<char>,
    fetched_at: Seq<char>,
) -> Result<(DatasetView, CacheEnvelopeView), Seq<char>> {
    match catalog_dataset(catalog, term) {
        Err(fault) => Err("downloaded catalog failed validation"@ + ": "@ + fault),
        Ok(dataset) => Ok(
            (
                dataset,
                CacheEnvelopeView {
                    version: 1,
                    fetched_at,
                    catalog_url: catalog_source(),
                    term_url: term_source(),
                    catalog,
                    term,
                },
            ),
        ),
    }
}

pub fn accept_download(catalog: String, term: String, fetched_at: String) -> (r: Result<
    (Dataset, CacheEnvelope),
    Error,
>)
    ensures
        outcome(r) == download_answer(catalog@, term@, fetched_at@),
{
    match parse_catalog(catalog.as_str(), term.as_str()) {
        Ok(dataset) => Ok(
            (
                dataset,
                CacheEnvelope {
                    version: 1,
                    fetched_at,
                    catalog_url: latest_catalog_url().to_owned(),
                    term_url: latest_term_url().to_owned(),
                    catalog,
                    term,
                },
            ),
        ),
        Err(error) => Err(error.within("downloaded catalog failed validation")),
    }
}

/// A dataset with its notices in order and without repetitions.
pub open spec fn settled(dataset: DatasetView) -> DatasetView {
    DatasetView { notices: distinct_ascending::<String>(dataset.notices), ..dataset }
}

pub fn settle(dataset: Dataset) -> (r: Dataset)
    ensures
        r.deep_view() == settled(dataset.deep_view()),
{
    let ghost view = dataset.deep_view();
    let mut dataset = dataset;
    let notices = dataset.notices;
    dataset.notices = OrderedSet::from_vec(notices).into_vec();
    assert(dataset.deep_view() =~= settled(view));
    dataset
}

/// How old a download is: in days, or in hours within the first day.
pub open spec fn age_text(fetched_at: Seq<char>, now: (i64, u32)) -> Seq<char> {
    match rfc3339_instant(fetched_at) {
        Err(_) => "unknown age"@,
        Ok(instant) => {
            let nanos = elapsed(instant, now);
            let days = truncated(nanos, 86_400_000_000_000);
            let hours = truncated(nanos, 3_600_000_000_000);
            if days > 0 {
                decimal(days as nat) + " days"@
            } else if days < 0 {
                "-"@ + decimal((-days) as nat) + " days"@
            } else {
                decimal((if hours > 0 {
                    hours
                } else {
                    0
                }) as nat) + " hours"@
            }
        },
    }
}

fn age(fetched_at: &str, now: &Instant) -> (r: String)
    ensures
        r@ == age_text(fetched_at@, now.deep_view()),
{
    let instant = match Instant::parse(fetched_at) {
        Ok(instant) => instant,
        Err(_) => {
            return "unknown age".to_owned();
        },
    };
    let (days, hours) = instant.age(now);
    if days != 0 {
        let mut text = if days > 0 {
            String::new()
        } else {
            "-".to_owned()
        };
        let size: u64 = if days > 0 {
            days as u64
        } else {
            (-(days as i128)) as u64
        };
        text.append(decimal_text(size).as_str());
        text.append(" days");
        proof {
            if days > 0 {
                assert(text@ =~= decimal(days as nat) + " days"@);
            }
        }
        text
    } else {
        let mut text = decimal_text(if hours > 0 {
            hours as u64
        } else {
            0
        });
        text.append(" hours");
        text
    }
}

/// What a dataset says when it comes from the cache because the download failed.
pub open spec fn fallback_notice(
    fetch_fault: Seq<char>,
    fetched_at: Seq<char>,
    now: (i64, u32),
) -> Seq<char> {
    "online refresh failed: "@ + fetch_fault + "; using cached catalog fetched "@ + fetched_at
        + " (age "@ + age_text(fetched_at, now) + ")"@
}

/// What a run works on when the download failed, given what was read from the cache.
pub open spec fn fallback_answer(
    fetch_fault: Seq<char>,
    cache: Result<CacheEnvelopeView, Seq<char>>,
    directory: Seq<char>,
    now: (i64, u32),
) -> Result<DatasetView, Seq<char>> {
    match cache {
        Err(fault) => Err(
            "online fetch failed ("@ + fetch_fault + ") and no valid cache was available in "@
                + directory + ": "@ + fault,
        ),
        Ok(envelope) => match cached_dataset(envelope) {
            Err(fault) => Err(
                "online fetch failed ("@ + fetch_fault + ") and cached catalog is corrupt"@ + ": "@
                    + fault,
            ),
            Ok(dataset) => Ok(
                settled(
                    DatasetView {
                        notices: dataset.notices.push(
                            fallback_notice(fetch_fault, envelope.fetched_at, now),
                        ),
                        ..dataset
                    },
                ),
            ),
        },
    }
}

pub fn fallback_dataset(
    fetch_error: &Error,
    cache: Result<CacheEnvelope, Error>,
    directory: &str,
    now: Instant,
) -> (r: Result<Dataset, Error>)
    ensures
        outcome(r) == fallback_answer(
            fetch_error.deep_view(),
            outcome(cache),
            directory@,
            now.deep_view(),
        ),
{
    let mut failed = "online fetch failed (".to_owned();
    failed.append(fetch_error.message.as_str());
    let envelope = match cache {
        Ok(envelope) => envelope,
        Err(error) => {
            failed.append(") and no valid cache was available in ");
            failed.append(directory);
            return Err(error.within(failed.as_str()));
        },
    };
    match dataset_from_cache(&envelope) {
        Ok(dataset) => {
            let ghost view = dataset.deep_view();
            let mut dataset = dataset;
            let mut notice = "online refresh failed: ".to_owned();
            notice.append(fetch_error.message.as_str());
            notice.append("; using cached catalog fetched ");
            notice.append(envelope.fetched_at.as_str());
            notice.append(" (age ");
            notice.append(age(envelope.fetched_at.as_str(), &now).as_str());
            notice.append(")");
            let ghost text = notice@;
            dataset.notices.push(notice);
            assert(dataset.notices.deep_view() =~= view.notices.push(text));
            assert(dataset.deep_view() =~= DatasetView {
                notices: view.notices.push(text),
                ..view
            });
            Ok(settle(dataset))
        },
        Err(error) => {
            failed.append(") and cached catalog is corrupt");
            Err(error.within(failed.as_str()))
        },
    }
}

/// What was accepted from a download can be cached and read back from the cache: the same
/// dataset comes out, whenever the time of the download is a valid time and the metadata of the
/// term are not blank.
pub proof fn law_download_survives_cache(
    catalog: Seq<char>,
    term: Seq<char>,
    fetched_at: Seq<char>,
)
    requires
        download_answer(catalog, term, fetched_at) is Ok,
        rfc3339_instant(fetched_at) is Ok,
        trimmed(catalog).len() > 0,
        trimmed(term).len() > 0,
    ensures
        ({
            let (dataset, envelope) = download_answer(catalog, term, fetched_at)->Ok_0;
            cached_dataset(envelope) == Ok::<DatasetView, Seq<char>>(dataset)
        }),
{
    reveal_strlit("https://");
    reveal_strlit("https://hydrant.mit.edu/latest.json");
    reveal_strlit("https://hydrant.mit.edu/latestTerm.json");
    assert(catalog_source().take(8) =~= "https://"@);
    assert(term_source().take(8) =~= "https://"@);
}

} // verus!
