//! What is kept on disk, and what is taken from there.
use vstd::prelude::*;
use crate::adapter::catalog_dataset;
use crate::cache::{
    accept_download, age_text, cached_dataset, check_body_size, check_cacheable, dataset_from_cache,
    ensure_https, fallback_dataset, fallback_notice, offline_dataset, settle,
    validate_cache_envelope, CacheEnvelope,
};
use crate::date::{elapsed, rfc3339_instant, Instant};
use crate::error::{outcome, Error};
use crate::json::{member, Json, JsonView};
use crate::model::{Dataset, DatasetView};
use crate::order::{
    ascending, keys_of, law_lookup_after_insert, lemma_distinct_ascending, lookup, OrderedSet,
};
use crate::session::{
    all_storable, check_session_document, check_session_size, contents, storable_id,
    SelectionSession, Sessions,
};
use crate::text::{any_char, begins_with, control, decimal, trimmed};

verus! {

/// An address is accepted exactly if it begins with the mark of an encrypted connection.
pub proof fn law_addresses_are_encrypted(url: &str, r: Result<(), Error>)
    requires
        call_ensures(ensure_https, (url,), r),
    ensures
        r is Ok <==> exists|rest: Seq<char>| url@ == #[trigger] ("https://"@ + rest),
{
    let mark = "https://"@;
    if begins_with(url@, mark) {
        let rest = url@.skip(mark.len() as int);
        assert(url@ =~= mark + rest);
    }
    if exists|rest: Seq<char>| url@ == #[trigger] (mark + rest) {
        let rest = choose|rest: Seq<char>| url@ == #[trigger] (mark + rest);
        assert(url@.take(mark.len() as int) =~= mark);
    }
}

/// A download may have up to 32 MiB, a session file up to 1 MiB.
pub proof fn law_sizes_are_limited(
    url: &str,
    size: usize,
    download: Result<(), Error>,
    session: Result<(), Error>,
)
    requires
        call_ensures(check_body_size, (url, size), download),
        call_ensures(check_session_size, (size,), session),
    ensures
        download is Ok <==> size <= 32 * 1024 * 1024,
        session is Ok <==> size <= 1024 * 1024,
{
}

/// A cached catalog is accepted exactly if it has version 1, comes from the two published
/// addresses, holds a catalog and metadata that are not blank, and says when it was fetched.
pub proof fn law_cache_is_accepted(envelope: &CacheEnvelope, r: Result<(), Error>)
    requires
        call_ensures(validate_cache_envelope, (envelope,), r),
    ensures
        r is Ok <==> {
            let view = envelope.deep_view();
            &&& view.version == 1
            &&& view.catalog_url == "https://hydrant.mit.edu/latest.json"@
            &&& view.term_url == "https://hydrant.mit.edu/latestTerm.json"@
            &&& trimmed(view.catalog).len() > 0
            &&& trimmed(view.term).len() > 0
            &&& rfc3339_instant(view.fetched_at) is Ok
        },
{
    reveal_strlit("https://");
    reveal_strlit("https://hydrant.mit.edu/latest.json");
    reveal_strlit("https://hydrant.mit.edu/latestTerm.json");
    assert("https://hydrant.mit.edu/latest.json"@.take(8) =~= "https://"@);
    assert("https://hydrant.mit.edu/latestTerm.json"@.take(8) =~= "https://"@);
}

/// The age of a download is told in whole days, or in whole hours on the first day: in as many as
/// have gone by. What is not fetched yet is some days ahead, or no hours old.
pub proof fn law_age_counts_what_has_gone_by(fetched_at: Seq<char>, now: (i64, u32), n: nat)
    requires
        rfc3339_instant(fetched_at) is Ok,
    ensures
        ({
            let nanos = elapsed(rfc3339_instant(fetched_at)->Ok_0, now);
            let hour = 3_600_000_000_000int;
            &&& n > 0 && n * 24 * hour <= nanos < (n + 1) * 24 * hour ==> age_text(fetched_at, now)
                == decimal(n) + " days"@
            &&& n < 24 && n * hour <= nanos < (n + 1) * hour ==> age_text(fetched_at, now)
                == decimal(n) + " hours"@
            &&& n > 0 && n * 24 * hour <= -nanos < (n + 1) * 24 * hour ==> age_text(fetched_at, now)
                == "-"@ + decimal(n) + " days"@
            &&& -24 * hour < nanos < 0 ==> age_text(fetched_at, now) == decimal(0) + " hours"@
        }),
{
    let nanos = elapsed(rfc3339_instant(fetched_at)->Ok_0, now);
    let hour = 3_600_000_000_000int;
    let day = 86_400_000_000_000int;
    if n > 0 && n * 24 * hour <= nanos < (n + 1) * 24 * hour {
        assert(nanos / day == n) by (nonlinear_arith)
            requires
                n * 24 * hour <= nanos < (n + 1) * 24 * hour,
                hour == 3_600_000_000_000int,
                day == 86_400_000_000_000int,
        ;
    }
    if n < 24 && n * hour <= nanos < (n + 1) * hour {
        assert(nanos / hour == n) by (nonlinear_arith)
            requires
                n * hour <= nanos < (n + 1) * hour,
                hour == 3_600_000_000_000int,
        ;
        assert(0 <= nanos < day) by (nonlinear_arith)
            requires
                n * hour <= nanos < (n + 1) * hour,
                n < 24,
                hour == 3_600_000_000_000int,
                day == 86_400_000_000_000int,
        ;
        assert(nanos / day == 0) by (nonlinear_arith)
            requires
                0 <= nanos < day,
                day == 86_400_000_000_000int,
        ;
    }
    if n > 0 && n * 24 * hour <= -nanos < (n + 1) * 24 * hour {
        assert((-nanos) / day == n) by (nonlinear_arith)
            requires
                n * 24 * hour <= -nanos < (n + 1) * 24 * hour,
                hour == 3_600_000_000_000int,
                day == 86_400_000_000_000int,
        ;
        assert(nanos < 0) by (nonlinear_arith)
            requires
                n > 0,
                n * 24 * hour <= -nanos,
                hour == 3_600_000_000_000int,
        ;
    }
    if -24 * hour < nanos < 0 {
        assert((-nanos) / day == 0) by (nonlinear_arith)
            requires
                0 < -nanos < day,
                day == 86_400_000_000_000int,
        ;
        assert((-nanos) / hour >= 0) by (nonlinear_arith)
            requires
                0 < -nanos,
                hour == 3_600_000_000_000int,
        ;
    }
}

/// The time that has gone by between two instants without leap seconds is the difference of their
/// seconds and nanoseconds.
pub proof fn law_elapsed_is_the_difference(from: (i64, u32), now: (i64, u32))
    requires
        from.1 < 1_000_000_000,
        now.1 < 1_000_000_000,
    ensures
        elapsed(from, now) == (now.0 * 1_000_000_000 + now.1) - (from.0 * 1_000_000_000 + from.1),
{
    assert((now.0 - from.0) * 1_000_000_000 == now.0 * 1_000_000_000 - from.0 * 1_000_000_000)
        by (nonlinear_arith);
}

/// Putting the notices of a dataset in order changes nothing else, and loses and adds none.
pub proof fn law_settling_changes_only_the_order(dataset: Dataset, r: Dataset)
    requires
        call_ensures(settle, (dataset,), r),
    ensures
        same_catalog(dataset.deep_view(), r.deep_view()),
        ascending::<String>(r.deep_view().notices),
        forall|notice: Seq<char>| #[trigger]
            r.deep_view().notices.contains(notice) <==> dataset.deep_view().notices.contains(notice),
{
    lemma_distinct_ascending::<String>(dataset.deep_view().notices);
}

/// Two datasets are the same but for their notices.
pub open spec fn same_catalog(a: DatasetView, b: DatasetView) -> bool {
    &&& a.term_id == b.term_id
    &&& a.last_updated == b.last_updated
    &&& a.calendar == b.calendar
    &&& a.courses == b.courses
}

/// After a download that failed, what is used is what the cache holds, with all its notices and one
/// that says why and how old it is.
pub proof fn law_fallback_is_the_cached_catalog(
    fault: &Error,
    cache: Result<CacheEnvelope, Error>,
    directory: &str,
    now: Instant,
    r: Result<Dataset, Error>,
)
    requires
        call_ensures(fallback_dataset, (fault, cache, directory, now), r),
    ensures
        r is Ok <==> cache is Ok && cached_dataset((cache->Ok_0).deep_view()) is Ok,
        r is Ok ==> {
            let cached = cached_dataset((cache->Ok_0).deep_view())->Ok_0;
            let own = "online refresh failed: "@ + fault.deep_view()
                + "; using cached catalog fetched "@ + (cache->Ok_0).deep_view().fetched_at
                + " (age "@ + age_text((cache->Ok_0).deep_view().fetched_at, now.deep_view())
                + ")"@;
            &&& same_catalog(cached, (r->Ok_0).deep_view())
            &&& forall|notice: Seq<char>| #[trigger]
                (r->Ok_0).deep_view().notices.contains(notice) <==> cached.notices.contains(notice)
                    || notice == own
        },
{
    if r is Ok {
        let view = (cache->Ok_0).deep_view();
        let cached = cached_dataset(view)->Ok_0;
        let own = fallback_notice(fault.deep_view(), view.fetched_at, now.deep_view());
        let all = cached.notices.push(own);
        lemma_distinct_ascending::<String>(all);
        assert forall|notice: Seq<char>| #[trigger]
            (r->Ok_0).deep_view().notices.contains(notice) <==> cached.notices.contains(notice)
                || notice == own by {
            crate::laws::catalog::lemma_pushed(cached.notices, own, notice);
        }
    }
}

/// An id may be stored: something in it is visible, and no character controls anything.
pub open spec fn can_be_stored(id: Seq<char>) -> bool {
    &&& trimmed(id).len() > 0
    &&& forall|i: int|
        0 <= i < id.len() ==> !((#[trigger] id[i] as u32) < 32 || 127 <= (id[i] as u32) < 160)
}

pub(crate) proof fn lemma_storable(id: Seq<char>)
    ensures
        storable_id(id) <==> can_be_stored(id),
{
    let pred = |c: char| control(c);
    if any_char(id, pred) {
        let i = choose|i: int| 0 <= i < id.len() && pred(#[trigger] id[i]);
        assert((id[i] as u32) < 32 || 127 <= (id[i] as u32) < 160);
    } else {
        assert forall|i: int| 0 <= i < id.len() implies !((#[trigger] id[i] as u32) < 32 || 127 <= (
        id[i] as u32) < 160) by {
            assert(!pred(id[i]));
        }
    }
}

/// A selection is stored unless an id in it cannot be, or the file is not as it was left. Nothing is
/// written where just that selection is stored already; else the file has the selection and the time
/// for its term, and for every other term what it had.
pub proof fn law_selections_are_stored_by_term(
    session: &SelectionSession,
    term: &str,
    selected: &OrderedSet<String>,
    disk: &Option<Vec<u8>>,
    now: String,
    r: Result<Option<Sessions>, Error>,
    other: Seq<char>,
)
    requires
        call_ensures(SelectionSession::plan_save, (session, term, selected, disk, now), r),
        ascending::<String>(keys_of(session.deep_view().sessions.terms)),
    ensures
        ({
            let known = lookup(session.deep_view().sessions.terms, term@);
            let ids = selected.deep_view();
            &&& r is Ok <==> can_be_stored(term@) && (forall|i: int|
                0 <= i < ids.len() ==> can_be_stored(#[trigger] ids[i])) && contents(*disk)
                == session.deep_view().disk_bytes
            &&& r is Ok ==> (r->Ok_0 is None <==> known is Some && known->0.selected == ids)
            &&& r is Ok && r->Ok_0 is Some ==> {
                let after = ((r->Ok_0)->0).deep_view();
                &&& after.version == session.deep_view().sessions.version
                &&& lookup(after.terms, term@) is Some
                &&& lookup(after.terms, term@)->0.selected == ids
                &&& lookup(after.terms, term@)->0.saved_at == now@
                &&& other != term@ ==> lookup(after.terms, other) == lookup(
                    session.deep_view().sessions.terms,
                    other,
                )
            }
        }),
{
    let ids = selected.deep_view();
    lemma_storable(term@);
    assert(all_storable(ids) <==> forall|i: int|
        0 <= i < ids.len() ==> can_be_stored(#[trigger] ids[i])) by {
        assert forall|i: int| 0 <= i < ids.len() implies storable_id(#[trigger] ids[i])
            == can_be_stored(ids[i]) by {
            lemma_storable(ids[i]);
        }
    }
    let before = session.deep_view().sessions.terms;
    let saved = crate::session::SavedSelectionView { selected: ids, saved_at: now@ };
    law_lookup_after_insert::<String, crate::session::SavedSelectionView>(
        before,
        term@,
        saved,
        term@,
    );
    law_lookup_after_insert::<String, crate::session::SavedSelectionView>(
        before,
        term@,
        saved,
        other,
    );
    assert(outcome(r) is Ok <==> r is Ok);
}

/// A session file is read only if it says that its version is the number 1.
pub proof fn law_session_files_have_version_one(document: &Json, r: Result<(), Error>)
    requires
        call_ensures(check_session_document, (document,), r),
    ensures
        r is Ok <==> (member(document.deep_view(), "version"@) matches Some(
            JsonView::Number(_, Some(n)),
        ) && n == 1),
{
}

/// What is read from a cached catalog is what its texts describe, where it is accepted.
pub proof fn law_cached_catalogs_are_read(
    envelope: &CacheEnvelope,
    accepted: Result<(), Error>,
    read: Result<Dataset, Error>,
    cacheable: Result<(), Error>,
)
    requires
        call_ensures(validate_cache_envelope, (envelope,), accepted),
        call_ensures(dataset_from_cache, (envelope,), read),
        call_ensures(check_cacheable, (envelope,), cacheable),
    ensures
        ({
            let described = catalog_dataset(
                envelope.deep_view().catalog,
                envelope.deep_view().term,
            );
            &&& read is Ok <==> accepted is Ok && described is Ok
            &&& read is Ok ==> (read->Ok_0).deep_view() == described->Ok_0
            &&& cacheable is Ok <==> read is Ok
        }),
{
}

/// Without the network, what is used is what the cache holds, where it can be read.
pub proof fn law_offline_is_the_cached_catalog(
    cache: Result<CacheEnvelope, Error>,
    directory: &str,
    r: Result<Dataset, Error>,
)
    requires
        call_ensures(offline_dataset, (cache, directory), r),
    ensures
        r is Ok <==> cache is Ok && cached_dataset((cache->Ok_0).deep_view()) is Ok,
        r is Ok ==> (r->Ok_0).deep_view() == cached_dataset((cache->Ok_0).deep_view())->Ok_0,
{
}

/// A download is accepted exactly if its texts describe a dataset; it is cached as it came, with its
/// time and the two addresses.
pub proof fn law_downloads_are_cached_as_they_came(
    catalog: String,
    term: String,
    fetched_at: String,
    r: Result<(Dataset, CacheEnvelope), Error>,
)
    requires
        call_ensures(accept_download, (catalog, term, fetched_at), r),
    ensures
        r is Ok <==> catalog_dataset(catalog@, term@) is Ok,
        r is Ok ==> {
            let (dataset, envelope) = (r->Ok_0).deep_view();
            &&& dataset == catalog_dataset(catalog@, term@)->Ok_0
            &&& envelope.version == 1
            &&& envelope.catalog == catalog@
            &&& envelope.term == term@
            &&& envelope.fetched_at == fetched_at@
            &&& envelope.catalog_url == "https://hydrant.mit.edu/latest.json"@
            &&& envelope.term_url == "https://hydrant.mit.edu/latestTerm.json"@
        },
{
}

} // verus!
