//! Durable user selections, separate from the replaceable catalog cache.
use vstd::prelude::*;
use crate::date::{rfc3339_instant, Instant};
use crate::error::{outcome, Error};
use crate::json::{json_value, member, parse_json, Json, JsonView};
use crate::order::{
    ascending, keys_of, law_lookup_after_insert, lemma_lower_bound, lemma_map_insert, lookup,
    lower_bound, map_insert, Duplicate, OrderedMap, OrderedSet,
};
use crate::text::{any_char, chars_of, control, is_control, trim, trimmed};

verus! {

/// The largest session file, in bytes.
pub const MAX_SESSION_BYTES: usize = 1048576;

/// The subjects that were selected in a term.
#[derive(Clone, Debug)]
pub struct SavedSelection {
    pub selected: OrderedSet<String>,
    pub saved_at: String,
}

#[verifier::ext_equal]
pub struct SavedSelectionView {
    pub selected: Seq<Seq<char>>,
    pub saved_at: Seq<char>,
}

impl DeepView for SavedSelection {
    type V = SavedSelectionView;

    open spec fn deep_view(&self) -> SavedSelectionView {
        SavedSelectionView { selected: self.selected.deep_view(), saved_at: self.saved_at@ }
    }
}

impl Duplicate for SavedSelection {
    fn duplicate(&self) -> (r: Self) {
        SavedSelection { selected: self.selected.duplicate(), saved_at: self.saved_at.clone() }
    }
}

/// The selections of all terms.
#[derive(Clone, Debug)]
pub struct Sessions {
    pub version: u32,
    pub terms: OrderedMap<String, SavedSelection>,
}

#[verifier::ext_equal]
pub struct SessionsView {
    pub version: u32,
    pub terms: Seq<(Seq<char>, SavedSelectionView)>,
}

impl DeepView for Sessions {
    type V = SessionsView;

    open spec fn deep_view(&self) -> SessionsView {
        SessionsView { version: self.version, terms: self.terms.deep_view() }
    }
}

/// The selections of all terms, and what the session file held when they were read or written.
#[derive(Debug)]
pub struct SelectionSession {
    sessions: Sessions,
    disk_bytes: Option<Vec<u8>>,
}

#[verifier::ext_equal]
pub struct SelectionSessionView {
    pub sessions: SessionsView,
    pub disk_bytes: Option<Seq<u8>>,
}

/// The contents of a file that may not exist.
pub open spec fn contents(bytes: Option<Vec<u8>>) -> Option<Seq<u8>> {
    match bytes {
        Some(bytes) => Some(bytes@),
        None => None,
    }
}

impl DeepView for SelectionSession {
    type V = SelectionSessionView;

    closed spec fn deep_view(&self) -> SelectionSessionView {
        SelectionSessionView {
            sessions: self.sessions.deep_view(),
            disk_bytes: contents(self.disk_bytes),
        }
    }
}

/// An id of a term or subject that may be stored.
pub open spec fn storable_id(id: Seq<char>) -> bool {
    trimmed(id).len() > 0 && !any_char(id, |c: char| control(c))
}

fn validate_id(id: &str) -> (r: Result<(), Error>)
    ensures
        r is Ok <==> storable_id(id@),
        r is Err ==> (r->Err_0).deep_view()
            == "invalid term or subject ID in session state (file preserved)"@,
{
    let ghost pred = |c: char| control(c);
    let refused = Error::new("invalid term or subject ID in session state (file preserved)");
    if trim(id).as_str().is_empty() {
        return Err(refused);
    }
    let chars = chars_of(id);
    let mut index: usize = 0;
    while index < chars.len()
        invariant
            chars@ == id@,
            pred == (|c: char| control(c)),
            index <= chars@.len(),
            forall|i: int| 0 <= i < index ==> !pred(#[trigger] id@[i]),
            trimmed(id@).len() > 0,
            refused.deep_view()
                == "invalid term or subject ID in session state (file preserved)"@,
        decreases chars@.len() - index,
    {
        if is_control(chars[index]) {
            assert(pred(id@[index as int]));
            return Err(refused);
        }
        index += 1;
    }
    Ok(())
}

/// All ids may be stored.
pub open spec fn all_storable(ids: Seq<Seq<char>>) -> bool {
    forall|i: int| 0 <= i < ids.len() ==> storable_id(#[trigger] ids[i])
}

fn validate_ids(ids: &Vec<String>) -> (r: Result<(), Error>)
    ensures
        r is Ok <==> all_storable(ids.deep_view()),
        r is Err ==> (r->Err_0).deep_view()
            == "invalid term or subject ID in session state (file preserved)"@,
{
    let mut index: usize = 0;
    while index < ids.len()
        invariant
            index <= ids@.len(),
            forall|i: int| 0 <= i < index ==> storable_id(#[trigger] ids.deep_view()[i]),
        decreases ids@.len() - index,
    {
        assert(ids.deep_view()[index as int] == ids@[index as int]@);
        match validate_id(ids[index].as_str()) {
            Ok(_) => {},
            Err(error) => {
                return Err(error);
            },
        }
        index += 1;
    }
    Ok(())
}

/// What is wrong with a stored selection, if anything.
pub open spec fn saved_fault(term: Seq<char>, saved: SavedSelectionView) -> Option<Seq<char>> {
    if !storable_id(term) || !all_storable(saved.selected) {
        Some("invalid term or subject ID in session state (file preserved)"@)
    } else {
        match rfc3339_instant(saved.saved_at) {
            Ok(_) => None,
            Err(fault) => Some(
                "invalid session save timestamp (file preserved)"@ + ": "@ + fault,
            ),
        }
    }
}

/// What is wrong with the first faulty selection.
pub open spec fn terms_fault(terms: Seq<(Seq<char>, SavedSelectionView)>) -> Option<Seq<char>>
    decreases terms.len(),
{
    if terms.len() == 0 {
        None
    } else {
        match terms_fault(terms.drop_last()) {
            Some(fault) => Some(fault),
            None => saved_fault(terms.last().0, terms.last().1),
        }
    }
}

/// What is wrong with stored selections, if anything.
pub open spec fn sessions_fault(sessions: SessionsView) -> Option<Seq<char>> {
    if sessions.version != 1 {
        Some("unsupported sessions.json version (file preserved)"@)
    } else {
        terms_fault(sessions.terms)
    }
}

fn validate_saved(term: &String, saved: &SavedSelection) -> (r: Result<(), Error>)
    ensures
        outcome(r) == (match saved_fault(term@, saved.deep_view()) {
            Some(fault) => Err::<(), _>(fault),
            None => Ok(()),
        }),
{
    match validate_id(term.as_str()) {
        Ok(_) => {},
        Err(error) => {
            return Err(error);
        },
    }
    match validate_ids(saved.selected.items()) {
        Ok(_) => {},
        Err(error) => {
            return Err(error);
        },
    }
    match Instant::parse(saved.saved_at.as_str()) {
        Ok(_) => Ok(()),
        Err(error) => Err(error.within("invalid session save timestamp (file preserved)")),
    }
}

fn validate_sessions(sessions: &Sessions) -> (r: Result<(), Error>)
    ensures
        outcome(r) == (match sessions_fault(sessions.deep_view()) {
            Some(fault) => Err::<(), _>(fault),
            None => Ok(()),
        }),
{
    if sessions.version != 1 {
        return Err(Error::new("unsupported sessions.json version (file preserved)"));
    }
    let keys = sessions.terms.keys();
    let values = sessions.terms.values();
    let ghost all = sessions.terms.deep_view();
    let mut result: Result<(), Error> = Ok(());
    let mut index: usize = 0;
    proof {
        assert(all.take(0) =~= Seq::empty());
        assert(keys.deep_view().len() == keys@.len());
    }
    while index < keys.len()
        invariant
            index <= keys@.len(),
            keys@.len() == all.len(),
            values@.len() == all.len(),
            keys.deep_view() == keys_of(all),
            forall|i: int|
                0 <= i < values@.len() ==> (#[trigger] values@[i]).deep_view() == all[i].1,
            outcome(result) == (match terms_fault(all.take(index as int)) {
                Some(fault) => Err::<(), _>(fault),
                None => Ok(()),
            }),
        decreases keys@.len() - index,
    {
        proof {
            assert(all.take(index + 1).drop_last() =~= all.take(index as int));
            assert(keys.deep_view()[index as int] == keys@[index as int]@);
            assert(values@[index as int].deep_view() == all[index as int].1);
            assert(all.take(index + 1).last() == (
                keys@[index as int]@,
                values@[index as int].deep_view(),
            ));
        }
        result = match result {
            Ok(_) => validate_saved(&keys[index], &values[index]),
            Err(error) => Err(error),
        };
        index += 1;
    }
    assert(all.take(index as int) =~= all);
    result
}

/// Sessions without any term.
pub open spec fn no_sessions() -> SessionsView {
    SessionsView { version: 1, terms: Seq::empty() }
}

fn same_bytes(a: &Option<Vec<u8>>, b: &Option<Vec<u8>>) -> (r: bool)
    ensures
        r == (contents(*a) == contents(*b)),
{
    match (a, b) {
        (None, None) => true,
        (Some(left), Some(right)) => {
            if left.len() != right.len() {
                return false;
            }
            let mut index: usize = 0;
            while index < left.len()
                invariant
                    contents(*a) == Some(left@),
                    contents(*b) == Some(right@),
                    index <= left@.len(),
                    left@.len() == right@.len(),
                    forall|i: int| 0 <= i < index ==> #[trigger] left@[i] == right@[i],
                decreases left@.len() - index,
            {
                if left[index] != right[index] {
                    assert(left@[index as int] != right@[index as int]);
                    return false;
                }
                index += 1;
            }
            assert(left@ =~= right@);
            true
        },
        _ => false,
    }
}

/// The same ids in both sets.
fn same_ids(a: &OrderedSet<String>, b: &OrderedSet<String>) -> (r: bool)
    ensures
        r == (a.deep_view() == b.deep_view()),
{
    crate::optimizer::same_texts(a.items(), b.items())
}

/// The sessions with a selection stored.
pub open spec fn with_selection(
    sessions: SessionsView,
    term: Seq<char>,
    selected: Seq<Seq<char>>,
    now: Seq<char>,
) -> SessionsView {
    SessionsView {
        version: sessions.version,
        terms: map_insert::<String, SavedSelectionView>(
            sessions.terms,
            term,
            SavedSelectionView { selected, saved_at: now },
        ),
    }
}

/// The selection that is stored for a term.
pub open spec fn selection_of(sessions: SessionsView, term: Seq<char>) -> Option<Seq<Seq<char>>> {
    match lookup(sessions.terms, term) {
        Some(saved) => Some(saved.selected),
        None => None,
    }
}

/// What has to be written to store a selection, given what the file holds now. Nothing has to
/// be where the selection is already stored.
pub open spec fn save_plan(
    session: SelectionSessionView,
    term: Seq<char>,
    selected: Seq<Seq<char>>,
    disk: Option<Seq<u8>>,
    now: Seq<char>,
) -> Result<Option<SessionsView>, Seq<char>> {
    if !storable_id(term) || !all_storable(selected) {
        Err("invalid term or subject ID in session state (file preserved)"@)
    } else if disk != session.disk_bytes {
        Err("sessions.json changed outside this TUI; restart to reload it (file preserved)"@)
    } else if selection_of(session.sessions, term) == Some(selected) {
        Ok(None)
    } else {
        Ok(Some(with_selection(session.sessions, term, selected, now)))
    }
}

impl SelectionSession {
    /// Takes over what was read from the session file, if there is one.
    pub fn restore(disk: Option<(Sessions, Vec<u8>)>) -> (r: Result<SelectionSession, Error>)
        ensures
            match disk {
                None => r is Ok && (r->Ok_0).deep_view() == (SelectionSessionView {
                    sessions: no_sessions(),
                    disk_bytes: None,
                }),
                Some((sessions, bytes)) => match sessions_fault(sessions.deep_view()) {
                    Some(fault) => r is Err && (r->Err_0).deep_view() == fault,
                    None => r is Ok && (r->Ok_0).deep_view() == (SelectionSessionView {
                        sessions: sessions.deep_view(),
                        disk_bytes: Some(bytes@),
                    }),
                },
            },
    {
        match disk {
            None => {
                let sessions = Sessions { version: 1, terms: OrderedMap::new() };
                Ok(SelectionSession { sessions, disk_bytes: None })
            },
            Some((sessions, bytes)) => match validate_sessions(&sessions) {
                Ok(_) => Ok(SelectionSession { sessions, disk_bytes: Some(bytes) }),
                Err(error) => Err(error),
            },
        }
    }

    /// The selection that is stored for a term.
    pub fn selected(&self, term: &str) -> (r: Option<&OrderedSet<String>>)
        ensures
            r.deep_view() == selection_of(self.deep_view().sessions, term@),
    {
        let key = term.to_owned();
        match self.sessions.terms.get(&key) {
            Some(saved) => Some(&saved.selected),
            None => None,
        }
    }

    /// Plans to store a selection, given what the file holds now. The session itself stays as it
    /// is until the replacement has succeeded.
    pub fn plan_save(
        &self,
        term: &str,
        selected: &OrderedSet<String>,
        disk: &Option<Vec<u8>>,
        now: String,
    ) -> (r: Result<Option<Sessions>, Error>)
        ensures
            outcome(r) == save_plan(
                self.deep_view(),
                term@,
                selected.deep_view(),
                contents(*disk),
                now@,
            ),
    {
        match validate_id(term) {
            Ok(_) => {},
            Err(error) => {
                return Err(error);
            },
        }
        match validate_ids(selected.items()) {
            Ok(_) => {},
            Err(error) => {
                return Err(error);
            },
        }
        if !same_bytes(disk, &self.disk_bytes) {
            return Err(
                Error::new(
                    "sessions.json changed outside this TUI; restart to reload it (file preserved)",
                ),
            );
        }
        if let Some(known) = self.selected(term) {
            if same_ids(known, selected) {
                return Ok(None);
            }
        }
        let mut terms = self.sessions.terms.duplicate();
        let saved = SavedSelection { selected: selected.duplicate(), saved_at: now };
        terms.insert(term.to_owned(), saved);
        Ok(Some(Sessions { version: self.sessions.version, terms }))
    }

    /// Takes over what was written to the session file.
    pub fn commit(&mut self, sessions: Sessions, bytes: Vec<u8>)
        ensures
            final(self).deep_view() == (SelectionSessionView {
                sessions: sessions.deep_view(),
                disk_bytes: Some(bytes@),
            }),
    {
        self.sessions = sessions;
        self.disk_bytes = Some(bytes);
    }
}

/// The version that a session file says it has.
pub open spec fn document_version(document: JsonView) -> Option<u64> {
    match member(document, "version"@) {
        Some(JsonView::Number(_, unsigned)) => unsigned,
        _ => None,
    }
}

/// What is wrong with the text of a session file at a path, if anything, before its record is
/// looked at.
pub open spec fn session_text_fault(text: Seq<char>, path: Seq<char>) -> Option<Seq<char>> {
    match json_value(text) {
        Err(fault) => Some("parse "@ + path + " (file preserved)"@ + ": "@ + fault),
        Ok(document) => if document_version(document) == Some(1u64) {
            None
        } else {
            Some("unsupported sessions.json version (file preserved)"@)
        },
    }
}

/// Checks the version of a session file before the rest of it is read.
pub fn check_session_document(document: &Json) -> (r: Result<(), Error>)
    ensures
        outcome(r) == (if document_version(document.deep_view()) == Some(1u64) {
            Ok::<(), Seq<char>>(())
        } else {
            Err("unsupported sessions.json version (file preserved)"@)
        }),
{
    let version = match document.get("version") {
        Some(Json::Number(_, unsigned)) => *unsigned,
        _ => None,
    };
    if version == Some(1u64) {
        Ok(())
    } else {
        Err(Error::new("unsupported sessions.json version (file preserved)"))
    }
}

/// Checks that the text of a session file is a document of a known version.
pub fn check_session_text(text: &str, path: &str) -> (r: Result<(), Error>)
    ensures
        outcome(r) == (match session_text_fault(text@, path@) {
            Some(fault) => Err::<(), Seq<char>>(fault),
            None => Ok(()),
        }),
{
    match parse_json(text) {
        Ok(document) => check_session_document(&document),
        Err(error) => {
            let mut context = "parse ".to_owned();
            context.append(path);
            context.append(" (file preserved)");
            Err(error.within(context.as_str()))
        },
    }
}

/// Checks the size of a session file before it is written.
pub fn check_session_size(size: usize) -> (r: Result<(), Error>)
    ensures
        outcome(r) == (if size <= MAX_SESSION_BYTES {
            Ok::<(), Seq<char>>(())
        } else {
            Err("session file exceeds size limit"@)
        }),
{
    if size <= MAX_SESSION_BYTES {
        Ok(())
    } else {
        Err(Error::new("session file exceeds size limit"))
    }
}

/// After a selection was stored it is what is restored for its term, the selections of other
/// terms are as before, and storing it again needs no write.
pub proof fn law_save_is_restored(
    session: SelectionSessionView,
    term: Seq<char>,
    selected: Seq<Seq<char>>,
    now: Seq<char>,
    later: Seq<char>,
    bytes: Seq<u8>,
    other: Seq<char>,
)
    requires
        ascending::<String>(keys_of(session.sessions.terms)),
        storable_id(term),
        all_storable(selected),
        selection_of(session.sessions, term) != Some(selected),
    ensures
        ({
            let plan = save_plan(session, term, selected, session.disk_bytes, now);
            let next = SelectionSessionView {
                sessions: (plan->Ok_0)->0,
                disk_bytes: Some(bytes),
            };
            &&& plan is Ok && plan->Ok_0 is Some
            &&& selection_of(next.sessions, term) == Some(selected)
            &&& other != term ==> selection_of(next.sessions, other) == selection_of(
                session.sessions,
                other,
            )
            &&& save_plan(next, term, selected, next.disk_bytes, later) == Ok::<
                Option<SessionsView>,
                Seq<char>,
            >(None)
        }),
{
    let saved = SavedSelectionView { selected, saved_at: now };
    law_lookup_after_insert::<String, SavedSelectionView>(
        session.sessions.terms,
        term,
        saved,
        term,
    );
    law_lookup_after_insert::<String, SavedSelectionView>(
        session.sessions.terms,
        term,
        saved,
        other,
    );
}

/// A selection to be stored: the term, the subjects and the time.
pub type Save = (Seq<char>, Seq<Seq<char>>, Seq<char>);

/// The sessions after a selection was stored, where nobody else writes the file.
pub open spec fn after_storing(sessions: SessionsView, save: Save) -> SessionsView {
    let session = SelectionSessionView { sessions, disk_bytes: None };
    match save_plan(session, save.0, save.1, None, save.2) {
        Ok(Some(next)) => next,
        _ => sessions,
    }
}

/// The sessions after selections were stored one after the other.
pub open spec fn after_storing_all(sessions: SessionsView, saves: Seq<Save>) -> SessionsView
    decreases saves.len(),
{
    if saves.len() == 0 {
        sessions
    } else {
        after_storing(after_storing_all(sessions, saves.drop_last()), saves.last())
    }
}

/// The selection that was stored last for a term.
pub open spec fn last_stored(saves: Seq<Save>, term: Seq<char>) -> Option<Seq<Seq<char>>>
    decreases saves.len(),
{
    if saves.len() == 0 {
        None
    } else if saves.last().0 == term {
        Some(saves.last().1)
    } else {
        last_stored(saves.drop_last(), term)
    }
}

/// A selection that may be stored.
pub open spec fn storable(save: Save) -> bool {
    storable_id(save.0) && all_storable(save.1) && rfc3339_instant(save.2) is Ok
}

proof fn lemma_terms_fault(terms: Seq<(Seq<char>, SavedSelectionView)>)
    ensures
        terms_fault(terms) is None <==> forall|i: int|
            0 <= i < terms.len() ==> saved_fault((#[trigger] terms[i]).0, terms[i].1) is None,
    decreases terms.len(),
{
    if terms.len() > 0 {
        let rest = terms.drop_last();
        lemma_terms_fault(rest);
        assert(forall|i: int| 0 <= i < rest.len() ==> rest[i] == terms[i]);
        assert(terms[terms.len() - 1] == terms.last());
        if terms_fault(terms) is None {
            assert forall|i: int| 0 <= i < terms.len() implies saved_fault(
                (#[trigger] terms[i]).0,
                terms[i].1,
            ) is None by {
                if i < rest.len() {
                    assert(saved_fault(rest[i].0, rest[i].1) is None);
                }
            }
        }
        if forall|i: int|
            0 <= i < terms.len() ==> saved_fault((#[trigger] terms[i]).0, terms[i].1) is None {
            assert forall|i: int| 0 <= i < rest.len() implies saved_fault(
                (#[trigger] rest[i]).0,
                rest[i].1,
            ) is None by {
                assert(saved_fault(terms[i].0, terms[i].1) is None);
            }
            assert(saved_fault(terms[terms.len() - 1].0, terms[terms.len() - 1].1) is None);
        }
    }
}

/// A stored selection leaves the sessions in order and readable.
proof fn lemma_after_storing(sessions: SessionsView, save: Save)
    requires
        ascending::<String>(keys_of(sessions.terms)),
        sessions_fault(sessions) is None,
        storable(save),
    ensures
        ascending::<String>(keys_of(after_storing(sessions, save).terms)),
        sessions_fault(after_storing(sessions, save)) is None,
{
    let (term, selected, now) = save;
    let saved = SavedSelectionView { selected, saved_at: now };
    let terms = sessions.terms;
    let next = map_insert::<String, SavedSelectionView>(terms, term, saved);
    let at = lower_bound::<String>(keys_of(terms), term);
    lemma_map_insert::<String, SavedSelectionView>(terms, term, saved);
    lemma_lower_bound::<String>(keys_of(terms), term);
    lemma_terms_fault(terms);
    lemma_terms_fault(next);
    assert forall|i: int| 0 <= i < next.len() implies saved_fault(
        (#[trigger] next[i]).0,
        next[i].1,
    ) is None by {
        if i < at {
            assert(next[i] == terms[i]);
        } else if i == at {
            assert(next[i] == (term, saved));
        } else if next.len() == terms.len() {
            assert(next[i] == terms[i]);
        } else {
            assert(next[i] == terms[i - 1]);
        }
    }
}

/// Whatever selections were stored one after the other, the file can be read again, and for each
/// term the one stored last comes back, an empty one too; a term that none was stored for has what
/// it had.
pub proof fn law_last_selection_is_restored(
    sessions: SessionsView,
    saves: Seq<Save>,
    term: Seq<char>,
)
    requires
        ascending::<String>(keys_of(sessions.terms)),
        sessions_fault(sessions) is None,
        forall|i: int| 0 <= i < saves.len() ==> storable(#[trigger] saves[i]),
    ensures
        ascending::<String>(keys_of(after_storing_all(sessions, saves).terms)),
        sessions_fault(after_storing_all(sessions, saves)) is None,
        selection_of(after_storing_all(sessions, saves), term) == (match last_stored(saves, term) {
            Some(selected) => Some(selected),
            None => selection_of(sessions, term),
        }),
    decreases saves.len(),
{
    if saves.len() > 0 {
        let rest = saves.drop_last();
        let save = saves.last();
        assert forall|i: int| 0 <= i < rest.len() implies storable(#[trigger] rest[i]) by {
            assert(rest[i] == saves[i]);
        }
        assert(storable(saves[saves.len() - 1]));
        law_last_selection_is_restored(sessions, rest, term);
        let before = after_storing_all(sessions, rest);
        lemma_after_storing(before, save);
        law_lookup_after_insert::<String, SavedSelectionView>(
            before.terms,
            save.0,
            SavedSelectionView { selected: save.1, saved_at: save.2 },
            term,
        );
    }
}

} // verus!
