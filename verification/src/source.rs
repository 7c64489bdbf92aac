use vstd::prelude::*;

use crate::errors::RedirectSourceError;
use crate::redirect::{
    canonical_form, checked_headers, pairs_view, status_from_code, CanonicalUrl, DefinitionView,
    RedirectDefinition, RedirectId, RedirectStatus, ResponseHeaders,
};
use crate::text::{decimal_text, is_blank, join2, join3, owned};
use crate::web_url::{url_parsed, url_scheme, WebUrl};

verus! {

/// One redirect record as a source supplies it, before validation.
#[derive(Debug)]
pub struct RawRedirect {
    pub id: String,
    pub canonical_url: String,
    pub redirect_url: String,
    pub status_code: u16,
    /// Header name/value pairs, in the order they are to be checked.
    pub response_headers: Vec<(String, String)>,
}

/// A raw record as plain values.
pub struct RawView {
    pub id: Seq<char>,
    pub canonical_url: Seq<char>,
    pub redirect_url: Seq<char>,
    pub status_code: u16,
    pub response_headers: Seq<(Seq<char>, Seq<char>)>,
}

impl View for RawRedirect {
    type V = RawView;

    open spec fn view(&self) -> RawView {
        RawView {
            id: self.id@,
            canonical_url: self.canonical_url@,
            redirect_url: self.redirect_url@,
            status_code: self.status_code,
            response_headers: pairs_view(self.response_headers@),
        }
    }
}

/// The definition that a record with an accepted ID gives: its canonical
/// URL normalized, its destination parsed (and, when `absolute` is asked
/// for, with a scheme), its status supported and its headers valid. Each
/// failure names the redirect.
#[verifier::opaque]
pub open spec fn definition_from(raw: RawView, absolute: bool) -> Result<DefinitionView, Seq<char>> {
    let id = raw.id;
    match canonical_form(raw.canonical_url) {
        Err(e) => Err("invalid canonical URL for redirect "@ + id + ": "@ + e),
        Ok(canonical) => match url_parsed(raw.redirect_url) {
            Err(e) => Err("invalid destination URL for redirect "@ + id + ": "@ + e),
            Ok(destination) => if absolute && url_scheme(destination).len() == 0 {
                Err("destination URL for redirect "@ + id + " must be absolute"@)
            } else {
                match status_from_code(raw.status_code) {
                    None => Err(
                        "unsupported redirect status code "@ + decimal_text(raw.status_code as nat) + " for redirect "@
                            + id,
                    ),
                    Some(status) => match checked_headers(crate::string_map::map_entries(raw.response_headers)) {
                        Err(e) => Err("invalid response headers for redirect "@ + id + ": "@ + e),
                        Ok(headers) => Ok(
                            DefinitionView {
                                id,
                                canonical_url: canonical,
                                redirect_url: destination,
                                status_code: status,
                                response_headers: headers,
                            },
                        ),
                    },
                }
            },
        },
    }
}

/// A definition keeps the record's ID.
pub proof fn lemma_definition_keeps_id(raw: RawView, absolute: bool)
    ensures
        definition_from(raw, absolute) matches Ok(d) ==> d.id == raw.id,
{
    reveal(definition_from);
}

/// The error of a record whose ID is blank.
pub open spec fn blank_id_error() -> Seq<char> {
    "invalid redirect ID: redirect ID must not be empty"@
}

/// The definition that one record gives on its own.
pub open spec fn record_definition(raw: RawView) -> Result<DefinitionView, Seq<char>> {
    if is_blank(raw.id) {
        Err(blank_id_error())
    } else {
        definition_from(raw, false)
    }
}

/// Builds the definition of a record whose ID was accepted.
fn definition_after_id(id: RedirectId, raw: RawRedirect, absolute: bool) -> (result: Result<RedirectDefinition, RedirectSourceError>)
    requires
        id@ == raw.id@,
    ensures
        match result {
            Ok(d) => definition_from(raw@, absolute) == Ok::<DefinitionView, Seq<char>>(d@),
            Err(e) => definition_from(raw@, absolute) == Err::<DefinitionView, Seq<char>>(e.spec_message()),
        },
{
    proof {
        reveal(definition_from);
    }
    let canonical_url = match CanonicalUrl::parse(raw.canonical_url.as_str()) {
        Ok(c) => c,
        Err(error) => {
            let mut message = join3("invalid canonical URL for redirect ", id.as_str(), ": ");
            message.append(error.as_str());
            return Err(RedirectSourceError::new(message));
        },
    };
    let redirect_url = match WebUrl::parse(raw.redirect_url.as_str()) {
        Ok(u) => u,
        Err(error) => {
            let mut message = join3("invalid destination URL for redirect ", id.as_str(), ": ");
            message.append(error.as_str());
            return Err(RedirectSourceError::new(message));
        },
    };
    if absolute && redirect_url.scheme().as_str().unicode_len() == 0 {
        return Err(RedirectSourceError::new(join3("destination URL for redirect ", id.as_str(), " must be absolute")));
    }
    let status_code = match RedirectStatus::try_from(raw.status_code) {
        Ok(s) => s,
        Err(error) => {
            let mut message = join3(error.as_str(), " for redirect ", id.as_str());
            proof {
                assert(error@ == "unsupported redirect status code "@ + decimal_text(raw.status_code as nat));
            }
            return Err(RedirectSourceError::new(message));
        },
    };
    let response_headers = match ResponseHeaders::try_from_strings(raw.response_headers) {
        Ok(h) => h,
        Err(error) => {
            let mut message = join3("invalid response headers for redirect ", id.as_str(), ": ");
            message.append(error.as_str());
            return Err(RedirectSourceError::new(message));
        },
    };
    Ok(RedirectDefinition { id, canonical_url, redirect_url, status_code, response_headers })
}

impl RawRedirect {
    /// Validates a record into a redirect definition.
    pub fn into_definition(self) -> (result: Result<RedirectDefinition, RedirectSourceError>)
        ensures
            match result {
                Ok(d) => record_definition(self@) == Ok::<DefinitionView, Seq<char>>(d@),
                Err(e) => record_definition(self@) == Err::<DefinitionView, Seq<char>>(e.spec_message()),
            },
    {
        let id = match RedirectId::new(owned(self.id.as_str())) {
            Ok(id) => id,
            Err(error) => {
                proof {
                    reveal_strlit("invalid redirect ID: redirect ID must not be empty");
                    reveal_strlit("invalid redirect ID: ");
                    reveal_strlit("redirect ID must not be empty");
                    assert(is_blank(self.id@));
                    assert(error@ == "redirect ID must not be empty"@);
                    assert("invalid redirect ID: "@ + error@ == blank_id_error());
                }
                return Err(RedirectSourceError::new(join2("invalid redirect ID: ", error.as_str())));
            },
        };
        definition_after_id(id, self, false)
    }
}

/// The definition that a record of a whole document gives, given the IDs
/// accepted before it: IDs must be unique, and destinations absolute.
pub open spec fn document_entry(raw: RawView, ids: Set<Seq<char>>) -> Result<DefinitionView, Seq<char>> {
    if is_blank(raw.id) {
        Err(blank_id_error())
    } else if ids.contains(raw.id) {
        Err("duplicate redirect ID "@ + raw.id)
    } else {
        definition_from(raw, true)
    }
}

/// A document's records validated in order: the accepted IDs and the
/// definitions by canonical URL. The first failure stops, and two records
/// may not share a normalized canonical URL.
pub open spec fn document_fold(raws: Seq<RawView>) -> Result<(Set<Seq<char>>, Map<Seq<char>, DefinitionView>), Seq<char>>
    decreases raws.len(),
{
    if raws.len() == 0 {
        Ok((Set::empty(), Map::empty()))
    } else {
        match document_fold(raws.drop_last()) {
            Err(e) => Err(e),
            Ok((ids, found)) => match document_entry(raws.last(), ids) {
                Err(e) => Err(e),
                Ok(d) => if found.contains_key(d.canonical_url) {
                    Err("duplicate normalized canonical URL "@ + d.canonical_url)
                } else {
                    Ok((ids.insert(d.id), found.insert(d.canonical_url, d)))
                },
            },
        }
    }
}

proof fn lemma_document_error_sticks(raws: Seq<RawView>, i: int)
    requires
        0 <= i <= raws.len(),
        document_fold(raws.take(i)) is Err,
    ensures
        document_fold(raws) == document_fold(raws.take(i)),
    decreases raws.len() - i,
{
    if i < raws.len() {
        assert(raws.take(i + 1).drop_last() =~= raws.take(i));
        lemma_document_error_sticks(raws, i + 1);
    } else {
        assert(raws.take(i) =~= raws);
    }
}

/// The views of a list of records.
pub open spec fn raw_views(raws: Seq<RawRedirect>) -> Seq<RawView> {
    raws.map_values(|r: RawRedirect| r@)
}

/// The views of a list of definitions.
pub open spec fn definition_views(defs: Seq<RedirectDefinition>) -> Seq<DefinitionView> {
    defs.map_values(|d: RedirectDefinition| d@)
}

/// Whether some definition of the list has a canonical URL.
pub open spec fn has_key(defs: Seq<DefinitionView>, k: Seq<char>) -> bool {
    exists|i: int| 0 <= i < defs.len() && #[trigger] defs[i].canonical_url == k
}

/// The definitions of a list by canonical URL.
pub open spec fn keyed(defs: Seq<DefinitionView>) -> Map<Seq<char>, DefinitionView> {
    Map::new(
        |k: Seq<char>| has_key(defs, k),
        |k: Seq<char>| defs[choose|i: int| 0 <= i < defs.len() && #[trigger] defs[i].canonical_url == k],
    )
}

/// No two definitions of the list share a canonical URL.
pub open spec fn distinct_keys(defs: Seq<DefinitionView>) -> bool {
    forall|i: int, j: int|
        0 <= i < defs.len() && 0 <= j < defs.len() && #[trigger] defs[i].canonical_url == #[trigger] defs[j].canonical_url
            ==> i == j
}

proof fn lemma_keyed_at(defs: Seq<DefinitionView>, i: int)
    requires
        distinct_keys(defs),
        0 <= i < defs.len(),
    ensures
        keyed(defs).contains_key(defs[i].canonical_url),
        keyed(defs)[defs[i].canonical_url] == defs[i],
{
    assert(has_key(defs, defs[i].canonical_url));
}

proof fn lemma_keyed_push(defs: Seq<DefinitionView>, d: DefinitionView)
    requires
        distinct_keys(defs),
        !keyed(defs).contains_key(d.canonical_url),
    ensures
        distinct_keys(defs.push(d)),
        keyed(defs.push(d)) == keyed(defs).insert(d.canonical_url, d),
{
    let pushed = defs.push(d);
    let n = defs.len() as int;
    assert forall|i: int, j: int|
        0 <= i < pushed.len() && 0 <= j < pushed.len() && #[trigger] pushed[i].canonical_url
            == #[trigger] pushed[j].canonical_url implies i == j by {
        if i < n && j < n {
            assert(defs[i].canonical_url == defs[j].canonical_url);
        } else if i < n {
            assert(has_key(defs, defs[i].canonical_url));
        } else if j < n {
            assert(has_key(defs, defs[j].canonical_url));
        }
    }
    assert forall|k: Seq<char>| #[trigger] keyed(pushed).contains_key(k) <==> keyed(defs).insert(d.canonical_url, d).contains_key(k) by {
        if has_key(pushed, k) {
            let i = choose|i: int| 0 <= i < pushed.len() && #[trigger] pushed[i].canonical_url == k;
            if i < n {
                assert(defs[i].canonical_url == k);
                assert(has_key(defs, k));
            }
        }
        if has_key(defs, k) {
            let i = choose|i: int| 0 <= i < defs.len() && #[trigger] defs[i].canonical_url == k;
            assert(pushed[i].canonical_url == k);
        }
        if k == d.canonical_url {
            assert(pushed[n].canonical_url == k);
        }
    }
    assert forall|k: Seq<char>| #[trigger] keyed(pushed).contains_key(k) implies keyed(pushed)[k] == keyed(defs).insert(d.canonical_url, d)[k] by {
        let i = choose|i: int| 0 <= i < pushed.len() && #[trigger] pushed[i].canonical_url == k;
        lemma_keyed_at(pushed, i);
        if i < n {
            lemma_keyed_at(defs, i);
        }
    }
    assert(keyed(pushed) =~= keyed(defs).insert(d.canonical_url, d));
}

proof fn lemma_keyed_len(defs: Seq<DefinitionView>)
    requires
        distinct_keys(defs),
    ensures
        keyed(defs).dom().finite(),
        keyed(defs).len() == defs.len(),
    decreases defs.len(),
{
    if defs.len() == 0 {
        assert(keyed(defs) =~= Map::<Seq<char>, DefinitionView>::empty());
    } else {
        let rest = defs.drop_last();
        assert(distinct_keys(rest)) by {
            assert forall|i: int, j: int|
                0 <= i < rest.len() && 0 <= j < rest.len() && #[trigger] rest[i].canonical_url
                    == #[trigger] rest[j].canonical_url implies i == j by {
                assert(defs[i].canonical_url == defs[j].canonical_url);
            }
        }
        lemma_keyed_len(rest);
        if keyed(rest).contains_key(defs.last().canonical_url) {
            let i = choose|i: int| 0 <= i < rest.len() && #[trigger] rest[i].canonical_url == defs.last().canonical_url;
            assert(defs[i].canonical_url == defs[defs.len() - 1].canonical_url);
        }
        lemma_keyed_push(rest, defs.last());
        assert(rest.push(defs.last()) =~= defs);
    }
}

/// The set of a list of IDs.
pub open spec fn id_set(ids: Seq<RedirectId>) -> Set<Seq<char>> {
    Set::new(|k: Seq<char>| exists|i: int| 0 <= i < ids.len() && #[trigger] ids[i]@ == k)
}

/// Redirect definitions read from a JSON document, by canonical URL.
#[derive(Debug)]
pub struct JsonRedirectSource {
    redirects: Vec<RedirectDefinition>,
}

impl View for JsonRedirectSource {
    type V = Map<Seq<char>, DefinitionView>;

    closed spec fn view(&self) -> Map<Seq<char>, DefinitionView> {
        keyed(definition_views(self.redirects@))
    }
}

impl JsonRedirectSource {
    /// No two definitions share a canonical URL.
    pub closed spec fn wf(&self) -> bool {
        distinct_keys(definition_views(self.redirects@))
    }

    /// Validates the records of a redirect document, in order.
    pub fn from_records(records: Vec<RawRedirect>) -> (result: Result<JsonRedirectSource, RedirectSourceError>)
        ensures
            match result {
                Ok(source) => source.wf() && (document_fold(raw_views(records@)) matches Ok((_, found)) && found == source@),
                Err(e) => document_fold(raw_views(records@)) == Err::<(Set<Seq<char>>, Map<Seq<char>, DefinitionView>), Seq<char>>(
                    e.spec_message(),
                ),
            },
    {
        let ghost raws = raw_views(records@);
        let mut pending = records;
        let mut ids: Vec<RedirectId> = Vec::new();
        let mut source = JsonRedirectSource { redirects: Vec::new() };
        let ghost mut consumed: int = 0;
        proof {
            assert(raws.take(0) =~= Seq::<RawView>::empty());
            assert(id_set(ids@) =~= Set::<Seq<char>>::empty());
            assert(keyed(definition_views(source.redirects@)) =~= Map::<Seq<char>, DefinitionView>::empty());
            assert(raw_views(pending@) =~= raws.skip(0));
        }
        while pending.len() > 0
            invariant
                raws == raw_views(records@),
                0 <= consumed <= raws.len(),
                raw_views(pending@) == raws.skip(consumed),
                source.wf(),
                document_fold(raws.take(consumed)) == Ok::<(Set<Seq<char>>, Map<Seq<char>, DefinitionView>), Seq<char>>(
                    (id_set(ids@), source@),
                ),
            decreases pending@.len(),
        {
            let ghost before_records = pending@;
            let raw = pending.remove(0);
            proof {
                assert(raw_views(before_records).len() == before_records.len());
                assert(raws.skip(consumed).len() > 0);
                assert(raw_views(before_records)[0] == before_records[0]@);
                assert(raws.skip(consumed)[0] == raws[consumed]);
                assert(raw@ == raws[consumed]);
                assert(raws.take(consumed + 1).drop_last() =~= raws.take(consumed));
                assert(raws.take(consumed + 1).last() == raws[consumed]);
                assert(pending@ =~= before_records.subrange(1, before_records.len() as int));
                assert forall|k: int| 0 <= k < pending@.len() implies #[trigger] raw_views(pending@)[k] == raws.skip(consumed + 1)[k] by {
                    assert(pending@[k] == before_records[k + 1]);
                    assert(raw_views(before_records)[k + 1] == raws.skip(consumed)[k + 1]);
                }
                assert(raw_views(pending@) =~= raws.skip(consumed + 1));
            }
            let id = match RedirectId::new(owned(raw.id.as_str())) {
                Ok(id) => id,
                Err(error) => {
                    proof {
                        reveal_strlit("invalid redirect ID: redirect ID must not be empty");
                        reveal_strlit("invalid redirect ID: ");
                        reveal_strlit("redirect ID must not be empty");
                        assert("invalid redirect ID: "@ + error@ == blank_id_error());
                        assert(is_blank(raws[consumed].id));
                        assert(document_entry(raws[consumed], id_set(ids@)) == Err::<DefinitionView, Seq<char>>(blank_id_error()));
                        let t = raws.take(consumed + 1);
                        assert(t.drop_last() == raws.take(consumed));
                        assert(t.last() == raws[consumed]);
                        assert(document_fold(t) == Err::<(Set<Seq<char>>, Map<Seq<char>, DefinitionView>), Seq<char>>(blank_id_error()));
                        lemma_document_error_sticks(raws, consumed + 1);
                        assert(document_fold(raws) == Err::<(Set<Seq<char>>, Map<Seq<char>, DefinitionView>), Seq<char>>(blank_id_error()));
                    }
                    let failure = RedirectSourceError::new(join2("invalid redirect ID: ", error.as_str()));
                    assert(failure.spec_message() == blank_id_error());
                    return Err(failure);
                },
            };
            if contains_id(&ids, &id) {
                proof {
                    lemma_document_error_sticks(raws, consumed + 1);
                }
                return Err(RedirectSourceError::new(join2("duplicate redirect ID ", id.as_str())));
            }
            let kept_id = id.clone();
            let definition = match definition_after_id(id, raw, true) {
                Ok(d) => d,
                Err(error) => {
                    proof {
                        lemma_document_error_sticks(raws, consumed + 1);
                    }
                    return Err(error);
                },
            };
            match find_key(&source.redirects, &definition.canonical_url) {
                Some(j) => {
                    proof {
                        let defs = definition_views(source.redirects@);
                        assert(defs[j as int] == source.redirects@[j as int]@);
                        lemma_keyed_at(defs, j as int);
                        lemma_document_error_sticks(raws, consumed + 1);
                    }
                    return Err(RedirectSourceError::new(
                        join2("duplicate normalized canonical URL ", definition.canonical_url.as_str()),
                    ));
                },
                None => {},
            }
            let ghost d = definition@;
            proof {
                lemma_definition_keeps_id(raws[consumed], true);
            }
            let ghost old_ids = ids@;
            let ghost old_defs = definition_views(source.redirects@);
            ids.push(kept_id);
            source.redirects.push(definition);
            proof {
                lemma_id_set_push(old_ids, ids@.last());
                assert(ids@ =~= old_ids.push(ids@.last()));
                assert(definition_views(source.redirects@) =~= old_defs.push(d));
                lemma_keyed_push(old_defs, d);
                consumed = consumed + 1;
            }
        }
        proof {
            assert(raws.skip(consumed).len() == 0);
            assert(raws.take(consumed) =~= raws);
        }
        Ok(source)
    }

    /// The definition of a canonical URL, if the document has one; a JSON
    /// source never fails.
    pub fn resolve(&self, canonical_url: &CanonicalUrl) -> (result: Result<Option<RedirectDefinition>, RedirectSourceError>)
        requires
            self.wf(),
        ensures
            match result {
                Ok(Some(d)) => self@.contains_key(canonical_url@) && d@ == self@[canonical_url@],
                Ok(None) => !self@.contains_key(canonical_url@),
                Err(_) => false,
            },
    {
        match find_key(&self.redirects, canonical_url) {
            Some(i) => {
                proof {
                    lemma_keyed_at(definition_views(self.redirects@), i as int);
                }
                Ok(Some(self.redirects[i].clone()))
            },
            None => Ok(None),
        }
    }

    /// The number of definitions.
    pub fn len(&self) -> (count: usize)
        requires
            self.wf(),
        ensures
            count == self@.len(),
    {
        proof {
            lemma_keyed_len(definition_views(self.redirects@));
        }
        self.redirects.len()
    }

    /// Whether the document holds no definition.
    pub fn is_empty(&self) -> (empty: bool)
        requires
            self.wf(),
        ensures
            empty == (self@.len() == 0),
    {
        proof {
            lemma_keyed_len(definition_views(self.redirects@));
        }
        self.redirects.len() == 0
    }
}

proof fn lemma_id_set_push(ids: Seq<RedirectId>, id: RedirectId)
    ensures
        id_set(ids.push(id)) == id_set(ids).insert(id@),
{
    let pushed = ids.push(id);
    assert forall|k: Seq<char>| #[trigger] id_set(pushed).contains(k) <==> id_set(ids).insert(id@).contains(k) by {
        if id_set(pushed).contains(k) {
            let i = choose|i: int| 0 <= i < pushed.len() && #[trigger] pushed[i]@ == k;
            if i < ids.len() {
                assert(ids[i]@ == k);
            }
        }
        if id_set(ids).contains(k) {
            let i = choose|i: int| 0 <= i < ids.len() && #[trigger] ids[i]@ == k;
            assert(pushed[i]@ == k);
        }
        if k == id@ {
            assert(pushed[ids.len() as int]@ == k);
        }
    }
    assert(id_set(pushed) =~= id_set(ids).insert(id@));
}

fn contains_id(ids: &Vec<RedirectId>, id: &RedirectId) -> (found: bool)
    ensures
        found == id_set(ids@).contains(id@),
{
    for i in 0..ids.len()
        invariant
            forall|j: int| 0 <= j < i ==> (#[trigger] ids@[j])@ != id@,
    {
        if crate::text::text_eq(ids[i].as_str(), id.as_str()) {
            return true;
        }
    }
    false
}

fn find_key(redirects: &Vec<RedirectDefinition>, key: &CanonicalUrl) -> (found: Option<usize>)
    ensures
        match found {
            Some(i) => i < redirects@.len() && redirects@[i as int].canonical_url@ == key@,
            None => !has_key(definition_views(redirects@), key@),
        },
{
    let ghost defs = definition_views(redirects@);
    for i in 0..redirects.len()
        invariant
            defs == definition_views(redirects@),
            forall|j: int| 0 <= j < i ==> (#[trigger] defs[j]).canonical_url != key@,
    {
        if redirects[i].canonical_url.same_key(key) {
            return Some(i);
        }
    }
    None
}

/// A loaded document is consistent: every definition sits under its own
/// canonical URL, its ID is among the accepted IDs, and no two definitions
/// share an ID.
pub proof fn law_document_ids_are_unique(raws: Seq<RawView>)
    ensures
        document_fold(raws) matches Ok((ids, found)) ==> {
            &&& forall|k: Seq<char>| #[trigger] found.contains_key(k) ==> found[k].canonical_url == k && ids.contains(found[k].id)
            &&& forall|k1: Seq<char>, k2: Seq<char>|
                #[trigger] found.contains_key(k1) && #[trigger] found.contains_key(k2) && k1 != k2 ==> found[k1].id
                    != found[k2].id
        },
    decreases raws.len(),
{
    if raws.len() > 0 {
        law_document_ids_are_unique(raws.drop_last());
        if let Ok((ids, found)) = document_fold(raws) {
            let (old_ids, old_found) = document_fold(raws.drop_last())->Ok_0;
            let d = document_entry(raws.last(), old_ids)->Ok_0;
            lemma_definition_keeps_id(raws.last(), true);
            assert(!old_ids.contains(d.id));
            assert(found == old_found.insert(d.canonical_url, d));
            assert(ids == old_ids.insert(d.id));
            assert forall|k1: Seq<char>, k2: Seq<char>|
                #[trigger] found.contains_key(k1) && #[trigger] found.contains_key(k2) && k1 != k2 implies found[k1].id
                != found[k2].id by {
                if k1 != d.canonical_url && k2 != d.canonical_url {
                    assert(old_found.contains_key(k1) && old_found.contains_key(k2));
                } else if k1 == d.canonical_url {
                    assert(old_found.contains_key(k2));
                    assert(old_ids.contains(old_found[k2].id));
                } else {
                    assert(old_found.contains_key(k1));
                    assert(old_ids.contains(old_found[k1].id));
                }
            }
        }
    }
}

/// Every record of a loaded document can be looked up: its definition is
/// the one held under its normalized canonical URL.
pub proof fn law_every_record_is_resolvable(raws: Seq<RawView>)
    ensures
        document_fold(raws) matches Ok((_, found)) ==> forall|i: int|
            0 <= i < raws.len() ==> (#[trigger] definition_from(raws[i], true) matches Ok(d) && found.contains_key(
                d.canonical_url,
            ) && found[d.canonical_url] == d),
    decreases raws.len(),
{
    if raws.len() > 0 {
        let rest = raws.drop_last();
        law_every_record_is_resolvable(rest);
        if let Ok((ids, found)) = document_fold(raws) {
            let (old_ids, old_found) = document_fold(rest)->Ok_0;
            let d = document_entry(raws.last(), old_ids)->Ok_0;
            assert(found == old_found.insert(d.canonical_url, d));
            assert forall|i: int| 0 <= i < raws.len() implies (#[trigger] definition_from(raws[i], true) matches Ok(e)
                && found.contains_key(e.canonical_url) && found[e.canonical_url] == e) by {
                if i < rest.len() {
                    assert(rest[i] == raws[i]);
                    let e = definition_from(rest[i], true)->Ok_0;
                    assert(old_found.contains_key(e.canonical_url));
                    assert(e.canonical_url != d.canonical_url);
                } else {
                    assert(raws[i] == raws.last());
                }
            }
        }
    }
}

} // verus!
