//! The two endpoint payloads, parsed through serde_json behind trusted
//! wrappers whose results are named functions of the payload text, and the
//! verified construction of repository records from the parsed fields.
use crate::LangCount;
use crate::repo::RepoFields;
use crate::repo::RepositoryRecord;
use crate::repo::kept_topic_views;
use crate::repo::lemma_kept_topics_views;
use crate::repo::make_record;
use crate::repo::opt_str_view;
use crate::repo::topics_view;
use vstd::prelude::*;

verus! {

/// What serde_json parses a languages payload into: the (name, bytes) pairs
/// of the JSON object in the order serde_json's map yields them (ascending by
/// key), or nothing when the payload is not an object of integer counts. A
/// function of the payload text alone.
pub uninterp spec fn parsed_langs(s: Seq<char>) -> Option<Seq<(Seq<char>, u64)>>;

/// Relies on serde_json::from_str for `BTreeMap<String, u64>`: parsing is a
/// function of the text alone.
#[verifier::external_body]
fn parse_lang_map(s: &str) -> (r: Option<Vec<LangCount>>)
    ensures
        r is Some <==> parsed_langs(s@) is Some,
        r is Some ==> r->0@.map_values(|e: LangCount| (e.name@, e.bytes)) == parsed_langs(s@)->0,
{
    let m: std::collections::BTreeMap<String, u64> = match serde_json::from_str(s) {
        Ok(m) => m,
        Err(_) => return None,
    };
    Some(m.into_iter().map(|(name, bytes)| LangCount { name, bytes }).collect())
}

/// What serde_json parses one repository-listing page into: for each element
/// of the JSON array, in order, the four fields the pipeline reads — name,
/// fork flag, topics (each `None` where not a string), and languages
/// endpoint, each `None` where absent or of another shape — or nothing when
/// the payload is not a JSON array. A function of the payload text alone.
pub uninterp spec fn parsed_repo_page(s: Seq<char>) -> Option<
    Seq<(Option<Seq<char>>, Option<bool>, Option<Seq<Option<Seq<char>>>>, Option<Seq<char>>)>,
>;

/// The view of one repository's listed fields, in the shape of
/// `parsed_repo_page`'s elements.
pub open spec fn field_view(f: RepoFields) -> (
    Option<Seq<char>>,
    Option<bool>,
    Option<Seq<Option<Seq<char>>>>,
    Option<Seq<char>>,
) {
    (
        opt_str_view(f.name),
        f.fork,
        match f.topics {
            Some(ts) => Some(topics_view(ts@)),
            None => None,
        },
        opt_str_view(f.languages_url),
    )
}

/// Relies on serde_json::from_str for `Vec<serde_json::Value>` and on
/// serde_json::Value::{get, as_str, as_bool, as_array}: one listing page read
/// to the four fields of each element. Parsing and the reads are functions of
/// the text alone.
#[verifier::external_body]
fn parse_repo_fields(s: &str) -> (r: Option<Vec<RepoFields>>)
    ensures
        r is Some <==> parsed_repo_page(s@) is Some,
        r is Some ==> r->0@.map_values(|f: RepoFields| field_view(f)) == parsed_repo_page(s@)->0,
{
    let vals: Vec<serde_json::Value> = serde_json::from_str(s).ok()?;
    Some(vals.iter().map(|v| RepoFields {
        name: v.get("name").and_then(|x| x.as_str()).map(|t| t.to_string()),
        fork: v.get("fork").and_then(|x| x.as_bool()),
        topics: v.get("topics").and_then(|x| x.as_array()).map(
            |a| a.iter().map(|t| t.as_str().map(|u| u.to_string())).collect(),
        ),
        languages_url: v.get("languages_url").and_then(|x| x.as_str()).map(|t| t.to_string()),
    }).collect())
}

/// The record a parsed field tuple stands for: exactly `make_record`'s
/// contract, stated over the views that `parsed_repo_page` yields.
pub open spec fn spec_record_of(
    rec: RepositoryRecord,
    fv: (Option<Seq<char>>, Option<bool>, Option<Seq<Option<Seq<char>>>>, Option<Seq<char>>),
) -> bool {
    &&& rec.fork == (fv.1 == Some(true))
    &&& rec.name@ == (match fv.0 {
        Some(n) => n,
        None => Seq::<char>::empty(),
    })
    &&& rec.topics@.map_values(|t: String| t@) == kept_topic_views(
        match fv.2 {
            Some(ts) => ts,
            None => Seq::<Option<Seq<char>>>::empty(),
        },
    )
    &&& (match (rec.languages_url, fv.3) {
        (Some(u), Some(v)) => u@ == v,
        (None, None) => true,
        _ => false,
    })
}

/// `make_record`'s contract, carried from the fields to their view.
proof fn lemma_record_of_fields(rec: RepositoryRecord, f: RepoFields)
    requires
        rec.fork == (f.fork == Some(true)),
        rec.name@ == (match f.name {
            Some(n) => n@,
            None => Seq::<char>::empty(),
        }),
        rec.topics@ == crate::repo::kept_topics(
            match f.topics {
                Some(ts) => ts@,
                None => Seq::<Option<String>>::empty(),
            },
        ),
        rec.languages_url == f.languages_url,
    ensures
        spec_record_of(rec, field_view(f)),
{
    let fv = field_view(f);
    match f.topics {
        Some(ts) => {
            lemma_kept_topics_views(ts@);
        },
        None => {
            lemma_kept_topics_views(Seq::<Option<String>>::empty());
            assert(topics_view(Seq::<Option<String>>::empty()) =~= Seq::<
                Option<Seq<char>>,
            >::empty());
        },
    }
}

/// Parses one page of the repository listing into records, or `None` exactly
/// when the payload is not a JSON array: record `i` is `make_record`'s result
/// for the `i`-th parsed element.
pub fn parse_repositories(body: &str) -> (r: Option<Vec<RepositoryRecord>>)
    ensures
        r is Some <==> parsed_repo_page(body@) is Some,
        r is Some ==> r->0@.len() == parsed_repo_page(body@)->0.len(),
        r is Some ==> (forall|i: int|
            0 <= i < r->0@.len() ==> spec_record_of(r->0@[i], parsed_repo_page(body@)->0[i])),
{
    match parse_repo_fields(body) {
        Some(fields) => {
            let ghost pv = parsed_repo_page(body@)->0;
            let ghost fv0 = fields@;
            proof {
                assert(pv.len() == fv0.len());
                assert forall|k: int| 0 <= k < fv0.len() implies pv[k] == field_view(fv0[k]) by {
                    assert(fv0.map_values(|f: RepoFields| field_view(f))[k] == field_view(fv0[k]));
                }
                assert(fv0.skip(0) =~= fv0);
            }
            let mut fields = fields;
            let mut out: Vec<RepositoryRecord> = Vec::new();
            while fields.len() > 0
                invariant
                    out@.len() + fields@.len() == fv0.len(),
                    fields@ == fv0.skip(out@.len() as int),
                    pv.len() == fv0.len(),
                    forall|k: int| 0 <= k < fv0.len() ==> pv[k] == field_view(fv0[k]),
                    forall|k: int| 0 <= k < out@.len() ==> spec_record_of(out@[k], pv[k]),
                decreases fields@.len(),
            {
                let ghost n = out@.len() as int;
                proof {
                    assert(fields@[0] == fv0.skip(n)[0]);
                    assert(fv0.skip(n)[0] == fv0[n]);
                }
                let f = fields.remove(0);
                let ghost fsnap = f;
                let rec = make_record(f);
                proof {
                    lemma_record_of_fields(rec, fsnap);
                    assert(fields@ =~= fv0.skip(n + 1));
                }
                out.push(rec);
            }
            proof {
                assert(out@.len() == fv0.len());
            }
            Some(out)
        },
        None => None,
    }
}

/// One fetch-and-parse outcome folded to its contribution: a failed fetch
/// (`None`) or an unparsable payload contributes the empty byte map rather
/// than failing the run; a parsed payload contributes its pairs unchanged.
pub fn fetch_result_map(body: Option<&str>) -> (r: Vec<LangCount>)
    ensures
        match body {
            None => r@.len() == 0,
            Some(s) => match parsed_langs(s@) {
                None => r@.len() == 0,
                Some(m) => r@.map_values(|e: LangCount| (e.name@, e.bytes)) == m,
            },
        },
{
    match body {
        Some(s) => match parse_lang_map(s) {
            Some(m) => m,
            None => Vec::new(),
        },
        None => Vec::new(),
    }
}

} // verus!
