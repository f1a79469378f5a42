use lang_stats::json::fetch_result_map;
use lang_stats::json::parse_repositories;
use lang_stats::repo::RepoFields;
use lang_stats::repo::RepoLister;
use lang_stats::repo::RepositoryRecord;
use lang_stats::repo::fetch_target;
use lang_stats::repo::make_record;
use lang_stats::repo::repo_included;

fn record(fork: bool, topics: &[&str]) -> RepositoryRecord {
    RepositoryRecord {
        name: "r".to_string(),
        fork,
        topics: topics.iter().map(|t| t.to_string()).collect(),
        languages_url: Some("https://example.invalid/langs".to_string()),
    }
}

#[test]
fn fork_is_excluded_regardless_of_topics() {
    assert!(!repo_included(&record(true, &[])));
    assert!(!repo_included(&record(true, &["documentation"])));
}

#[test]
fn exclusion_topics_exclude_even_non_forks() {
    assert!(!repo_included(&record(false, &["no-stats"])));
    assert!(!repo_included(&record(false, &["mirror"])));
    assert!(!repo_included(&record(false, &["docs", "mirror"])));
}

#[test]
fn documentation_topic_is_included() {
    assert!(repo_included(&record(false, &["documentation"])));
    assert!(repo_included(&record(false, &[])));
}

#[test]
fn exclusion_is_case_sensitive_and_exact() {
    assert!(repo_included(&record(false, &["Mirror"])));
    assert!(repo_included(&record(false, &["no-stats-x"])));
}

#[test]
fn fetch_target_requires_eligibility_and_endpoint() {
    let r = record(false, &["docs"]);
    assert_eq!(fetch_target(&r), Some(&"https://example.invalid/langs".to_string()));
    assert_eq!(fetch_target(&record(true, &[])), None);
    let mut no_url = record(false, &[]);
    no_url.languages_url = None;
    assert_eq!(fetch_target(&no_url), None);
}

#[test]
fn records_default_missing_fields() {
    let r = make_record(RepoFields { name: None, fork: None, topics: None, languages_url: None });
    assert_eq!(r.name, "");
    assert!(!r.fork);
    assert!(r.topics.is_empty());
    assert_eq!(r.languages_url, None);
}

#[test]
fn records_drop_non_string_topics() {
    let r = make_record(RepoFields {
        name: Some("a".to_string()),
        fork: Some(true),
        topics: Some(vec![Some("x".to_string()), None, Some("y".to_string())]),
        languages_url: Some("u".to_string()),
    });
    assert_eq!(r.name, "a");
    assert!(r.fork);
    assert_eq!(r.topics, vec!["x".to_string(), "y".to_string()]);
    assert_eq!(r.languages_url, Some("u".to_string()));
}

#[test]
fn repository_page_parses_fields() {
    let body = r#"[{"name":"a","fork":true,"topics":["x"],"languages_url":"u"},{"name":"b","fork":false}]"#;
    let repos = parse_repositories(body).unwrap();
    assert_eq!(repos.len(), 2);
    assert_eq!(repos[0].name, "a");
    assert!(repos[0].fork);
    assert_eq!(repos[0].topics, vec!["x".to_string()]);
    assert_eq!(repos[0].languages_url, Some("u".to_string()));
    assert_eq!(repos[1].name, "b");
    assert!(!repos[1].fork);
    assert!(repos[1].topics.is_empty());
    assert_eq!(repos[1].languages_url, None);
}

#[test]
fn repository_page_rejects_non_arrays() {
    assert!(parse_repositories("{}").is_none());
    assert!(parse_repositories("not json").is_none());
}

#[test]
fn language_payload_parses_to_pairs() {
    let m = fetch_result_map(Some(r#"{"Go":300,"TS":500}"#));
    assert_eq!(m.len(), 2);
    assert_eq!(m[0].name, "Go");
    assert_eq!(m[0].bytes, 300);
    assert_eq!(m[1].name, "TS");
    assert_eq!(m[1].bytes, 500);
}

#[test]
fn failed_fetches_contribute_nothing() {
    assert!(fetch_result_map(None).is_empty());
    assert!(fetch_result_map(Some("not json")).is_empty());
    assert!(fetch_result_map(Some(r#"{"Go":"many"}"#)).is_empty());
    assert!(fetch_result_map(Some("[1,2]")).is_empty());
}

#[test]
fn lister_walks_pages_until_an_empty_one() {
    let mut lister = RepoLister::new();
    assert_eq!(lister.next_page, 1);
    assert!(!lister.done);
    let more = lister.on_page(vec![record(false, &[]), record(true, &[])]);
    assert!(more);
    assert_eq!(lister.next_page, 2);
    assert_eq!(lister.repos.len(), 2);
    let more = lister.on_page(vec![record(false, &["docs"])]);
    assert!(more);
    assert_eq!(lister.next_page, 3);
    assert_eq!(lister.repos.len(), 3);
    let more = lister.on_page(vec![]);
    assert!(!more);
    assert!(lister.done);
    assert_eq!(lister.next_page, 3);
    assert_eq!(lister.repos.len(), 3);
}
