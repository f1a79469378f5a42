//! Repository records, the eligibility filter, and the paginated listing
//! walk.
use vstd::prelude::*;

verus! {

/// What the pipeline reads of one listed repository, as plain optional
/// values: a field is `None` when the listing did not carry it, or carried it
/// with an unexpected shape.
pub struct RepoFields {
    pub name: Option<String>,
    pub fork: Option<bool>,
    pub topics: Option<Vec<Option<String>>>,
    pub languages_url: Option<String>,
}

/// One repository as the pipeline sees it: its identifier, its fork flag, its
/// topic tags, and the endpoint for its language statistics (when the listing
/// carried one).
pub struct RepositoryRecord {
    pub name: String,
    pub fork: bool,
    pub topics: Vec<String>,
    pub languages_url: Option<String>,
}

/// The topics that were present as strings, in order; non-string or missing
/// topics never exclude a repository and are dropped.
pub open spec fn kept_topics(ts: Seq<Option<String>>) -> Seq<String>
    decreases ts.len(),
{
    if ts.len() == 0 {
        Seq::empty()
    } else if ts.last() is Some {
        kept_topics(ts.drop_last()).push(ts.last()->0)
    } else {
        kept_topics(ts.drop_last())
    }
}

/// `kept_topics`, stated over topic views rather than strings.
pub open spec fn kept_topic_views(ts: Seq<Option<Seq<char>>>) -> Seq<Seq<char>>
    decreases ts.len(),
{
    if ts.len() == 0 {
        Seq::empty()
    } else if ts.last() is Some {
        kept_topic_views(ts.drop_last()).push(ts.last()->0)
    } else {
        kept_topic_views(ts.drop_last())
    }
}

/// The view of an optional string.
pub open spec fn opt_str_view(t: Option<String>) -> Option<Seq<char>> {
    match t {
        Some(x) => Some(x@),
        None => None,
    }
}

/// The views of a topic list.
pub open spec fn topics_view(ts: Seq<Option<String>>) -> Seq<Option<Seq<char>>> {
    ts.map_values(|t: Option<String>| opt_str_view(t))
}

/// Keeping the present topics and then taking views is taking views and then
/// keeping the present topics.
pub proof fn lemma_kept_topics_views(ts: Seq<Option<String>>)
    ensures
        kept_topics(ts).map_values(|t: String| t@) == kept_topic_views(topics_view(ts)),
    decreases ts.len(),
{
    if ts.len() == 0 {
        assert(kept_topics(ts).map_values(|t: String| t@) =~= Seq::<Seq<char>>::empty());
        assert(topics_view(ts) =~= Seq::<Option<Seq<char>>>::empty());
        assert(kept_topic_views(topics_view(ts)) =~= Seq::<Seq<char>>::empty());
    } else {
        lemma_kept_topics_views(ts.drop_last());
        let tv = topics_view(ts);
        assert(tv.last() == opt_str_view(ts.last()));
        assert(tv.drop_last() =~= topics_view(ts.drop_last()));
        if ts.last() is Some {
            assert(kept_topics(ts) == kept_topics(ts.drop_last()).push(ts.last()->0));
            assert(kept_topic_views(tv) == kept_topic_views(tv.drop_last()).push(tv.last()->0));
            assert forall|k: int|
                0 <= k < kept_topics(ts).map_values(|t: String| t@).len() implies kept_topics(
                ts,
            ).map_values(|t: String| t@)[k] == kept_topic_views(tv)[k] by {
                assert(kept_topics(ts).map_values(|t: String| t@)[k] == kept_topics(ts)[k]@);
                if k < kept_topics(ts.drop_last()).len() {
                    assert(kept_topics(ts)[k] == kept_topics(ts.drop_last())[k]);
                    assert(kept_topics(ts.drop_last()).map_values(|t: String| t@)[k]
                        == kept_topics(ts.drop_last())[k]@);
                } else {
                    assert(kept_topics(ts)[k] == ts.last()->0);
                }
            }
            assert(kept_topics(ts).map_values(|t: String| t@) =~= kept_topic_views(tv));
        } else {
            assert(kept_topics(ts) == kept_topics(ts.drop_last()));
            assert(kept_topic_views(tv) == kept_topic_views(tv.drop_last()));
        }
    }
}

/// The record a set of listed fields stands for: a missing fork flag means
/// "not a fork", a missing topic list means "no topics", a missing name means
/// the empty name, and the endpoint is kept as it came.
pub fn make_record(f: RepoFields) -> (r: RepositoryRecord)
    ensures
        r.fork == (f.fork == Some(true)),
        r.name@ == (match f.name {
            Some(n) => n@,
            None => Seq::<char>::empty(),
        }),
        r.topics@ == kept_topics(
            match f.topics {
                Some(ts) => ts@,
                None => Seq::<Option<String>>::empty(),
            },
        ),
        r.languages_url == f.languages_url,
{
    let name = match f.name {
        Some(n) => n,
        None => String::new(),
    };
    let fork = match f.fork {
        Some(b) => b,
        None => false,
    };
    let mut topics: Vec<String> = Vec::new();
    match f.topics {
        Some(ts) => {
            proof {
                assert(ts@.take(0) =~= Seq::<Option<String>>::empty());
                assert(topics@ =~= kept_topics(ts@.take(0)));
            }
            let mut i: usize = 0;
            while i < ts.len()
                invariant
                    0 <= i <= ts@.len(),
                    topics@ == kept_topics(ts@.take(i as int)),
                decreases ts@.len() - i,
            {
                match &ts[i] {
                    Some(t) => {
                        topics.push(t.clone());
                    },
                    None => {},
                }
                i = i + 1;
                proof {
                    assert(ts@.take(i as int).drop_last() =~= ts@.take(i as int - 1));
                    assert(ts@.take(i as int).last() == ts@[i as int - 1]);
                }
            }
            proof {
                assert(ts@.take(ts@.len() as int) =~= ts@);
            }
        },
        None => {
            proof {
                assert(topics@ =~= kept_topics(Seq::<Option<String>>::empty()));
            }
        },
    }
    RepositoryRecord { name, fork, topics, languages_url: f.languages_url }
}

/// A repository participates in language aggregation exactly when it is not a
/// fork and none of its topics is one of the two reserved exclusion tags,
/// compared case-sensitively.
pub open spec fn spec_included(fork: bool, topics: Seq<String>) -> bool {
    !fork && forall|i: int|
        0 <= i < topics.len() ==> (topics[i]@ != "mirror"@ && topics[i]@ != "no-stats"@)
}

/// Decides eligibility: forks and repositories tagged "mirror" or "no-stats"
/// are excluded; everything else participates.
pub fn repo_included(r: &RepositoryRecord) -> (b: bool)
    ensures
        b == spec_included(r.fork, r.topics@),
{
    if r.fork {
        return false;
    }
    let mirror: String = "mirror".to_owned();
    let nostats: String = "no-stats".to_owned();
    let mut i: usize = 0;
    while i < r.topics.len()
        invariant
            0 <= i <= r.topics@.len(),
            mirror@ == "mirror"@,
            nostats@ == "no-stats"@,
            forall|j: int|
                0 <= j < i ==> (r.topics@[j]@ != "mirror"@ && r.topics@[j]@ != "no-stats"@),
        decreases r.topics@.len() - i,
    {
        if r.topics[i] == mirror || r.topics[i] == nostats {
            return false;
        }
        i = i + 1;
    }
    true
}

/// The endpoint to fetch for one repository: present exactly when the
/// repository is eligible and its record carries a languages endpoint. A
/// repository without one contributes nothing, like a failed fetch.
pub fn fetch_target(r: &RepositoryRecord) -> (u: Option<&String>)
    ensures
        u is Some <==> (spec_included(r.fork, r.topics@) && r.languages_url is Some),
        u is Some ==> u->0 == r.languages_url->0,
{
    if repo_included(r) {
        match &r.languages_url {
            Some(url) => Some(url),
            None => None,
        }
    } else {
        None
    }
}

/// The paginated listing walk: pages are requested in increasing order
/// starting at page 1, and the first page with zero records ends the walk.
/// The records of all pages accumulate in the order they arrived.
pub struct RepoLister {
    pub next_page: u64,
    pub repos: Vec<RepositoryRecord>,
    pub done: bool,
}

impl RepoLister {
    /// A fresh walk: nothing fetched, the first request is page 1.
    pub fn new() -> (r: RepoLister)
        ensures
            r.next_page == 1,
            r.repos@ == Seq::<RepositoryRecord>::empty(),
            !r.done,
    {
        let r = RepoLister { next_page: 1, repos: Vec::new(), done: false };
        proof {
            assert(r.repos@ =~= Seq::<RepositoryRecord>::empty());
        }
        r
    }

    /// Feeds the records of the page just fetched and decides whether another
    /// page must be requested: an empty page ends the walk, any other page
    /// is appended and the page index moves on by one.
    pub fn on_page(&mut self, page: Vec<RepositoryRecord>) -> (more: bool)
        requires
            !old(self).done,
            old(self).next_page < u64::MAX,
        ensures
            more == (page@.len() > 0),
            final(self).done == !more,
            more ==> (final(self).repos@ == old(self).repos@ + page@ && final(self).next_page
                == old(self).next_page + 1),
            !more ==> (final(self).repos@ == old(self).repos@ && final(self).next_page == old(
                self,
            ).next_page),
    {
        let mut p = page;
        if p.len() == 0 {
            self.done = true;
            false
        } else {
            self.repos.append(&mut p);
            self.next_page = self.next_page + 1;
            true
        }
    }
}

} // verus!
