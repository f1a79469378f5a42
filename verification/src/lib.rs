//! A byte-weighted language-statistics pipeline: paginated repository
//! listing, topic-based exclusion filtering, order-independent aggregation of
//! per-repository language byte maps, deterministic ranking, and fixed-width
//! presentation formatting.
//!
//! Percentages are carried exactly, as a byte count over the grand total, and
//! are rendered in hundredths of a percent (rounded half up), so the whole
//! pipeline is free of floating point.
pub mod aggregate;
pub mod json;
pub mod present;
pub mod rank;
pub mod repo;

use vstd::prelude::*;

verus! {

use crate::aggregate::byte_sum;
use crate::aggregate::maps_byte_sum;
use crate::aggregate::maps_view;
use crate::aggregate::spec_aggregate;
use crate::present::spec_bar;
use crate::present::spec_padded;
use crate::present::spec_pct_centi;
use crate::present::spec_percent_str;
use crate::rank::RankedLanguage;
use crate::rank::ranked_view;
use crate::rank::spec_rank;

/// One language together with the number of bytes attributed to it.
#[derive(Debug, Clone, PartialEq, Eq)]
pub struct LangCount {
    pub name: String,
    pub bytes: u64,
}

/// One display row handed to the renderer: the display name left-justified to
/// 15 characters, the ten-cell bar, and the percentage with two decimals.
#[derive(Debug, Clone, PartialEq, Eq)]
pub struct DisplayLanguage {
    pub name: String,
    pub bar: String,
    pub percentage_str: String,
}

/// The core of the pipeline on the fetched byte maps: aggregate them in the
/// given order, then rank. Maps of failed fetches are empty and contribute
/// nothing. The result is the stable descending ranking of the aggregate, cut
/// to the top 8, under display names, with each entry carrying its byte count
/// and the grand total (its exact percentage).
pub fn calculate_language_stats(maps: &Vec<Vec<LangCount>>) -> (r: Vec<RankedLanguage>)
    requires
        maps_byte_sum(maps_view(maps@)) <= u64::MAX,
    ensures
        ranked_view(r@) == spec_rank(spec_aggregate(maps_view(maps@))),
        forall|i: int|
            0 <= i < r@.len() ==> (r@[i].total as int == byte_sum(spec_aggregate(maps_view(maps@)))
                && r@[i].bytes <= r@[i].total && r@[i].total > 0),
{
    let totals = aggregate::aggregate(maps);
    proof {
        aggregate::lemma_aggregate_byte_sum(maps_view(maps@));
    }
    rank::rank_languages(&totals)
}

/// The display rows for a ranked list: each entry's name padded to the fixed
/// width, and its bar and percentage string computed from the entry's exact
/// percentage `bytes / total * 100`, rounded half up to hundredths.
pub fn present_languages(ranked: &Vec<RankedLanguage>) -> (r: Vec<DisplayLanguage>)
    requires
        forall|i: int|
            0 <= i < ranked@.len() ==> (ranked@[i].total > 0 && ranked@[i].bytes
                <= ranked@[i].total),
    ensures
        r@.len() == ranked@.len(),
        forall|i: int|
            0 <= i < r@.len() ==> (r@[i].name@ == spec_padded(ranked@[i].name@) && r@[i].bar@
                == spec_bar(spec_pct_centi(ranked@[i].bytes as int, ranked@[i].total as int))
                && r@[i].percentage_str@ == spec_percent_str(
                spec_pct_centi(ranked@[i].bytes as int, ranked@[i].total as int),
            )),
{
    let mut out: Vec<DisplayLanguage> = Vec::new();
    let mut i: usize = 0;
    while i < ranked.len()
        invariant
            0 <= i <= ranked@.len(),
            out@.len() == i,
            forall|j: int|
                0 <= j < ranked@.len() ==> (ranked@[j].total > 0 && ranked@[j].bytes
                    <= ranked@[j].total),
            forall|k: int|
                0 <= k < i ==> (out@[k].name@ == spec_padded(ranked@[k].name@) && out@[k].bar@
                    == spec_bar(spec_pct_centi(ranked@[k].bytes as int, ranked@[k].total as int))
                    && out@[k].percentage_str@ == spec_percent_str(
                    spec_pct_centi(ranked@[k].bytes as int, ranked@[k].total as int),
                )),
        decreases ranked@.len() - i,
    {
        let e = &ranked[i];
        let pct = present::percentage_centi(e.bytes, e.total);
        let row = DisplayLanguage {
            name: present::pad_lang_name(e.name.as_str()),
            bar: present::render_progress_bar(pct),
            percentage_str: present::percent_string(pct),
        };
        out.push(row);
        i = i + 1;
    }
    out
}

/// The whole core on fetched byte maps: aggregate, rank, and format. Row `i`
/// shows the `i`-th ranked language: its padded display name, its bar, and
/// its percentage of the grand total.
pub fn language_report(maps: &Vec<Vec<LangCount>>) -> (r: Vec<DisplayLanguage>)
    requires
        maps_byte_sum(maps_view(maps@)) <= u64::MAX,
    ensures
        ({
            let ranked = spec_rank(spec_aggregate(maps_view(maps@)));
            let total = byte_sum(spec_aggregate(maps_view(maps@)));
            r@.len() == ranked.len() && (forall|i: int|
                0 <= i < r@.len() ==> (r@[i].name@ == spec_padded(ranked[i].0) && r@[i].bar@
                    == spec_bar(spec_pct_centi(ranked[i].1, total)) && r@[i].percentage_str@
                    == spec_percent_str(spec_pct_centi(ranked[i].1, total))))
        }),
{
    let ranked = calculate_language_stats(maps);
    let r = present_languages(&ranked);
    proof {
        let rv = spec_rank(spec_aggregate(maps_view(maps@)));
        assert forall|i: int| 0 <= i < ranked@.len() implies (ranked@[i].name@ == rv[i].0
            && ranked@[i].bytes as int == rv[i].1) by {
            assert(ranked_view(ranked@)[i] == (ranked@[i].name@, ranked@[i].bytes as int));
        }
    }
    r
}

} // verus!
