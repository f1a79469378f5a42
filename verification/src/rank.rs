//! Ranking and normalization: the aggregated totals are sorted by byte count
//! in descending order (a stable sort: languages with equal counts keep the
//! order in which they were first encountered), truncated to the top 8, and
//! given their display names. Each ranked entry carries its byte count and
//! the grand total, which together are the entry's exact percentage
//! `bytes / total * 100`.
use crate::LangCount;
use crate::aggregate::AggregateTotals;
use crate::aggregate::all_nonneg;
use crate::aggregate::byte_sum;
use crate::aggregate::entry_view;
use crate::aggregate::lemma_byte_sum_snoc;
use crate::aggregate::lemma_entry_le_byte_sum;
use crate::aggregate::lemma_map_view_nonneg;
use crate::aggregate::lemma_total_for_snoc;
use crate::aggregate::map_view;
use crate::aggregate::total_for;
use crate::present::format_lang_name;
use crate::present::spec_display_name;
use vstd::prelude::*;

verus! {

/// How many entries the displayed ranking keeps.
pub const TOP_N: usize = 8;

/// One ranked language: its display name, its byte count, and the grand
/// total over all languages. The entry's percentage of the total is exactly
/// `bytes / total * 100`.
#[derive(Debug, Clone, PartialEq, Eq)]
pub struct RankedLanguage {
    pub name: String,
    pub bytes: u64,
    pub total: u64,
}

/// The mathematical content of a ranked list: (display name, bytes) pairs.
pub open spec fn ranked_view(r: Seq<RankedLanguage>) -> Seq<(Seq<char>, int)> {
    r.map_values(|e: RankedLanguage| (e.name@, e.bytes as int))
}

/// Descending order by byte count.
pub open spec fn sorted_desc(s: Seq<(Seq<char>, int)>) -> bool {
    forall|i: int, j: int| 0 <= i < j < s.len() ==> s[i].1 >= s[j].1
}

/// Insertion into a descending list, after every entry with at least as many
/// bytes: entries with equal counts keep their old relative order.
pub open spec fn spec_insert_desc(
    s: Seq<(Seq<char>, int)>,
    p: (Seq<char>, int),
) -> Seq<(Seq<char>, int)>
    decreases s.len(),
{
    if s.len() == 0 {
        seq![p]
    } else if s[0].1 >= p.1 {
        seq![s[0]] + spec_insert_desc(s.drop_first(), p)
    } else {
        seq![p] + s
    }
}

/// The stable descending sort of a sequence of (language, bytes) pairs.
pub open spec fn spec_sort_desc(s: Seq<(Seq<char>, int)>) -> Seq<(Seq<char>, int)>
    decreases s.len(),
{
    if s.len() == 0 {
        Seq::empty()
    } else {
        spec_insert_desc(spec_sort_desc(s.drop_last()), s.last())
    }
}

/// The display-name override applied to every entry.
pub open spec fn apply_display_names(s: Seq<(Seq<char>, int)>) -> Seq<(Seq<char>, int)> {
    s.map_values(|p: (Seq<char>, int)| (spec_display_name(p.0), p.1))
}

/// The ranked output for given totals: empty when no bytes were counted at
/// all; otherwise the stable descending sort, cut to the top `TOP_N`, under
/// display names.
pub open spec fn spec_rank(t: Seq<(Seq<char>, int)>) -> Seq<(Seq<char>, int)> {
    if byte_sum(t) == 0 {
        Seq::empty()
    } else if spec_sort_desc(t).len() <= TOP_N {
        apply_display_names(spec_sort_desc(t))
    } else {
        apply_display_names(spec_sort_desc(t).take(TOP_N as int))
    }
}

/// Inserting keeps descending order, grows the length by one, and the new
/// sequence holds the new pair and the old ones and nothing else.
pub proof fn lemma_insert_desc_sorted(s: Seq<(Seq<char>, int)>, p: (Seq<char>, int))
    requires
        sorted_desc(s),
    ensures
        sorted_desc(spec_insert_desc(s, p)),
        spec_insert_desc(s, p).len() == s.len() + 1,
        forall|k: int|
            0 <= k < spec_insert_desc(s, p).len() ==> (spec_insert_desc(s, p)[k] == p || s.contains(
                spec_insert_desc(s, p)[k],
            )),
    decreases s.len(),
{
    let r = spec_insert_desc(s, p);
    if s.len() == 0 {
        assert(r =~= seq![p]);
    } else if s[0].1 >= p.1 {
        assert(sorted_desc(s.drop_first()));
        lemma_insert_desc_sorted(s.drop_first(), p);
        let rr = spec_insert_desc(s.drop_first(), p);
        assert(r =~= seq![s[0]] + rr);
        assert(r[0] == s[0]);
        assert forall|k: int| 1 <= k < r.len() implies r[k] == p || s.contains(r[k]) by {
            assert(r[k] == rr[k - 1]);
            if rr[k - 1] == p {
            } else {
                let j = choose|j: int| 0 <= j < s.drop_first().len() && s.drop_first()[j] == rr[k
                    - 1];
                assert(s[j + 1] == rr[k - 1]);
            }
        }
        assert forall|i: int, j: int| 0 <= i < j < r.len() implies r[i].1 >= r[j].1 by {
            if i == 0 {
                if rr[j - 1] == p {
                } else {
                    let q = choose|q: int|
                        0 <= q < s.drop_first().len() && s.drop_first()[q] == rr[j - 1];
                    assert(s[q + 1] == rr[j - 1]);
                    assert(s[0].1 >= s[q + 1].1);
                }
            } else {
                assert(r[i] == rr[i - 1]);
                assert(r[j] == rr[j - 1]);
            }
        }
    } else {
        assert(r =~= seq![p] + s);
        assert(r[0] == p);
        assert forall|i: int, j: int| 0 <= i < j < r.len() implies r[i].1 >= r[j].1 by {
            if i == 0 {
                assert(r[j] == s[j - 1]);
                assert(s[0].1 >= s[j - 1].1 || j - 1 == 0);
                assert(p.1 > s[0].1);
            } else {
                assert(r[i] == s[i - 1]);
                assert(r[j] == s[j - 1]);
            }
        }
    }
}

/// The stable sort keeps descending order and the length.
pub proof fn lemma_sort_desc_sorted(s: Seq<(Seq<char>, int)>)
    ensures
        sorted_desc(spec_sort_desc(s)),
        spec_sort_desc(s).len() == s.len(),
    decreases s.len(),
{
    if s.len() == 0 {
    } else {
        lemma_sort_desc_sorted(s.drop_last());
        lemma_insert_desc_sorted(spec_sort_desc(s.drop_last()), s.last());
    }
}

pub proof fn lemma_insert_desc_byte_sum(s: Seq<(Seq<char>, int)>, p: (Seq<char>, int))
    ensures
        byte_sum(spec_insert_desc(s, p)) == byte_sum(s) + p.1,
    decreases s.len(),
{
    let r = spec_insert_desc(s, p);
    if s.len() == 0 {
        assert(r[0] == p);
        assert(r.drop_first() =~= Seq::<(Seq<char>, int)>::empty());
        assert(byte_sum(r) == r[0].1 + byte_sum(r.drop_first()));
        assert(byte_sum(Seq::<(Seq<char>, int)>::empty()) == 0);
    } else if s[0].1 >= p.1 {
        assert(r[0] == s[0]);
        assert(r.drop_first() =~= spec_insert_desc(s.drop_first(), p));
        lemma_insert_desc_byte_sum(s.drop_first(), p);
        assert(byte_sum(r) == r[0].1 + byte_sum(r.drop_first()));
        assert(byte_sum(s) == s[0].1 + byte_sum(s.drop_first()));
    } else {
        assert(r[0] == p);
        assert(r.drop_first() =~= s);
        assert(byte_sum(r) == r[0].1 + byte_sum(r.drop_first()));
    }
}

pub proof fn lemma_insert_desc_total_for(
    s: Seq<(Seq<char>, int)>,
    p: (Seq<char>, int),
    lang: Seq<char>,
)
    ensures
        total_for(spec_insert_desc(s, p), lang) == total_for(s, lang) + (if p.0 == lang {
            p.1
        } else {
            0int
        }),
    decreases s.len(),
{
    let r = spec_insert_desc(s, p);
    if s.len() == 0 {
        assert(r[0] == p);
        assert(r.drop_first() =~= Seq::<(Seq<char>, int)>::empty());
        assert(total_for(r, lang) == (if r[0].0 == lang {
            r[0].1
        } else {
            0int
        }) + total_for(r.drop_first(), lang));
        assert(total_for(Seq::<(Seq<char>, int)>::empty(), lang) == 0);
    } else if s[0].1 >= p.1 {
        assert(r[0] == s[0]);
        assert(r.drop_first() =~= spec_insert_desc(s.drop_first(), p));
        lemma_insert_desc_total_for(s.drop_first(), p, lang);
        assert(total_for(r, lang) == (if r[0].0 == lang {
            r[0].1
        } else {
            0int
        }) + total_for(r.drop_first(), lang));
        assert(total_for(s, lang) == (if s[0].0 == lang {
            s[0].1
        } else {
            0int
        }) + total_for(s.drop_first(), lang));
    } else {
        assert(r[0] == p);
        assert(r.drop_first() =~= s);
        assert(total_for(r, lang) == (if r[0].0 == lang {
            r[0].1
        } else {
            0int
        }) + total_for(r.drop_first(), lang));
    }
}

/// Sorting does not change the grand total: over the full (untruncated)
/// ranked sequence the exact percentages `bytes / total * 100` therefore sum
/// to exactly 100.
pub proof fn lemma_sort_desc_byte_sum(s: Seq<(Seq<char>, int)>)
    ensures
        byte_sum(spec_sort_desc(s)) == byte_sum(s),
    decreases s.len(),
{
    if s.len() == 0 {
    } else {
        lemma_sort_desc_byte_sum(s.drop_last());
        lemma_insert_desc_byte_sum(spec_sort_desc(s.drop_last()), s.last());
        assert(s.drop_last().push(s.last()) =~= s);
        lemma_byte_sum_snoc(s.drop_last(), s.last());
    }
}

/// Sorting does not change any language's bytes.
pub proof fn lemma_sort_desc_total_for(s: Seq<(Seq<char>, int)>, lang: Seq<char>)
    ensures
        total_for(spec_sort_desc(s), lang) == total_for(s, lang),
    decreases s.len(),
{
    if s.len() == 0 {
    } else {
        lemma_sort_desc_total_for(s.drop_last(), lang);
        lemma_insert_desc_total_for(spec_sort_desc(s.drop_last()), s.last(), lang);
        assert(s.drop_last().push(s.last()) =~= s);
        lemma_total_for_snoc(s.drop_last(), s.last(), lang);
    }
}

/// Inserting at the first position whose count is strictly smaller is the
/// same as the recursive insertion.
pub proof fn lemma_insert_desc_at(s: Seq<(Seq<char>, int)>, p: (Seq<char>, int), i: int)
    requires
        0 <= i <= s.len(),
        forall|j: int| 0 <= j < i ==> s[j].1 >= p.1,
        i < s.len() ==> s[i].1 < p.1,
    ensures
        spec_insert_desc(s, p) =~= s.insert(i, p),
    decreases s.len(),
{
    if i == 0 {
        if s.len() == 0 {
            assert(spec_insert_desc(s, p) =~= s.insert(0, p));
        } else {
            assert(s[0].1 < p.1);
            assert(spec_insert_desc(s, p) =~= s.insert(0, p));
        }
    } else {
        assert(s[0].1 >= p.1);
        assert(forall|j: int| 0 <= j < i - 1 ==> s.drop_first()[j].1 >= p.1);
        assert(i - 1 < s.drop_first().len() ==> s.drop_first()[i - 1].1 < p.1);
        lemma_insert_desc_at(s.drop_first(), p, i - 1);
        assert(spec_insert_desc(s, p) =~= seq![s[0]] + s.drop_first().insert(i - 1, p));
        assert(seq![s[0]] + s.drop_first().insert(i - 1, p) =~= s.insert(i, p));
    }
}

/// Inserts one entry into a vector kept in descending order of bytes, after
/// all entries with at least as many bytes.
fn insert_sorted(out: &mut Vec<LangCount>, e: LangCount)
    ensures
        map_view(*final(out)) == spec_insert_desc(map_view(*old(out)), entry_view(e)),
{
    let ghost s = map_view(*out);
    let mut i: usize = 0;
    while i < out.len() && out[i].bytes >= e.bytes
        invariant
            0 <= i <= out@.len(),
            *out == *old(out),
            s == map_view(*out),
            s.len() == out@.len(),
            forall|j: int| 0 <= j < i ==> s[j].1 >= e.bytes as int,
        decreases out@.len() - i,
    {
        proof {
            assert(s[i as int] == entry_view(out@[i as int]));
        }
        i = i + 1;
    }
    proof {
        if i < out.len() {
            assert(s[i as int] == entry_view(out@[i as int]));
        }
        lemma_insert_desc_at(s, entry_view(e), i as int);
    }
    out.insert(i, e);
    proof {
        assert forall|k: int| 0 <= k < map_view(*out).len() implies map_view(*out)[k] == s.insert(
            i as int,
            entry_view(e),
        )[k] by {
            assert(map_view(*out)[k] == entry_view(out@[k]));
            if k < i {
                assert(out@[k] == old(out)@[k]);
                assert(s[k] == entry_view(old(out)@[k]));
            } else if k == i {
            } else {
                assert(out@[k] == old(out)@[k - 1]);
                assert(s[k - 1] == entry_view(old(out)@[k - 1]));
            }
        }
        assert(map_view(*out) =~= s.insert(i as int, entry_view(e)));
    }
}

/// The stable descending sort of a vector of entries, leaving the input in
/// place and copying names.
pub fn sort_entries_desc(v: &Vec<LangCount>) -> (r: Vec<LangCount>)
    ensures
        map_view(r) == spec_sort_desc(map_view(*v)),
{
    let ghost sv = map_view(*v);
    let mut out: Vec<LangCount> = Vec::new();
    proof {
        assert(map_view(out) =~= Seq::<(Seq<char>, int)>::empty());
        assert(sv.take(0) =~= Seq::<(Seq<char>, int)>::empty());
    }
    let mut i: usize = 0;
    while i < v.len()
        invariant
            0 <= i <= v@.len(),
            sv == map_view(*v),
            sv.len() == v@.len(),
            map_view(out) == spec_sort_desc(sv.take(i as int)),
        decreases v@.len() - i,
    {
        let e = LangCount { name: v[i].name.clone(), bytes: v[i].bytes };
        proof {
            assert(sv[i as int] == entry_view(v@[i as int]));
            assert(entry_view(e) == sv[i as int]);
        }
        insert_sorted(&mut out, e);
        i = i + 1;
        proof {
            assert(sv.take(i as int).drop_last() =~= sv.take(i as int - 1));
            assert(sv.take(i as int).last() == sv[i as int - 1]);
            assert(spec_sort_desc(sv.take(i as int)) == spec_insert_desc(
                spec_sort_desc(sv.take(i as int).drop_last()),
                sv.take(i as int).last(),
            ));
        }
    }
    proof {
        assert(sv.take(v@.len() as int) =~= sv);
    }
    out
}

/// Ranks aggregated totals: empty when the total is zero; otherwise the
/// stable descending order by bytes, cut to the top `TOP_N`, with display
/// names applied. Every returned entry carries the grand total, and its byte
/// count never exceeds it.
pub fn rank_languages(totals: &AggregateTotals) -> (r: Vec<RankedLanguage>)
    requires
        byte_sum(totals@) <= u64::MAX,
    ensures
        ranked_view(r@) == spec_rank(totals@),
        forall|i: int|
            0 <= i < r@.len() ==> (r@[i].total as int == byte_sum(totals@) && r@[i].bytes
                <= r@[i].total && r@[i].total > 0),
{
    let total = totals.total_bytes();
    if total == 0 {
        let r: Vec<RankedLanguage> = Vec::new();
        proof {
            assert(ranked_view(r@) =~= Seq::<(Seq<char>, int)>::empty());
        }
        return r;
    }
    let ghost full = spec_sort_desc(totals@);
    let mut sorted = sort_entries_desc(&totals.entries);
    proof {
        lemma_sort_desc_sorted(totals@);
        lemma_sort_desc_byte_sum(totals@);
        lemma_map_view_nonneg(sorted);
        assert(all_nonneg(full));
        assert(byte_sum(full) == total as int);
    }
    sorted.truncate(TOP_N);
    let ghost tv = if full.len() <= TOP_N as int {
        full
    } else {
        full.take(TOP_N as int)
    };
    proof {
        assert forall|k: int| 0 <= k < map_view(sorted).len() implies map_view(sorted)[k] == tv[k]
            by {
            assert(map_view(sorted)[k] == entry_view(sorted@[k]));
        }
        assert(map_view(sorted) =~= tv);
        assert forall|k: int| 0 <= k < tv.len() implies tv[k].1 <= total as int by {
            assert(tv[k] == full[k]);
            lemma_entry_le_byte_sum(full, k);
        }
    }
    let mut out: Vec<RankedLanguage> = Vec::new();
    proof {
        assert(ranked_view(out@) =~= Seq::<(Seq<char>, int)>::empty());
        assert(tv.take(0) =~= Seq::<(Seq<char>, int)>::empty());
        assert(apply_display_names(tv.take(0)) =~= Seq::<(Seq<char>, int)>::empty());
    }
    let mut i: usize = 0;
    while i < sorted.len()
        invariant
            0 <= i <= sorted@.len(),
            tv == map_view(sorted),
            tv.len() == sorted@.len(),
            total > 0,
            forall|k: int| 0 <= k < tv.len() ==> tv[k].1 <= total as int,
            ranked_view(out@) == apply_display_names(tv.take(i as int)),
            out@.len() == i,
            forall|k: int| 0 <= k < i ==> (out@[k].total == total && out@[k].bytes <= out@[k].total),
        decreases sorted@.len() - i,
    {
        proof {
            assert(tv[i as int] == entry_view(sorted@[i as int]));
        }
        let name = format_lang_name(sorted[i].name.as_str());
        let e = RankedLanguage { name, bytes: sorted[i].bytes, total };
        let ghost prev = out@;
        out.push(e);
        i = i + 1;
        proof {
            assert(out@ =~= prev.push(e));
            assert forall|k: int|
                0 <= k < ranked_view(out@).len() implies ranked_view(out@)[k] == apply_display_names(
                tv.take(i as int),
            )[k] by {
                assert(ranked_view(out@)[k] == (out@[k].name@, out@[k].bytes as int));
                assert(tv.take(i as int)[k] == tv[k]);
                assert(apply_display_names(tv.take(i as int))[k] == (
                    spec_display_name(tv[k].0),
                    tv[k].1,
                ));
                if k < i - 1 {
                    assert(out@[k] == prev[k]);
                    assert(ranked_view(prev)[k] == (prev[k].name@, prev[k].bytes as int));
                    assert(ranked_view(prev)[k] == apply_display_names(tv.take(i as int - 1))[k]);
                    assert(apply_display_names(tv.take(i as int - 1))[k] == (
                        spec_display_name(tv.take(i as int - 1)[k].0),
                        tv.take(i as int - 1)[k].1,
                    ));
                    assert(tv.take(i as int - 1)[k] == tv[k]);
                } else {
                    assert(out@[k] == e);
                    assert(tv[k] == entry_view(sorted@[k]));
                }
            }
            assert(ranked_view(out@) =~= apply_display_names(tv.take(i as int)));
        }
    }
    proof {
        assert(tv.take(sorted@.len() as int) =~= tv);
        assert(spec_rank(totals@) == apply_display_names(tv));
    }
    out
}

/// The displayed ranking is descending by percentage (equivalently, by byte
/// count, since all entries share one total), and its length is the number of
/// entries of the totals, cut at `TOP_N`. For totals built by aggregation,
/// every language stands in exactly one entry
/// (`aggregate::lemma_aggregate_distinct`), so that number is the number of
/// distinct languages.
pub proof fn lemma_ranking_descending(t: Seq<(Seq<char>, int)>)
    requires
        byte_sum(t) != 0,
    ensures
        forall|i: int, j: int|
            0 <= i < j < spec_rank(t).len() ==> spec_rank(t)[i].1 >= spec_rank(t)[j].1,
        spec_rank(t).len() == (if t.len() <= TOP_N as int {
            t.len() as int
        } else {
            TOP_N as int
        }),
{
    lemma_sort_desc_sorted(t);
    let full = spec_sort_desc(t);
    let cut = if full.len() <= TOP_N as int {
        full
    } else {
        full.take(TOP_N as int)
    };
    assert(spec_rank(t) == apply_display_names(cut));
    assert forall|i: int, j: int|
        0 <= i < j < spec_rank(t).len() implies spec_rank(t)[i].1 >= spec_rank(t)[j].1 by {
        assert(spec_rank(t)[i] == (spec_display_name(cut[i].0), cut[i].1));
        assert(spec_rank(t)[j] == (spec_display_name(cut[j].0), cut[j].1));
        assert(cut[i].1 == full[i].1 && cut[j].1 == full[j].1);
    }
}

/// One hundred times the byte counts, summed: the numerators of the exact
/// percentages `100 * bytes_i / total` over one common denominator.
pub open spec fn pct_numer_sum(s: Seq<(Seq<char>, int)>) -> int
    decreases s.len(),
{
    if s.len() == 0 {
        0
    } else {
        100 * s[0].1 + pct_numer_sum(s.drop_first())
    }
}

pub proof fn lemma_pct_numer_sum(s: Seq<(Seq<char>, int)>)
    ensures
        pct_numer_sum(s) == 100 * byte_sum(s),
    decreases s.len(),
{
    if s.len() > 0 {
        lemma_pct_numer_sum(s.drop_first());
    }
}

/// Over the full, untruncated ranked set with total T, the exact percentages
/// `bytes_i / T * 100` sum to exactly 100: their numerators over the common
/// denominator T sum to 100 * T.
pub proof fn lemma_percentages_sum_to_100(t: Seq<(Seq<char>, int)>)
    requires
        byte_sum(t) > 0,
    ensures
        pct_numer_sum(spec_sort_desc(t)) == 100 * byte_sum(t),
{
    lemma_sort_desc_byte_sum(t);
    lemma_pct_numer_sum(spec_sort_desc(t));
}

/// Ranking the same totals twice yields the same ordered output: the ranking
/// is a function of the totals alone.
pub proof fn lemma_rank_deterministic(t1: Seq<(Seq<char>, int)>, t2: Seq<(Seq<char>, int)>)
    requires
        t1 == t2,
    ensures
        spec_rank(t1) == spec_rank(t2),
{
}

/// Renaming entries changes no byte count.
pub proof fn lemma_apply_names_byte_sum(s: Seq<(Seq<char>, int)>)
    ensures
        byte_sum(apply_display_names(s)) == byte_sum(s),
    decreases s.len(),
{
    let r = apply_display_names(s);
    if s.len() == 0 {
        assert(r =~= Seq::<(Seq<char>, int)>::empty());
    } else {
        assert(r[0] == (spec_display_name(s[0].0), s[0].1));
        assert forall|k: int|
            0 <= k < r.drop_first().len() implies r.drop_first()[k] == apply_display_names(
            s.drop_first(),
        )[k] by {
            assert(r[k + 1] == (spec_display_name(s[k + 1].0), s[k + 1].1));
            assert(apply_display_names(s.drop_first())[k] == (
                spec_display_name(s.drop_first()[k].0),
                s.drop_first()[k].1,
            ));
        }
        assert(r.drop_first() =~= apply_display_names(s.drop_first()));
        lemma_apply_names_byte_sum(s.drop_first());
        assert(byte_sum(r) == r[0].1 + byte_sum(r.drop_first()));
        assert(byte_sum(s) == s[0].1 + byte_sum(s.drop_first()));
    }
}

/// Every entry of the sorted sequence comes from the input.
pub proof fn lemma_sort_desc_nonneg(s: Seq<(Seq<char>, int)>)
    requires
        all_nonneg(s),
    ensures
        all_nonneg(spec_sort_desc(s)),
    decreases s.len(),
{
    if s.len() > 0 {
        assert(all_nonneg(s.drop_last()));
        lemma_sort_desc_nonneg(s.drop_last());
        lemma_sort_desc_sorted(s.drop_last());
        lemma_insert_desc_sorted(spec_sort_desc(s.drop_last()), s.last());
        let r = spec_sort_desc(s);
        assert forall|k: int| 0 <= k < r.len() implies r[k].1 >= 0 by {
            if r[k] == s.last() {
                assert(s[s.len() - 1].1 >= 0);
            } else {
                assert(spec_sort_desc(s.drop_last()).contains(r[k]));
                let j = choose|j: int|
                    0 <= j < spec_sort_desc(s.drop_last()).len() && spec_sort_desc(s.drop_last())[j]
                        == r[k];
            }
        }
    }
}

/// Inserting an entry no larger than everything present appends it.
pub proof fn lemma_insert_desc_at_end(s: Seq<(Seq<char>, int)>, p: (Seq<char>, int))
    requires
        forall|j: int| 0 <= j < s.len() ==> s[j].1 >= p.1,
    ensures
        spec_insert_desc(s, p) == s.push(p),
{
    lemma_insert_desc_at(s, p, s.len() as int);
    assert(s.insert(s.len() as int, p) =~= s.push(p));
}

/// Sorting an already descending sequence changes nothing.
pub proof fn lemma_sort_desc_identity(s: Seq<(Seq<char>, int)>)
    requires
        sorted_desc(s),
    ensures
        spec_sort_desc(s) == s,
    decreases s.len(),
{
    if s.len() == 0 {
        assert(spec_sort_desc(s) =~= s);
    } else {
        assert(sorted_desc(s.drop_last()));
        lemma_sort_desc_identity(s.drop_last());
        assert forall|j: int| 0 <= j < s.drop_last().len() implies s.drop_last()[j].1 >= s.last().1
            by {
            assert(s[j].1 >= s[s.len() - 1].1);
        }
        lemma_insert_desc_at_end(s.drop_last(), s.last());
        assert(s.drop_last().push(s.last()) =~= s);
    }
}

/// The display-name override settles after one application: no overridden
/// name is itself overridden.
pub proof fn lemma_display_name_idempotent(s: Seq<char>)
    ensures
        spec_display_name(spec_display_name(s)) == spec_display_name(s),
{
    reveal_strlit("Visual Basic .NET");
    reveal_strlit("Jupyter Notebook");
    reveal_strlit("VB.NET");
    reveal_strlit("Jupyter");
    assert("VB.NET"@.len() == 6);
    assert("Jupyter"@.len() == 7);
    assert("Visual Basic .NET"@.len() == 17);
    assert("Jupyter Notebook"@.len() == 16);
}

/// Running the ranker on its own output changes nothing: the output is
/// already in descending order, within the cut, and under final display
/// names.
pub proof fn lemma_rank_idempotent(t: Seq<(Seq<char>, int)>)
    requires
        all_nonneg(t),
    ensures
        spec_rank(spec_rank(t)) == spec_rank(t),
{
    if byte_sum(t) == 0 {
        assert(spec_rank(t) == Seq::<(Seq<char>, int)>::empty());
        assert(byte_sum(spec_rank(t)) == 0);
    } else {
        let full = spec_sort_desc(t);
        lemma_sort_desc_sorted(t);
        lemma_sort_desc_nonneg(t);
        lemma_sort_desc_byte_sum(t);
        let cut = if full.len() <= TOP_N as int {
            full
        } else {
            full.take(TOP_N as int)
        };
        let r = spec_rank(t);
        assert(r == apply_display_names(cut));
        assert(sorted_desc(cut) && all_nonneg(cut)) by {
            assert(forall|k: int| 0 <= k < cut.len() ==> cut[k] == full[k]);
        }
        // The first entry is positive, so the output's total is positive too.
        assert(t.len() > 0) by {
            if t.len() == 0 {
                assert(byte_sum(t) == 0);
            }
        }
        assert(cut[0] == full[0]);
        assert(full[0].1 > 0) by {
            if full[0].1 <= 0 {
                assert(forall|k: int| 0 <= k < full.len() ==> full[k].1 == 0);
                lemma_byte_sum_all_zero(full);
            }
        }
        assert(r[0] == (spec_display_name(cut[0].0), cut[0].1));
        assert(all_nonneg(r) && sorted_desc(r)) by {
            assert(forall|k: int|
                0 <= k < r.len() ==> r[k] == (spec_display_name(cut[k].0), cut[k].1));
        }
        lemma_entry_le_byte_sum(r, 0);
        assert(byte_sum(r) > 0);
        lemma_sort_desc_identity(r);
        assert(spec_sort_desc(r).len() <= TOP_N as int);
        assert(spec_rank(r) == apply_display_names(r));
        assert forall|k: int|
            0 <= k < apply_display_names(r).len() implies apply_display_names(r)[k] == r[k] by {
            assert(apply_display_names(r)[k] == (spec_display_name(r[k].0), r[k].1));
            assert(r[k] == (spec_display_name(cut[k].0), cut[k].1));
            lemma_display_name_idempotent(cut[k].0);
        }
        assert(apply_display_names(r) =~= r);
    }
}

/// A sequence of zero counts sums to zero.
pub proof fn lemma_byte_sum_all_zero(s: Seq<(Seq<char>, int)>)
    requires
        forall|k: int| 0 <= k < s.len() ==> s[k].1 == 0,
    ensures
        byte_sum(s) == 0,
    decreases s.len(),
{
    if s.len() > 0 {
        lemma_byte_sum_all_zero(s.drop_first());
    }
}

} // verus!
