//! Aggregation of per-repository language byte maps into one totals map.
//!
//! A byte map is modelled as a sequence of (language, bytes) pairs; merging
//! folds every pair of every map into the totals, summing bytes per language
//! and appending languages in the order they are first encountered. The
//! resulting totals, read as a function from language to byte count, do not
//! depend on the order in which the maps are merged.
use crate::LangCount;
use vstd::prelude::*;

verus! {

/// The mathematical content of one entry: its name and its byte count.
pub open spec fn entry_view(e: LangCount) -> (Seq<char>, int) {
    (e.name@, e.bytes as int)
}

/// A byte map as a sequence of (language, bytes) pairs.
pub open spec fn map_view(m: Vec<LangCount>) -> Seq<(Seq<char>, int)> {
    m@.map_values(|e: LangCount| entry_view(e))
}

/// A collection of byte maps, each taken to its mathematical view.
pub open spec fn maps_view(ms: Seq<Vec<LangCount>>) -> Seq<Seq<(Seq<char>, int)>> {
    ms.map_values(|m: Vec<LangCount>| map_view(m))
}

/// The sum of all byte counts in a map.
pub open spec fn byte_sum(t: Seq<(Seq<char>, int)>) -> int
    decreases t.len(),
{
    if t.len() == 0 {
        0
    } else {
        t[0].1 + byte_sum(t.drop_first())
    }
}

/// The bytes a map attributes to one language (0 if absent).
pub open spec fn total_for(t: Seq<(Seq<char>, int)>, lang: Seq<char>) -> int
    decreases t.len(),
{
    if t.len() == 0 {
        0
    } else {
        (if t[0].0 == lang {
            t[0].1
        } else {
            0
        }) + total_for(t.drop_first(), lang)
    }
}

/// Whether a map mentions a language at all.
pub open spec fn has_lang(t: Seq<(Seq<char>, int)>, lang: Seq<char>) -> bool {
    exists|i: int| 0 <= i < t.len() && t[i].0 == lang
}

/// All byte counts are non-negative (true of every map view).
pub open spec fn all_nonneg(t: Seq<(Seq<char>, int)>) -> bool {
    forall|i: int| 0 <= i < t.len() ==> t[i].1 >= 0
}

/// No language occurs twice.
pub open spec fn distinct_langs(t: Seq<(Seq<char>, int)>) -> bool {
    forall|i: int, j: int| 0 <= i < j < t.len() ==> t[i].0 != t[j].0
}

/// Adding `bytes` under `lang`: the count of the first entry for `lang` grows
/// by `bytes`; an unknown language is appended at the end.
pub open spec fn spec_add(
    t: Seq<(Seq<char>, int)>,
    lang: Seq<char>,
    bytes: int,
) -> Seq<(Seq<char>, int)>
    decreases t.len(),
{
    if t.len() == 0 {
        seq![(lang, bytes)]
    } else if t[0].0 == lang {
        seq![(t[0].0, t[0].1 + bytes)] + t.drop_first()
    } else {
        seq![t[0]] + spec_add(t.drop_first(), lang, bytes)
    }
}

/// Merging a whole byte map into the totals, one pair at a time, in order.
pub open spec fn spec_merge(
    t: Seq<(Seq<char>, int)>,
    m: Seq<(Seq<char>, int)>,
) -> Seq<(Seq<char>, int)>
    decreases m.len(),
{
    if m.len() == 0 {
        t
    } else {
        spec_add(spec_merge(t, m.drop_last()), m.last().0, m.last().1)
    }
}

/// The totals of a whole collection of byte maps, merged in order starting
/// from the empty totals.
pub open spec fn spec_aggregate(ms: Seq<Seq<(Seq<char>, int)>>) -> Seq<(Seq<char>, int)>
    decreases ms.len(),
{
    if ms.len() == 0 {
        Seq::empty()
    } else {
        spec_merge(spec_aggregate(ms.drop_last()), ms.last())
    }
}

/// The sum of the byte sums of a collection of maps.
pub open spec fn maps_byte_sum(ms: Seq<Seq<(Seq<char>, int)>>) -> int
    decreases ms.len(),
{
    if ms.len() == 0 {
        0
    } else {
        byte_sum(ms[0]) + maps_byte_sum(ms.drop_first())
    }
}

pub proof fn lemma_byte_sum_snoc(s: Seq<(Seq<char>, int)>, p: (Seq<char>, int))
    ensures
        byte_sum(s.push(p)) == byte_sum(s) + p.1,
    decreases s.len(),
{
    if s.len() == 0 {
        assert(s.push(p).len() == 1);
        assert(s.push(p)[0] == p);
        assert(s.push(p).drop_first() =~= Seq::<(Seq<char>, int)>::empty());
        assert(byte_sum(s.push(p)) == s.push(p)[0].1 + byte_sum(s.push(p).drop_first()));
        assert(byte_sum(Seq::<(Seq<char>, int)>::empty()) == 0);
        assert(byte_sum(s) == 0);
    } else {
        assert(s.push(p)[0] == s[0]);
        assert(s.push(p).drop_first() =~= s.drop_first().push(p));
        lemma_byte_sum_snoc(s.drop_first(), p);
        assert(byte_sum(s.push(p)) == s.push(p)[0].1 + byte_sum(s.push(p).drop_first()));
        assert(byte_sum(s) == s[0].1 + byte_sum(s.drop_first()));
    }
}

pub proof fn lemma_total_for_snoc(s: Seq<(Seq<char>, int)>, p: (Seq<char>, int), lang: Seq<char>)
    ensures
        total_for(s.push(p), lang) == total_for(s, lang) + (if p.0 == lang {
            p.1
        } else {
            0int
        }),
    decreases s.len(),
{
    if s.len() == 0 {
        assert(s.push(p)[0] == p);
        assert(s.push(p).drop_first() =~= Seq::<(Seq<char>, int)>::empty());
        assert(total_for(s.push(p), lang) == (if s.push(p)[0].0 == lang {
            s.push(p)[0].1
        } else {
            0int
        }) + total_for(s.push(p).drop_first(), lang));
        assert(total_for(Seq::<(Seq<char>, int)>::empty(), lang) == 0);
    } else {
        assert(s.push(p)[0] == s[0]);
        assert(s.push(p).drop_first() =~= s.drop_first().push(p));
        lemma_total_for_snoc(s.drop_first(), p, lang);
        assert(total_for(s.push(p), lang) == (if s.push(p)[0].0 == lang {
            s.push(p)[0].1
        } else {
            0int
        }) + total_for(s.push(p).drop_first(), lang));
        assert(total_for(s, lang) == (if s[0].0 == lang {
            s[0].1
        } else {
            0int
        }) + total_for(s.drop_first(), lang));
    }
}

pub proof fn lemma_byte_sum_nonneg(s: Seq<(Seq<char>, int)>)
    requires
        all_nonneg(s),
    ensures
        byte_sum(s) >= 0,
    decreases s.len(),
{
    if s.len() > 0 {
        assert(all_nonneg(s.drop_first()));
        lemma_byte_sum_nonneg(s.drop_first());
    }
}

/// Every single count is at most the sum of all counts.
pub proof fn lemma_entry_le_byte_sum(s: Seq<(Seq<char>, int)>, i: int)
    requires
        all_nonneg(s),
        0 <= i < s.len(),
    ensures
        s[i].1 <= byte_sum(s),
    decreases s.len(),
{
    assert(all_nonneg(s.drop_first()));
    lemma_byte_sum_nonneg(s.drop_first());
    if i > 0 {
        lemma_entry_le_byte_sum(s.drop_first(), i - 1);
    }
}

pub proof fn lemma_byte_sum_take_succ(s: Seq<(Seq<char>, int)>, i: int)
    requires
        0 <= i < s.len(),
    ensures
        byte_sum(s.take(i + 1)) == byte_sum(s.take(i)) + s[i].1,
{
    assert(s.take(i + 1) =~= s.take(i).push(s[i]));
    lemma_byte_sum_snoc(s.take(i), s[i]);
}

pub proof fn lemma_byte_sum_take_le(s: Seq<(Seq<char>, int)>, i: int)
    requires
        all_nonneg(s),
        0 <= i <= s.len(),
    ensures
        byte_sum(s.take(i)) <= byte_sum(s),
    decreases s.len() - i,
{
    if i == s.len() {
        assert(s.take(i) =~= s);
    } else {
        lemma_byte_sum_take_succ(s, i);
        lemma_byte_sum_take_le(s, i + 1);
    }
}

pub proof fn lemma_byte_sum_spec_add(t: Seq<(Seq<char>, int)>, lang: Seq<char>, bytes: int)
    ensures
        byte_sum(spec_add(t, lang, bytes)) == byte_sum(t) + bytes,
    decreases t.len(),
{
    let r = spec_add(t, lang, bytes);
    if t.len() == 0 {
        assert(r[0] == (lang, bytes));
        assert(r.drop_first() =~= Seq::<(Seq<char>, int)>::empty());
        assert(byte_sum(r) == r[0].1 + byte_sum(r.drop_first()));
        assert(byte_sum(Seq::<(Seq<char>, int)>::empty()) == 0);
    } else if t[0].0 == lang {
        assert(r[0] == (t[0].0, t[0].1 + bytes));
        assert(r.drop_first() =~= t.drop_first());
        assert(byte_sum(r) == r[0].1 + byte_sum(r.drop_first()));
        assert(byte_sum(t) == t[0].1 + byte_sum(t.drop_first()));
    } else {
        assert(r[0] == t[0]);
        assert(r.drop_first() =~= spec_add(t.drop_first(), lang, bytes));
        lemma_byte_sum_spec_add(t.drop_first(), lang, bytes);
        assert(byte_sum(r) == r[0].1 + byte_sum(r.drop_first()));
        assert(byte_sum(t) == t[0].1 + byte_sum(t.drop_first()));
    }
}

/// Adding bytes under one language raises exactly that language's total.
pub proof fn lemma_total_for_spec_add(
    t: Seq<(Seq<char>, int)>,
    lang: Seq<char>,
    bytes: int,
    l2: Seq<char>,
)
    ensures
        total_for(spec_add(t, lang, bytes), l2) == total_for(t, l2) + (if lang == l2 {
            bytes
        } else {
            0int
        }),
    decreases t.len(),
{
    let r = spec_add(t, lang, bytes);
    if t.len() == 0 {
        assert(r[0] == (lang, bytes));
        assert(r.drop_first() =~= Seq::<(Seq<char>, int)>::empty());
        assert(total_for(r, l2) == (if r[0].0 == l2 {
            r[0].1
        } else {
            0int
        }) + total_for(r.drop_first(), l2));
        assert(total_for(Seq::<(Seq<char>, int)>::empty(), l2) == 0);
    } else if t[0].0 == lang {
        assert(r[0] == (t[0].0, t[0].1 + bytes));
        assert(r.drop_first() =~= t.drop_first());
        assert(total_for(r, l2) == (if r[0].0 == l2 {
            r[0].1
        } else {
            0int
        }) + total_for(r.drop_first(), l2));
        assert(total_for(t, l2) == (if t[0].0 == l2 {
            t[0].1
        } else {
            0int
        }) + total_for(t.drop_first(), l2));
    } else {
        assert(r[0] == t[0]);
        assert(r.drop_first() =~= spec_add(t.drop_first(), lang, bytes));
        lemma_total_for_spec_add(t.drop_first(), lang, bytes, l2);
        assert(total_for(r, l2) == (if r[0].0 == l2 {
            r[0].1
        } else {
            0int
        }) + total_for(r.drop_first(), l2));
        assert(total_for(t, l2) == (if t[0].0 == l2 {
            t[0].1
        } else {
            0int
        }) + total_for(t.drop_first(), l2));
    }
}

/// A language is in the sum iff it was already there or was just added.
pub proof fn lemma_has_lang_spec_add(
    t: Seq<(Seq<char>, int)>,
    lang: Seq<char>,
    bytes: int,
    l2: Seq<char>,
)
    ensures
        has_lang(spec_add(t, lang, bytes), l2) == (has_lang(t, l2) || lang == l2),
    decreases t.len(),
{
    let r = spec_add(t, lang, bytes);
    if t.len() == 0 {
        if lang == l2 {
            assert(r[0].0 == l2);
        }
        if has_lang(r, l2) {
            let i = choose|i: int| 0 <= i < r.len() && r[i].0 == l2;
            assert(i == 0);
        }
    } else if t[0].0 == lang {
        assert(r.drop_first() =~= t.drop_first());
        if has_lang(t, l2) {
            let i = choose|i: int| 0 <= i < t.len() && t[i].0 == l2;
            if i == 0 {
                assert(r[0].0 == l2);
            } else {
                assert(r[i].0 == l2);
            }
        }
        if has_lang(r, l2) {
            let i = choose|i: int| 0 <= i < r.len() && r[i].0 == l2;
            assert(t[i].0 == l2);
        }
        if lang == l2 {
            assert(r[0].0 == l2);
        }
    } else {
        assert(r.drop_first() =~= spec_add(t.drop_first(), lang, bytes));
        lemma_has_lang_spec_add(t.drop_first(), lang, bytes, l2);
        if has_lang(t, l2) {
            let i = choose|i: int| 0 <= i < t.len() && t[i].0 == l2;
            if i == 0 {
                assert(r[0].0 == l2);
            } else {
                assert(t.drop_first()[i - 1].0 == l2);
                assert(has_lang(t.drop_first(), l2));
            }
        }
        if has_lang(r, l2) && !(lang == l2) {
            let i = choose|i: int| 0 <= i < r.len() && r[i].0 == l2;
            if i == 0 {
                assert(t[0].0 == l2);
            } else {
                assert(has_lang(spec_add(t.drop_first(), lang, bytes), l2));
                assert(has_lang(t.drop_first(), l2));
                let j = choose|j: int| 0 <= j < t.drop_first().len() && t.drop_first()[j].0 == l2;
                assert(t[j + 1].0 == l2);
            }
        }
    }
}

/// When `lang` already stands at position `i` (and nowhere earlier), adding
/// updates that position in place.
pub proof fn lemma_spec_add_found(t: Seq<(Seq<char>, int)>, lang: Seq<char>, bytes: int, i: int)
    requires
        0 <= i < t.len(),
        t[i].0 == lang,
        forall|j: int| 0 <= j < i ==> t[j].0 != lang,
    ensures
        spec_add(t, lang, bytes) =~= t.update(i, (t[i].0, t[i].1 + bytes)),
    decreases t.len(),
{
    let r = spec_add(t, lang, bytes);
    if i == 0 {
        assert(t[0].0 == lang);
        assert(r =~= t.update(0, (t[0].0, t[0].1 + bytes)));
    } else {
        assert(t[0].0 != lang);
        assert(forall|j: int| 0 <= j < i - 1 ==> t.drop_first()[j].0 != lang);
        lemma_spec_add_found(t.drop_first(), lang, bytes, i - 1);
        assert(r =~= seq![t[0]] + t.drop_first().update(i - 1, (t[i].0, t[i].1 + bytes)));
        assert(r =~= t.update(i, (t[i].0, t[i].1 + bytes)));
    }
}

/// When `lang` is absent, adding appends a fresh entry.
pub proof fn lemma_spec_add_not_found(t: Seq<(Seq<char>, int)>, lang: Seq<char>, bytes: int)
    requires
        forall|j: int| 0 <= j < t.len() ==> t[j].0 != lang,
    ensures
        spec_add(t, lang, bytes) =~= t.push((lang, bytes)),
    decreases t.len(),
{
    if t.len() == 0 {
        assert(spec_add(t, lang, bytes) =~= t.push((lang, bytes)));
    } else {
        assert(t[0].0 != lang);
        assert(forall|j: int| 0 <= j < t.drop_first().len() ==> t.drop_first()[j].0 != lang);
        lemma_spec_add_not_found(t.drop_first(), lang, bytes);
        assert(spec_add(t, lang, bytes) =~= t.push((lang, bytes)));
    }
}

pub proof fn lemma_map_view_nonneg(m: Vec<LangCount>)
    ensures
        all_nonneg(map_view(m)),
{
    assert forall|i: int| 0 <= i < map_view(m).len() implies map_view(m)[i].1 >= 0 by {
        assert(map_view(m)[i] == entry_view(m@[i]));
    }
}

/// Each map of a collection of views has only non-negative counts.
pub open spec fn all_maps_nonneg(ms: Seq<Seq<(Seq<char>, int)>>) -> bool {
    forall|i: int| 0 <= i < ms.len() ==> all_nonneg(ms[i])
}

pub proof fn lemma_maps_view_nonneg(ms: Seq<Vec<LangCount>>)
    ensures
        all_maps_nonneg(maps_view(ms)),
{
    assert forall|i: int| 0 <= i < maps_view(ms).len() implies all_nonneg(maps_view(ms)[i]) by {
        assert(maps_view(ms)[i] == map_view(ms[i]));
        lemma_map_view_nonneg(ms[i]);
    }
}

pub proof fn lemma_maps_byte_sum_snoc(ms: Seq<Seq<(Seq<char>, int)>>, m: Seq<(Seq<char>, int)>)
    ensures
        maps_byte_sum(ms.push(m)) == maps_byte_sum(ms) + byte_sum(m),
    decreases ms.len(),
{
    if ms.len() == 0 {
        assert(ms.push(m)[0] == m);
        assert(ms.push(m).drop_first() =~= Seq::<Seq<(Seq<char>, int)>>::empty());
        assert(maps_byte_sum(ms.push(m)) == byte_sum(m) + maps_byte_sum(ms.push(m).drop_first()));
        assert(maps_byte_sum(Seq::<Seq<(Seq<char>, int)>>::empty()) == 0);
    } else {
        assert(ms.push(m)[0] == ms[0]);
        assert(ms.push(m).drop_first() =~= ms.drop_first().push(m));
        lemma_maps_byte_sum_snoc(ms.drop_first(), m);
        assert(maps_byte_sum(ms.push(m)) == byte_sum(ms[0]) + maps_byte_sum(
            ms.drop_first().push(m),
        ));
        assert(maps_byte_sum(ms) == byte_sum(ms[0]) + maps_byte_sum(ms.drop_first()));
    }
}

pub proof fn lemma_maps_byte_sum_take_succ(ms: Seq<Seq<(Seq<char>, int)>>, i: int)
    requires
        0 <= i < ms.len(),
    ensures
        maps_byte_sum(ms.take(i + 1)) == maps_byte_sum(ms.take(i)) + byte_sum(ms[i]),
{
    assert(ms.take(i + 1) =~= ms.take(i).push(ms[i]));
    lemma_maps_byte_sum_snoc(ms.take(i), ms[i]);
}

pub proof fn lemma_maps_byte_sum_take_le(ms: Seq<Seq<(Seq<char>, int)>>, i: int)
    requires
        all_maps_nonneg(ms),
        0 <= i <= ms.len(),
    ensures
        maps_byte_sum(ms.take(i)) <= maps_byte_sum(ms),
    decreases ms.len() - i,
{
    if i == ms.len() {
        assert(ms.take(i) =~= ms);
    } else {
        lemma_maps_byte_sum_take_succ(ms, i);
        lemma_byte_sum_nonneg(ms[i]);
        lemma_maps_byte_sum_take_le(ms, i + 1);
    }
}

/// Merging adds exactly the merged map's bytes to the grand total.
pub proof fn lemma_merge_byte_sum(t: Seq<(Seq<char>, int)>, m: Seq<(Seq<char>, int)>)
    ensures
        byte_sum(spec_merge(t, m)) == byte_sum(t) + byte_sum(m),
    decreases m.len(),
{
    if m.len() == 0 {
    } else {
        lemma_merge_byte_sum(t, m.drop_last());
        lemma_byte_sum_spec_add(spec_merge(t, m.drop_last()), m.last().0, m.last().1);
        assert(m.drop_last().push(m.last()) =~= m);
        lemma_byte_sum_snoc(m.drop_last(), m.last());
    }
}

/// Merging adds exactly the merged map's per-language bytes.
pub proof fn lemma_merge_total_for(
    t: Seq<(Seq<char>, int)>,
    m: Seq<(Seq<char>, int)>,
    lang: Seq<char>,
)
    ensures
        total_for(spec_merge(t, m), lang) == total_for(t, lang) + total_for(m, lang),
    decreases m.len(),
{
    if m.len() == 0 {
    } else {
        lemma_merge_total_for(t, m.drop_last(), lang);
        lemma_total_for_spec_add(spec_merge(t, m.drop_last()), m.last().0, m.last().1, lang);
        assert(m.drop_last().push(m.last()) =~= m);
        lemma_total_for_snoc(m.drop_last(), m.last(), lang);
    }
}

/// The running byte totals over all merged maps, keyed by language, in order
/// of first appearance.
pub struct AggregateTotals {
    pub entries: Vec<LangCount>,
}

impl View for AggregateTotals {
    type V = Seq<(Seq<char>, int)>;

    open spec fn view(&self) -> Seq<(Seq<char>, int)> {
        map_view(self.entries)
    }
}

impl AggregateTotals {
    /// The empty totals: no language data yet.
    pub fn new() -> (r: AggregateTotals)
        ensures
            r@ == Seq::<(Seq<char>, int)>::empty(),
    {
        let r = AggregateTotals { entries: Vec::new() };
        proof {
            assert(r@ =~= Seq::<(Seq<char>, int)>::empty());
        }
        r
    }

    /// The position of the first entry for `name`, if any.
    fn find(&self, name: &String) -> (r: Option<usize>)
        ensures
            match r {
                Some(i) => 0 <= i < self.entries@.len() && self.entries@[i as int].name@ == name@
                    && (forall|j: int| 0 <= j < i ==> self.entries@[j].name@ != name@),
                None => forall|j: int|
                    0 <= j < self.entries@.len() ==> self.entries@[j].name@ != name@,
            },
    {
        let mut i: usize = 0;
        while i < self.entries.len()
            invariant
                0 <= i <= self.entries@.len(),
                forall|j: int| 0 <= j < i ==> self.entries@[j].name@ != name@,
            decreases self.entries@.len() - i,
        {
            if self.entries[i].name == *name {
                return Some(i);
            }
            i = i + 1;
        }
        None
    }

    /// Adds `bytes` under `name`: the first entry for `name` grows by
    /// `bytes`; an unknown name is appended at the end.
    pub fn add_bytes(&mut self, name: &String, bytes: u64)
        requires
            byte_sum(old(self)@) + bytes <= u64::MAX,
        ensures
            final(self)@ == spec_add(old(self)@, name@, bytes as int),
    {
        proof {
            lemma_map_view_nonneg(self.entries);
        }
        match self.find(name) {
            Some(i) => {
                proof {
                    assert(self@[i as int] == entry_view(self.entries@[i as int]));
                    lemma_entry_le_byte_sum(self@, i as int);
                    lemma_spec_add_found(self@, name@, bytes as int, i as int);
                }
                let e = self.entries.remove(i);
                let upd = LangCount { name: e.name, bytes: e.bytes + bytes };
                self.entries.insert(i, upd);
                proof {
                    let ghost t = old(self)@;
                    assert(self.entries@ =~= old(self).entries@.update(
                        i as int,
                        LangCount { name: old(self).entries@[i as int].name, bytes: (old(self).entries@[i as int].bytes + bytes) as u64 },
                    ));
                    assert forall|k: int| 0 <= k < self@.len() implies self@[k] == spec_add(
                        t,
                        name@,
                        bytes as int,
                    )[k] by {
                        assert(self@[k] == entry_view(self.entries@[k]));
                        assert(t[k] == entry_view(old(self).entries@[k]));
                    }
                    assert(self@ =~= spec_add(t, name@, bytes as int));
                }
            },
            None => {
                proof {
                    assert forall|j: int| 0 <= j < self@.len() implies self@[j].0 != name@ by {
                        assert(self@[j] == entry_view(self.entries@[j]));
                    }
                    lemma_spec_add_not_found(self@, name@, bytes as int);
                }
                let entry = LangCount { name: name.clone(), bytes };
                self.entries.push(entry);
                proof {
                    let ghost t = old(self)@;
                    assert forall|k: int| 0 <= k < self@.len() implies self@[k] == t.push(
                        (name@, bytes as int),
                    )[k] by {
                        assert(self@[k] == entry_view(self.entries@[k]));
                        if k < t.len() {
                            assert(t[k] == entry_view(old(self).entries@[k]));
                        }
                    }
                    assert(self@ =~= spec_add(t, name@, bytes as int));
                }
            },
        }
    }

    /// Merges one repository's byte map into the totals, pair by pair, in the
    /// map's own order.
    pub fn merge_map(&mut self, m: &Vec<LangCount>)
        requires
            byte_sum(old(self)@) + byte_sum(map_view(*m)) <= u64::MAX,
        ensures
            final(self)@ == spec_merge(old(self)@, map_view(*m)),
    {
        proof {
            lemma_map_view_nonneg(*m);
        }
        let ghost t0 = self@;
        let ghost mv = map_view(*m);
        let mut i: usize = 0;
        while i < m.len()
            invariant
                0 <= i <= m@.len(),
                mv == map_view(*m),
                mv.len() == m@.len(),
                all_nonneg(mv),
                byte_sum(t0) + byte_sum(mv) <= u64::MAX,
                self@ == spec_merge(t0, mv.take(i as int)),
            decreases m@.len() - i,
        {
            proof {
                assert(mv[i as int] == entry_view(m@[i as int]));
                lemma_merge_byte_sum(t0, mv.take(i as int));
                lemma_byte_sum_take_succ(mv, i as int);
                lemma_byte_sum_take_le(mv, i as int + 1);
            }
            let e = &m[i];
            self.add_bytes(&e.name, e.bytes);
            i = i + 1;
            proof {
                assert(mv.take(i as int).drop_last() =~= mv.take(i as int - 1));
                assert(mv.take(i as int).last() == mv[i as int - 1]);
                assert(spec_merge(t0, mv.take(i as int)) == spec_add(
                    spec_merge(t0, mv.take(i as int).drop_last()),
                    mv.take(i as int).last().0,
                    mv.take(i as int).last().1,
                ));
            }
        }
        proof {
            assert(mv.take(m@.len() as int) =~= mv);
        }
    }
}

/// Folds a whole collection of byte maps into one totals map, in order. The
/// resulting name-to-bytes function is the same for every order of the
/// collection (see `lemma_aggregate_order_independent`).
pub fn aggregate(maps: &Vec<Vec<LangCount>>) -> (r: AggregateTotals)
    requires
        maps_byte_sum(maps_view(maps@)) <= u64::MAX,
    ensures
        r@ == spec_aggregate(maps_view(maps@)),
{
    proof {
        lemma_maps_view_nonneg(maps@);
    }
    let ghost msv = maps_view(maps@);
    let mut r = AggregateTotals::new();
    let mut i: usize = 0;
    while i < maps.len()
        invariant
            0 <= i <= maps@.len(),
            msv == maps_view(maps@),
            msv.len() == maps@.len(),
            all_maps_nonneg(msv),
            maps_byte_sum(msv) <= u64::MAX,
            r@ == spec_aggregate(msv.take(i as int)),
        decreases maps@.len() - i,
    {
        proof {
            assert(msv[i as int] == map_view(maps@[i as int]));
            lemma_aggregate_byte_sum(msv.take(i as int));
            lemma_maps_byte_sum_take_succ(msv, i as int);
            lemma_maps_byte_sum_take_le(msv, i as int + 1);
        }
        r.merge_map(&maps[i]);
        i = i + 1;
        proof {
            assert(msv.take(i as int).drop_last() =~= msv.take(i as int - 1));
            assert(msv.take(i as int).last() == msv[i as int - 1]);
            assert(spec_aggregate(msv.take(i as int)) == spec_merge(
                spec_aggregate(msv.take(i as int).drop_last()),
                msv.take(i as int).last(),
            ));
        }
    }
    proof {
        assert(msv.take(maps@.len() as int) =~= msv);
    }
    r
}

/// The grand total of an aggregate equals the sum over all merged maps.
pub proof fn lemma_aggregate_byte_sum(ms: Seq<Seq<(Seq<char>, int)>>)
    ensures
        byte_sum(spec_aggregate(ms)) == maps_byte_sum(ms),
    decreases ms.len(),
{
    if ms.len() == 0 {
        assert(byte_sum(Seq::<(Seq<char>, int)>::empty()) == 0);
        assert(maps_byte_sum(ms) == 0);
    } else {
        lemma_aggregate_byte_sum(ms.drop_last());
        lemma_merge_byte_sum(spec_aggregate(ms.drop_last()), ms.last());
        assert(ms.drop_last().push(ms.last()) =~= ms);
        lemma_maps_byte_sum_snoc(ms.drop_last(), ms.last());
    }
}

impl AggregateTotals {
    /// The total number of bytes across all languages.
    pub fn total_bytes(&self) -> (t: u64)
        requires
            byte_sum(self@) <= u64::MAX,
        ensures
            t as int == byte_sum(self@),
    {
        proof {
            lemma_map_view_nonneg(self.entries);
        }
        let mut sum: u64 = 0;
        let mut i: usize = 0;
        while i < self.entries.len()
            invariant
                0 <= i <= self.entries@.len(),
                self@.len() == self.entries@.len(),
                all_nonneg(self@),
                byte_sum(self@) <= u64::MAX,
                sum as int == byte_sum(self@.take(i as int)),
            decreases self.entries@.len() - i,
        {
            proof {
                assert(self@[i as int] == entry_view(self.entries@[i as int]));
                lemma_byte_sum_take_succ(self@, i as int);
                lemma_byte_sum_take_le(self@, i as int + 1);
                assert(all_nonneg(self@.take(i as int + 1)));
                lemma_byte_sum_nonneg(self@.take(i as int + 1));
            }
            sum = sum + self.entries[i].bytes;
            i = i + 1;
        }
        proof {
            assert(self@.take(self.entries@.len() as int) =~= self@);
        }
        sum
    }
}

/// The per-language byte sum over a whole collection of maps.
pub open spec fn maps_total_for(ms: Seq<Seq<(Seq<char>, int)>>, lang: Seq<char>) -> int
    decreases ms.len(),
{
    if ms.len() == 0 {
        0
    } else {
        total_for(ms[0], lang) + maps_total_for(ms.drop_first(), lang)
    }
}

pub proof fn lemma_maps_total_for_snoc(
    ms: Seq<Seq<(Seq<char>, int)>>,
    m: Seq<(Seq<char>, int)>,
    lang: Seq<char>,
)
    ensures
        maps_total_for(ms.push(m), lang) == maps_total_for(ms, lang) + total_for(m, lang),
    decreases ms.len(),
{
    if ms.len() == 0 {
        assert(ms.push(m)[0] == m);
        assert(ms.push(m).drop_first() =~= Seq::<Seq<(Seq<char>, int)>>::empty());
        assert(maps_total_for(ms.push(m), lang) == total_for(m, lang) + maps_total_for(
            ms.push(m).drop_first(),
            lang,
        ));
        assert(maps_total_for(Seq::<Seq<(Seq<char>, int)>>::empty(), lang) == 0);
    } else {
        assert(ms.push(m)[0] == ms[0]);
        assert(ms.push(m).drop_first() =~= ms.drop_first().push(m));
        lemma_maps_total_for_snoc(ms.drop_first(), m, lang);
        assert(maps_total_for(ms.push(m), lang) == total_for(ms[0], lang) + maps_total_for(
            ms.drop_first().push(m),
            lang,
        ));
        assert(maps_total_for(ms, lang) == total_for(ms[0], lang) + maps_total_for(
            ms.drop_first(),
            lang,
        ));
    }
}

/// An aggregate attributes to each language exactly the sum of what the
/// merged maps attribute to it.
pub proof fn lemma_aggregate_total_for(ms: Seq<Seq<(Seq<char>, int)>>, lang: Seq<char>)
    ensures
        total_for(spec_aggregate(ms), lang) == maps_total_for(ms, lang),
    decreases ms.len(),
{
    if ms.len() == 0 {
        assert(total_for(Seq::<(Seq<char>, int)>::empty(), lang) == 0);
        assert(maps_total_for(ms, lang) == 0);
    } else {
        lemma_aggregate_total_for(ms.drop_last(), lang);
        lemma_merge_total_for(spec_aggregate(ms.drop_last()), ms.last(), lang);
        assert(ms.drop_last().push(ms.last()) =~= ms);
        lemma_maps_total_for_snoc(ms.drop_last(), ms.last(), lang);
    }
}

/// Splitting one map out of the collection splits its contribution out of the
/// per-language sum.
pub proof fn lemma_maps_total_for_remove(ms: Seq<Seq<(Seq<char>, int)>>, i: int, lang: Seq<char>)
    requires
        0 <= i < ms.len(),
    ensures
        maps_total_for(ms, lang) == total_for(ms[i], lang) + maps_total_for(ms.remove(i), lang),
    decreases i,
{
    if i == 0 {
        assert(ms.remove(0) =~= ms.drop_first());
        assert(maps_total_for(ms, lang) == total_for(ms[0], lang) + maps_total_for(
            ms.drop_first(),
            lang,
        ));
    } else {
        assert(ms.remove(i)[0] == ms[0]);
        assert(ms.remove(i).drop_first() =~= ms.drop_first().remove(i - 1));
        assert(ms.drop_first()[i - 1] == ms[i]);
        lemma_maps_total_for_remove(ms.drop_first(), i - 1, lang);
        assert(maps_total_for(ms.remove(i), lang) == total_for(ms[0], lang) + maps_total_for(
            ms.remove(i).drop_first(),
            lang,
        ));
        assert(maps_total_for(ms, lang) == total_for(ms[0], lang) + maps_total_for(
            ms.drop_first(),
            lang,
        ));
    }
}

/// Any two orders of the same maps give each language the same byte sum.
pub proof fn lemma_maps_total_for_permutation(
    ms1: Seq<Seq<(Seq<char>, int)>>,
    ms2: Seq<Seq<(Seq<char>, int)>>,
    lang: Seq<char>,
)
    requires
        ms1.to_multiset() == ms2.to_multiset(),
    ensures
        maps_total_for(ms1, lang) == maps_total_for(ms2, lang),
    decreases ms1.len(),
{
    broadcast use vstd::seq_lib::group_to_multiset_ensures;

    if ms1.len() == 0 {
        assert(ms1.to_multiset().len() == ms1.len());
        assert(ms2.to_multiset().len() == ms2.len());
        assert(ms2.len() == 0);
    } else {
        let x = ms1[0];
        assert(ms1.contains(x));
        assert(ms1.to_multiset().count(x) > 0);
        assert(ms2.to_multiset().count(x) > 0);
        assert(ms2.contains(x));
        let j = choose|j: int| 0 <= j < ms2.len() && ms2[j] == x;
        assert(ms1.remove(0).to_multiset() == ms1.to_multiset().remove(x));
        assert(ms2.remove(j).to_multiset() == ms2.to_multiset().remove(x));
        assert(ms1.remove(0) =~= ms1.drop_first());
        lemma_maps_total_for_permutation(ms1.drop_first(), ms2.remove(j), lang);
        lemma_maps_total_for_remove(ms2, j, lang);
        assert(maps_total_for(ms1, lang) == total_for(x, lang) + maps_total_for(
            ms1.drop_first(),
            lang,
        ));
    }
}

/// Merging the same per-repository byte maps in any order yields identical
/// totals: for every language, both aggregates carry the same byte sum, and
/// both mention the same languages.
pub proof fn lemma_aggregate_order_independent(
    ms1: Seq<Seq<(Seq<char>, int)>>,
    ms2: Seq<Seq<(Seq<char>, int)>>,
    lang: Seq<char>,
)
    requires
        ms1.to_multiset() == ms2.to_multiset(),
    ensures
        total_for(spec_aggregate(ms1), lang) == total_for(spec_aggregate(ms2), lang),
        has_lang(spec_aggregate(ms1), lang) == has_lang(spec_aggregate(ms2), lang),
    decreases ms1.len(),
{
    lemma_aggregate_total_for(ms1, lang);
    lemma_aggregate_total_for(ms2, lang);
    lemma_maps_total_for_permutation(ms1, ms2, lang);
    lemma_aggregate_has_lang(ms1, lang);
    lemma_aggregate_has_lang(ms2, lang);
    lemma_maps_has_lang_permutation(ms1, ms2, lang);
}

/// Adding bytes never duplicates a language.
pub proof fn lemma_spec_add_distinct(t: Seq<(Seq<char>, int)>, lang: Seq<char>, bytes: int)
    requires
        distinct_langs(t),
    ensures
        distinct_langs(spec_add(t, lang, bytes)),
{
    let r = spec_add(t, lang, bytes);
    if has_lang(t, lang) {
        let i = choose|i: int| 0 <= i < t.len() && t[i].0 == lang;
        assert forall|j: int| 0 <= j < i implies t[j].0 != lang by {
            assert(t[j].0 != t[i].0);
        }
        lemma_spec_add_found(t, lang, bytes, i);
        assert forall|a: int, b: int| 0 <= a < b < r.len() implies r[a].0 != r[b].0 by {
            assert(r[a].0 == t[a].0 && r[b].0 == t[b].0);
        }
    } else {
        lemma_spec_add_not_found(t, lang, bytes);
        assert forall|a: int, b: int| 0 <= a < b < r.len() implies r[a].0 != r[b].0 by {
            if b == t.len() {
                assert(r[a].0 == t[a].0);
                assert(r[b].0 == lang);
                assert(!(t[a].0 == lang));
            } else {
                assert(r[a].0 == t[a].0 && r[b].0 == t[b].0);
            }
        }
    }
}

/// Merging never duplicates a language.
pub proof fn lemma_merge_distinct(t: Seq<(Seq<char>, int)>, m: Seq<(Seq<char>, int)>)
    requires
        distinct_langs(t),
    ensures
        distinct_langs(spec_merge(t, m)),
    decreases m.len(),
{
    if m.len() > 0 {
        lemma_merge_distinct(t, m.drop_last());
        lemma_spec_add_distinct(spec_merge(t, m.drop_last()), m.last().0, m.last().1);
    }
}

/// An aggregate mentions each language exactly once: its length is the number
/// of distinct languages found across the merged maps.
pub proof fn lemma_aggregate_distinct(ms: Seq<Seq<(Seq<char>, int)>>)
    ensures
        distinct_langs(spec_aggregate(ms)),
    decreases ms.len(),
{
    if ms.len() == 0 {
        assert(distinct_langs(Seq::<(Seq<char>, int)>::empty()));
    } else {
        lemma_aggregate_distinct(ms.drop_last());
        lemma_merge_distinct(spec_aggregate(ms.drop_last()), ms.last());
    }
}

/// A collection mentions a language when one of its maps does.
pub open spec fn maps_have_lang(ms: Seq<Seq<(Seq<char>, int)>>, lang: Seq<char>) -> bool {
    exists|i: int| 0 <= i < ms.len() && has_lang(ms[i], lang)
}

pub proof fn lemma_merge_has_lang(
    t: Seq<(Seq<char>, int)>,
    m: Seq<(Seq<char>, int)>,
    lang: Seq<char>,
)
    ensures
        has_lang(spec_merge(t, m), lang) == (has_lang(t, lang) || has_lang(m, lang)),
    decreases m.len(),
{
    if m.len() == 0 {
        assert(!has_lang(m, lang));
    } else {
        lemma_merge_has_lang(t, m.drop_last(), lang);
        lemma_has_lang_spec_add(spec_merge(t, m.drop_last()), m.last().0, m.last().1, lang);
        if has_lang(m.drop_last(), lang) {
            let i = choose|i: int| 0 <= i < m.drop_last().len() && m.drop_last()[i].0 == lang;
            assert(m[i].0 == lang);
        }
        if m.last().0 == lang {
            assert(m[m.len() - 1].0 == lang);
        }
        if has_lang(m, lang) {
            let i = choose|i: int| 0 <= i < m.len() && m[i].0 == lang;
            if i < m.len() - 1 {
                assert(m.drop_last()[i].0 == lang);
            }
        }
    }
}

pub proof fn lemma_aggregate_has_lang(ms: Seq<Seq<(Seq<char>, int)>>, lang: Seq<char>)
    ensures
        has_lang(spec_aggregate(ms), lang) == maps_have_lang(ms, lang),
    decreases ms.len(),
{
    if ms.len() == 0 {
        assert(!has_lang(Seq::<(Seq<char>, int)>::empty(), lang));
    } else {
        lemma_aggregate_has_lang(ms.drop_last(), lang);
        lemma_merge_has_lang(spec_aggregate(ms.drop_last()), ms.last(), lang);
        if maps_have_lang(ms.drop_last(), lang) {
            let i = choose|i: int| 0 <= i < ms.drop_last().len() && has_lang(ms.drop_last()[i], lang);
            assert(has_lang(ms[i], lang));
        }
        if has_lang(ms.last(), lang) {
            assert(has_lang(ms[ms.len() - 1], lang));
        }
        if maps_have_lang(ms, lang) {
            let i = choose|i: int| 0 <= i < ms.len() && has_lang(ms[i], lang);
            if i < ms.len() - 1 {
                assert(has_lang(ms.drop_last()[i], lang));
            }
        }
    }
}

pub proof fn lemma_maps_has_lang_permutation(
    ms1: Seq<Seq<(Seq<char>, int)>>,
    ms2: Seq<Seq<(Seq<char>, int)>>,
    lang: Seq<char>,
)
    requires
        ms1.to_multiset() == ms2.to_multiset(),
    ensures
        maps_have_lang(ms1, lang) == maps_have_lang(ms2, lang),
{
    broadcast use vstd::seq_lib::group_to_multiset_ensures;

    if maps_have_lang(ms1, lang) {
        let i = choose|i: int| 0 <= i < ms1.len() && has_lang(ms1[i], lang);
        assert(ms1.contains(ms1[i]));
        assert(ms2.to_multiset().count(ms1[i]) > 0);
        assert(ms2.contains(ms1[i]));
        let j = choose|j: int| 0 <= j < ms2.len() && ms2[j] == ms1[i];
        assert(has_lang(ms2[j], lang));
    }
    if maps_have_lang(ms2, lang) {
        let i = choose|i: int| 0 <= i < ms2.len() && has_lang(ms2[i], lang);
        assert(ms2.contains(ms2[i]));
        assert(ms1.to_multiset().count(ms2[i]) > 0);
        assert(ms1.contains(ms2[i]));
        let j = choose|j: int| 0 <= j < ms1.len() && ms1[j] == ms2[i];
        assert(has_lang(ms1[j], lang));
    }
}

} // verus!
