//! The match engine: which records a query selects, and in what order.
use vstd::prelude::*;

use crate::index::{lemma_filter_take_step, ApplicationRecord, EntryIndex};
use crate::text::{alnum_of, fold_case, is_word_char, lower_of};

verus! {

/// `q` occurs in `k` starting at position `i`.
pub open spec fn occurs_at(k: Seq<char>, q: Seq<char>, i: int) -> bool {
    &&& 0 <= i
    &&& i + q.len() <= k.len()
    &&& k.subrange(i, i + q.len()) == q
}

/// `q` is a substring of `k`.
pub open spec fn contains(k: Seq<char>, q: Seq<char>) -> bool {
    exists|i: int| occurs_at(k, q, i)
}

/// Position `i` of `k` starts a word: a maximal run of letters and digits.
pub open spec fn word_start(k: Seq<char>, i: int) -> bool {
    &&& 0 <= i < k.len()
    &&& alnum_of(k[i])
    &&& (i == 0 || !alnum_of(k[i - 1]))
}

/// `q` occurs in `k` at the start of a word.
pub open spec fn at_word_start(k: Seq<char>, q: Seq<char>) -> bool {
    exists|i: int| word_start(k, i) && occurs_at(k, q, i)
}

/// How well search key `k` matches folded query `q`: 3 when equal, 2 when `q`
/// is a prefix, 1 when `q` starts at a word, 0 when it occurs elsewhere, and
/// -1 when it does not occur.
pub open spec fn tier(k: Seq<char>, q: Seq<char>) -> int {
    if k == q {
        3
    } else if occurs_at(k, q, 0) {
        2
    } else if at_word_start(k, q) {
        1
    } else if contains(k, q) {
        0
    } else {
        -1
    }
}

/// The tier of the record with identifier `id`.
pub open spec fn tier_of(recs: Seq<ApplicationRecord>, q: Seq<char>, id: usize) -> int {
    tier(recs[id as int].search_key@, q)
}

/// The identifiers of `o` whose records fall in tier `t`, in the order of `o`.
pub open spec fn of_tier(recs: Seq<ApplicationRecord>, q: Seq<char>, o: Seq<usize>, t: int) -> Seq<usize> {
    o.filter(|id: usize| tier_of(recs, q, id) == t)
}

/// The ranking for folded query `q`: for the empty query the collated order;
/// else the matching records, higher tiers first, each tier in collated order.
pub open spec fn ranking(idx: EntryIndex, q: Seq<char>) -> Seq<usize> {
    let (recs, o) = (idx.records(), idx.order());
    if q.len() == 0 {
        o
    } else {
        of_tier(recs, q, o, 3) + of_tier(recs, q, o, 2) + of_tier(recs, q, o, 1) + of_tier(
            recs,
            q,
            o,
            0,
        )
    }
}

/// The ranking for the query as typed: the empty query keeps the collated
/// order; any other is case-folded first.
pub open spec fn rank_result(idx: EntryIndex, query: Seq<char>) -> Seq<usize> {
    if query.len() == 0 {
        idx.order()
    } else {
        ranking(idx, lower_of(query))
    }
}

/// Whether `q` occurs in `k` at position `i`.
fn matches_at(k: &Vec<char>, q: &Vec<char>, i: usize) -> (r: bool)
    ensures
        r == occurs_at(k@, q@, i as int),
{
    if i > k.len() || q.len() > k.len() - i {
        return false;
    }
    let mut j: usize = 0;
    while j < q.len()
        invariant
            i + q@.len() <= k@.len() <= usize::MAX,
            j <= q@.len(),
            k@.subrange(i as int, i + j) == q@.take(j as int),
        decreases q@.len() - j,
    {
        if k[i + j] != q[j] {
            assert(k@.subrange(i as int, i + q@.len())[j as int] != q@[j as int]);
            return false;
        }
        assert(k@.subrange(i as int, i + j + 1) =~= k@.subrange(i as int, i + j).push(k@[i + j]));
        assert(q@.take(j + 1) =~= q@.take(j as int).push(q@[j as int]));
        j = j + 1;
    }
    assert(q@.take(q@.len() as int) =~= q@);
    true
}

/// Whether position `i` of `k` starts a word.
fn starts_word(k: &Vec<char>, i: usize) -> (r: bool)
    requires
        i < k@.len(),
    ensures
        r == word_start(k@, i as int),
{
    is_word_char(k[i]) && (i == 0 || !is_word_char(k[i - 1]))
}

/// The tier in which search key `k` falls for folded query `q`.
pub fn match_tier(k: &Vec<char>, q: &Vec<char>) -> (r: i8)
    ensures
        r as int == tier(k@, q@),
{
    if matches_at(k, q, 0) {
        if k.len() == q.len() {
            assert(k@ =~= k@.subrange(0, q@.len() as int));
            return 3;
        } else {
            return 2;
        }
    }
    proof {
        if q@.len() == 0 {
            assert(k@.subrange(0, 0) =~= q@);
        }
    }
    if q.len() > k.len() {
        return -1;
    }
    let last = k.len() - q.len();
    let mut found_any = false;
    let mut found_word = false;
    let mut i: usize = 0;
    while i <= last
        invariant
            last == k@.len() - q@.len(),
            1 <= q@.len() <= k@.len() <= usize::MAX,
            i <= last + 1,
            found_any <==> exists|j: int| 0 <= j < i && occurs_at(k@, q@, j),
            found_word <==> exists|j: int| 0 <= j < i && word_start(k@, j) && occurs_at(k@, q@, j),
        decreases last + 1 - i,
    {
        if matches_at(k, q, i) {
            found_any = true;
            if i < k.len() && starts_word(k, i) {
                found_word = true;
            }
        }
        i = i + 1;
    }
    proof {
        if k@ == q@ {
            assert(k@.subrange(0, q@.len() as int) =~= k@);
        }
        if found_any {
            let j = choose|j: int| 0 <= j < i && occurs_at(k@, q@, j);
            assert(occurs_at(k@, q@, j));
        }
        if found_word {
            let j = choose|j: int| 0 <= j < i && word_start(k@, j) && occurs_at(k@, q@, j);
            assert(word_start(k@, j) && occurs_at(k@, q@, j));
        }
        if contains(k@, q@) {
            let j = choose|j: int| occurs_at(k@, q@, j);
            assert(0 <= j < i && occurs_at(k@, q@, j));
        }
        if at_word_start(k@, q@) {
            let j = choose|j: int| word_start(k@, j) && occurs_at(k@, q@, j);
            assert(0 <= j < i && word_start(k@, j) && occurs_at(k@, q@, j));
        }
    }
    if found_word {
        1
    } else if found_any {
        0
    } else {
        -1
    }
}

proof fn lemma_ranking_step(recs: Seq<ApplicationRecord>, q: Seq<char>, o: Seq<usize>, p: int, t: int)
    requires
        0 <= p < o.len(),
    ensures
        of_tier(recs, q, o.take(p + 1), t) == (if tier_of(recs, q, o[p]) == t {
            of_tier(recs, q, o.take(p), t).push(o[p])
        } else {
            of_tier(recs, q, o.take(p), t)
        }),
{
    lemma_filter_take_step(o, |id: usize| tier_of(recs, q, id) == t, p);
}

impl EntryIndex {
    /// Ranks the records against folded query `q`.
    pub fn rank_folded(&self, q: &Vec<char>) -> (r: Vec<usize>)
        requires
            self.wf(),
        ensures
            r@ == ranking(*self, q@),
    {
        let order = self.all_ids();
        if q.len() == 0 {
            return order;
        }
        let ghost recs = self.records();
        let mut exact: Vec<usize> = Vec::new();
        let mut prefix: Vec<usize> = Vec::new();
        let mut word: Vec<usize> = Vec::new();
        let mut inner: Vec<usize> = Vec::new();
        let mut p: usize = 0;
        while p < order.len()
            invariant
                self.wf(),
                order@ == self.order(),
                recs == self.records(),
                p <= order@.len(),
                exact@ == of_tier(recs, q@, order@.take(p as int), 3),
                prefix@ == of_tier(recs, q@, order@.take(p as int), 2),
                word@ == of_tier(recs, q@, order@.take(p as int), 1),
                inner@ == of_tier(recs, q@, order@.take(p as int), 0),
            decreases order@.len() - p,
        {
            proof {
                lemma_ranking_step(recs, q@, order@, p as int, 3);
                lemma_ranking_step(recs, q@, order@, p as int, 2);
                lemma_ranking_step(recs, q@, order@, p as int, 1);
                lemma_ranking_step(recs, q@, order@, p as int, 0);
            }
            let id = order[p];
            let t = match_tier(self.search_key(id), q);
            if t == 3 {
                exact.push(id);
            } else if t == 2 {
                prefix.push(id);
            } else if t == 1 {
                word.push(id);
            } else if t == 0 {
                inner.push(id);
            }
            p = p + 1;
        }
        assert(order@.take(order@.len() as int) =~= order@);
        exact.append(&mut prefix);
        exact.append(&mut word);
        exact.append(&mut inner);
        exact
    }

    /// Ranks the records against `query` as typed: the empty query lists every
    /// record in collated order; any other selects the records whose search
    /// key contains the case-folded query, exact matches first, then prefix
    /// matches, then matches at a word start, then the rest, each group in
    /// collated order.
    pub fn rank(&self, query: &str) -> (r: Vec<usize>)
        requires
            self.wf(),
        ensures
            r@ == rank_result(*self, query@),
    {
        if query.is_empty() {
            return self.all_ids();
        }
        let folded = fold_case(query);
        let q = crate::text::chars_of(folded.as_str());
        self.rank_folded(&q)
    }
}

/// A record falls in some tier exactly when its search key contains the query.
pub proof fn lemma_tier_iff_contains(k: Seq<char>, q: Seq<char>)
    ensures
        tier(k, q) >= 0 <==> contains(k, q),
{
    if k == q {
        assert(k.subrange(0, q.len() as int) =~= k);
        assert(occurs_at(k, q, 0));
    } else if occurs_at(k, q, 0) {
    } else if at_word_start(k, q) {
        let i = choose|i: int| word_start(k, i) && occurs_at(k, q, i);
        assert(occurs_at(k, q, i));
    }
}

/// The tier of the record at position `p` of the ranking: each group of the
/// ranking holds the records of one tier, highest first.
proof fn lemma_ranking_position(idx: EntryIndex, q: Seq<char>, p: int)
    requires
        q.len() > 0,
        0 <= p < ranking(idx, q).len(),
    ensures
        ({
            let (recs, o) = (idx.records(), idx.order());
            let (a, b, c) = (
                of_tier(recs, q, o, 3).len(),
                of_tier(recs, q, o, 2).len(),
                of_tier(recs, q, o, 1).len(),
            );
            tier_of(recs, q, ranking(idx, q)[p]) == (if p < a {
                3int
            } else if p < a + b {
                2
            } else if p < a + b + c {
                1
            } else {
                0
            })
        }),
{
    let (recs, o) = (idx.records(), idx.order());
    let r = ranking(idx, q);
    let parts = seq![
        of_tier(recs, q, o, 3),
        of_tier(recs, q, o, 2),
        of_tier(recs, q, o, 1),
        of_tier(recs, q, o, 0),
    ];
    let (a, b, c) = (parts[0].len(), parts[1].len(), parts[2].len());
    if p < a {
        assert(r[p] == parts[0][p]);
        o.lemma_filter_pred(|id: usize| tier_of(recs, q, id) == 3, p);
    } else if p < a + b {
        assert(r[p] == parts[1][p - a]);
        o.lemma_filter_pred(|id: usize| tier_of(recs, q, id) == 2, p - a);
    } else if p < a + b + c {
        assert(r[p] == parts[2][p - a - b]);
        o.lemma_filter_pred(|id: usize| tier_of(recs, q, id) == 1, p - a - b);
    } else {
        assert(r[p] == parts[3][p - a - b - c]);
        o.lemma_filter_pred(|id: usize| tier_of(recs, q, id) == 0, p - a - b - c);
    }
}

/// The empty query lists every record, in the index's collated order.
pub proof fn law_empty_query_is_identity(idx: EntryIndex)
    ensures
        rank_result(idx, Seq::empty()) == idx.order(),
{
}

/// Every record that a non-empty query selects has a search key that
/// contains the case-folded query.
pub proof fn law_selected_records_contain_query(idx: EntryIndex, query: Seq<char>, p: int)
    requires
        idx.wf(),
        query.len() > 0,
        0 <= p < rank_result(idx, query).len(),
    ensures
        contains(
            idx.records()[rank_result(idx, query)[p] as int].search_key@,
            lower_of(query),
        ),
{
    let q = lower_of(query);
    if q.len() == 0 {
        let id = idx.order()[p];
        assert(idx.records()[id as int].search_key@.subrange(0, 0) =~= q);
        assert(occurs_at(idx.records()[id as int].search_key@, q, 0));
    } else {
        lemma_ranking_position(idx, q, p);
        lemma_tier_iff_contains(idx.records()[rank_result(idx, query)[p] as int].search_key@, q);
    }
}

/// For a non-empty query, a record is selected exactly when its search key
/// contains the case-folded query; so a record whose key does not contain it
/// is absent from the result.
pub proof fn law_selected_iff_contains(idx: EntryIndex, query: Seq<char>, id: usize)
    requires
        idx.wf(),
        query.len() > 0,
        id < idx.records().len(),
    ensures
        rank_result(idx, query).contains(id) <==> contains(
            idx.records()[id as int].search_key@,
            lower_of(query),
        ),
{
    let (recs, o) = (idx.records(), idx.order());
    let q = lower_of(query);
    let r = rank_result(idx, query);
    let k = recs[id as int].search_key@;
    lemma_tier_iff_contains(k, q);
    if r.contains(id) {
        let p = choose|p: int| 0 <= p < r.len() && r[p] == id;
        law_selected_records_contain_query(idx, query, p);
    }
    assert(o.contains((id as int) as usize));
    if q.len() == 0 {
        assert(k.subrange(0, 0) =~= q);
        assert(occurs_at(k, q, 0));
    } else if contains(k, q) {
        let i = choose|i: int| 0 <= i < o.len() && o[i] == id;
        let t = tier(k, q);
        o.lemma_filter_contains(|x: usize| tier_of(recs, q, x) == t, i);
        assert(of_tier(recs, q, o, t).contains(id));
        let j = choose|j: int| 0 <= j < of_tier(recs, q, o, t).len() && of_tier(recs, q, o, t)[j] == id;
        let (a, b, c) = (
            of_tier(recs, q, o, 3).len(),
            of_tier(recs, q, o, 2).len(),
            of_tier(recs, q, o, 1).len(),
        );
        let p = if t == 3 {
            j
        } else if t == 2 {
            a + j
        } else if t == 1 {
            a + b + j
        } else {
            a + b + c + j
        };
        assert(r[p] == id);
    }
}

/// A record of a higher tier ranks strictly before one of a lower tier:
/// exact matches before prefix matches, before matches at a word start,
/// before other matches.
pub proof fn law_higher_tier_ranks_first(idx: EntryIndex, query: Seq<char>, a: int, b: int)
    requires
        query.len() > 0,
        lower_of(query).len() > 0,
        0 <= a < rank_result(idx, query).len(),
        0 <= b < rank_result(idx, query).len(),
        tier_of(idx.records(), lower_of(query), rank_result(idx, query)[a]) > tier_of(
            idx.records(),
            lower_of(query),
            rank_result(idx, query)[b],
        ),
    ensures
        a < b,
{
    lemma_ranking_position(idx, lower_of(query), a);
    lemma_ranking_position(idx, lower_of(query), b);
}

/// The ranking depends on the index and on the case-folded query alone, so
/// ranking the same query against the same index again gives the same result.
pub proof fn law_rank_depends_on_folded_query(idx: EntryIndex, q1: Seq<char>, q2: Seq<char>)
    requires
        q1.len() > 0,
        q2.len() > 0,
        lower_of(q1) == lower_of(q2),
    ensures
        rank_result(idx, q1) == rank_result(idx, q2),
{
}

} // verus!
