//! The entry index: launchable applications, kept in collated order.
use std::cmp::Ordering;
use vstd::prelude::*;

use crate::collator::{
    compare_keys, key_less, lemma_key_less_irreflexive, lemma_key_less_total,
    lemma_key_less_transitive, sort_key_of, Collator,
};
use crate::text::{chars_of, fold_case, lower_of};

verus! {

/// One application as the platform's enumeration hands it over.
pub struct RawDescriptor {
    /// The platform's own verdict on whether the application is shown.
    pub should_show: bool,
    /// The name to show, if the application declares one.
    pub display_name: Option<String>,
    /// The locale's sort key for the display name (empty when there is none).
    pub locale_key: Vec<u8>,
    /// A token for the application's icon, if it declares one.
    pub icon_ref: Option<u64>,
    /// A token for what launches the application; never inspected here.
    pub launch_handle: u64,
}

/// One indexed application.
pub struct ApplicationRecord {
    /// Position of the application among those kept, in discovery order.
    pub id: usize,
    pub display_name: String,
    /// The case-folded display name, against which queries are matched.
    pub search_key: Vec<char>,
    /// The key by which the display name sorts under the index's collator.
    pub sort_key: Vec<u8>,
    pub launch_handle: u64,
    pub icon_ref: Option<u64>,
}

/// What a lookup by identifier can fail with.
#[derive(Clone, Copy, Debug, PartialEq, Eq, Structural)]
pub enum LookupError {
    /// No record of this index has the identifier.
    NotFound { id: usize },
}

/// Whether a descriptor becomes a record: it is to be shown and has a
/// non-empty display name.
pub open spec fn shown(d: RawDescriptor) -> bool {
    &&& d.should_show
    &&& d.display_name is Some
    &&& d.display_name->0@.len() > 0
}

/// The descriptors that become records, in discovery order.
pub open spec fn kept(ds: Seq<RawDescriptor>) -> Seq<RawDescriptor> {
    ds.filter(|d: RawDescriptor| shown(d))
}

/// Record `r` is what descriptor `d`, found at position `id` among those
/// kept, becomes under collator `c`.
pub open spec fn built_from(r: ApplicationRecord, d: RawDescriptor, id: int, c: Collator) -> bool {
    &&& r.id == id
    &&& r.display_name@ == d.display_name->0@
    &&& r.search_key@ == lower_of(r.display_name@)
    &&& r.sort_key@ == sort_key_of(c, r.display_name@, d.locale_key@)
    &&& r.launch_handle == d.launch_handle
    &&& r.icon_ref == d.icon_ref
}

/// Whether record `a` comes before record `b` in collated order: by sort key,
/// and by discovery order between equal keys.
pub open spec fn entry_less(recs: Seq<ApplicationRecord>, a: int, b: int) -> bool {
    key_less(recs[a].sort_key@, recs[b].sort_key@) || (recs[a].sort_key@ == recs[b].sort_key@
        && a < b)
}

/// `order` lists each identifier of `recs` once, in collated order.
pub open spec fn collated(recs: Seq<ApplicationRecord>, order: Seq<usize>) -> bool {
    &&& order.len() == recs.len()
    &&& forall|p: int| 0 <= p < order.len() ==> #[trigger] order[p] < recs.len()
    &&& forall|id: int| 0 <= id < recs.len() ==> #[trigger] order.contains(id as usize)
    &&& forall|p: int, q: int|
        0 <= p < q < order.len() ==> entry_less(recs, #[trigger] order[p] as int, #[trigger] order[q] as int)
}

pub proof fn lemma_entry_less_transitive(recs: Seq<ApplicationRecord>, a: int, b: int, c: int)
    requires
        entry_less(recs, a, b),
        entry_less(recs, b, c),
    ensures
        entry_less(recs, a, c),
{
    let (ka, kb, kc) = (recs[a].sort_key@, recs[b].sort_key@, recs[c].sort_key@);
    if key_less(ka, kb) && key_less(kb, kc) {
        lemma_key_less_transitive(ka, kb, kc);
    }
}

pub proof fn lemma_entry_less_total(recs: Seq<ApplicationRecord>, a: int, b: int)
    requires
        a != b,
        !entry_less(recs, a, b),
    ensures
        entry_less(recs, b, a),
{
    let (ka, kb) = (recs[a].sort_key@, recs[b].sort_key@);
    if !key_less(kb, ka) {
        lemma_key_less_total(ka, kb);
    }
}

/// Taking one more element of `s` extends its filtered form by that
/// element exactly when it passes the filter.
pub proof fn lemma_filter_take_step<A>(s: Seq<A>, f: spec_fn(A) -> bool, k: int)
    requires
        0 <= k < s.len(),
    ensures
        s.take(k + 1).filter(f) == (if f(s[k]) {
            s.take(k).filter(f).push(s[k])
        } else {
            s.take(k).filter(f)
        }),
{
    reveal(Seq::filter);
    assert(s.take(k + 1).drop_last() =~= s.take(k));
}

/// Whether the record at `a` comes before the one at `b` in collated order.
fn precedes(recs: &Vec<ApplicationRecord>, a: usize, b: usize) -> (r: bool)
    requires
        a < recs@.len(),
        b < recs@.len(),
    ensures
        r == entry_less(recs@, a as int, b as int),
{
    match compare_keys(&recs[a].sort_key, &recs[b].sort_key) {
        Ordering::Less => true,
        Ordering::Equal => a < b,
        Ordering::Greater => {
            proof {
                lemma_key_less_irreflexive(recs@[a as int].sort_key@);
                if key_less(recs@[a as int].sort_key@, recs@[b as int].sort_key@) {
                    lemma_key_less_transitive(
                        recs@[a as int].sort_key@,
                        recs@[b as int].sort_key@,
                        recs@[a as int].sort_key@,
                    );
                }
            }
            false
        },
    }
}

/// Inserts each identifier into its place among those before it, so that the
/// result lists all records in collated order.
fn collate(recs: &Vec<ApplicationRecord>) -> (order: Vec<usize>)
    ensures
        collated(recs@, order@),
{
    let n = recs.len();
    let mut order: Vec<usize> = Vec::new();
    let mut i: usize = 0;
    while i < n
        invariant
            n == recs@.len(),
            i <= n,
            order@.len() == i,
            forall|p: int| 0 <= p < order@.len() ==> #[trigger] order@[p] < i,
            forall|id: int| 0 <= id < i ==> #[trigger] order@.contains(id as usize),
            forall|p: int, q: int|
                0 <= p < q < order@.len() ==> entry_less(
                    recs@,
                    #[trigger] order@[p] as int,
                    #[trigger] order@[q] as int,
                ),
        decreases n - i,
    {
        let mut j: usize = order.len();
        while j > 0 && precedes(recs, i, order[j - 1])
            invariant
                n == recs@.len(),
                i < n,
                j <= order@.len(),
                forall|p: int| 0 <= p < order@.len() ==> #[trigger] order@[p] < i,
                forall|m: int| j <= m < order@.len() ==> entry_less(recs@, i as int, #[trigger] order@[m] as int),
            decreases j,
        {
            j = j - 1;
        }
        let ghost old_order = order@;
        proof {
            if j > 0 {
                lemma_entry_less_total(recs@, i as int, old_order[j - 1] as int);
            }
        }
        order.insert(j, i);
        proof {
            old_order.insert_ensures(j as int, i);
            assert forall|p: int| 0 <= p < order@.len() implies #[trigger] order@[p] < i + 1 by {
                if p > j {
                    assert(order@[p] == old_order[p - 1]);
                }
            }
            assert forall|id: int| 0 <= id < i + 1 implies #[trigger] order@.contains(id as usize) by {
                if id < i {
                    assert(old_order.contains(id as usize));
                    let p = choose|p: int| 0 <= p < old_order.len() && old_order[p] == id as usize;
                    if p < j {
                        assert(order@[p] == id as usize);
                    } else {
                        assert(order@[p + 1] == id as usize);
                    }
                } else {
                    assert(order@[j as int] == i);
                }
            }
            assert forall|p: int, q: int| 0 <= p < q < order@.len() implies entry_less(
                recs@,
                #[trigger] order@[p] as int,
                #[trigger] order@[q] as int,
            ) by {
                let op = if p < j { p } else { p - 1 };
                let oq = if q <= j { q } else { q - 1 };
                if q == j {
                    if op < j - 1 {
                        lemma_entry_less_transitive(
                            recs@,
                            old_order[op] as int,
                            old_order[j - 1] as int,
                            i as int,
                        );
                    }
                } else if p == j {
                    assert(order@[q] == old_order[oq]);
                } else {
                    assert(order@[p] == old_order[op]);
                    assert(order@[q] == old_order[oq]);
                }
            }
        }
        i = i + 1;
    }
    order
}

/// The icon requests for the identifiers of `o`, in that order: one pair of
/// identifier and icon token for each record that declares an icon.
pub open spec fn icon_requests_of(recs: Seq<ApplicationRecord>, o: Seq<usize>) -> Seq<(usize, u64)> {
    o.filter(|id: usize| recs[id as int].icon_ref is Some).map_values(
        |id: usize| (id, recs[id as int].icon_ref->0),
    )
}

/// The indexed applications: the records in discovery order, and the order
/// in which they are listed.
pub struct EntryIndex {
    records: Vec<ApplicationRecord>,
    order: Vec<usize>,
}

impl EntryIndex {
    /// The records, by identifier.
    pub closed spec fn records(&self) -> Seq<ApplicationRecord> {
        self.records@
    }

    /// The identifiers in collated order.
    pub closed spec fn order(&self) -> Seq<usize> {
        self.order@
    }

    /// Identifiers are positions, search keys are the folded names, and the
    /// order is collated.
    pub open spec fn wf(&self) -> bool {
        &&& forall|i: int| 0 <= i < self.records().len() ==> #[trigger] self.records()[i].id == i
        &&& forall|i: int|
            0 <= i < self.records().len() ==> #[trigger] self.records()[i].search_key@ == lower_of(
                self.records()[i].display_name@,
            )
        &&& collated(self.records(), self.order())
    }

    /// Builds the index of the descriptors that are to be shown and have a
    /// non-empty display name: identifiers in discovery order, search keys
    /// case-folded, listed in `collator`'s order. An index of no records is
    /// a valid outcome.
    pub fn build(records_in: &Vec<RawDescriptor>, collator: Collator) -> (r: EntryIndex)
        ensures
            r.wf(),
            r.records().len() == kept(records_in@).len(),
            forall|i: int|
                0 <= i < r.records().len() ==> built_from(
                    #[trigger] r.records()[i],
                    kept(records_in@)[i],
                    i,
                    collator,
                ),
    {
        let mut records: Vec<ApplicationRecord> = Vec::new();
        let mut k: usize = 0;
        while k < records_in.len()
            invariant
                k <= records_in@.len(),
                records@.len() == kept(records_in@.take(k as int)).len(),
                forall|i: int|
                    0 <= i < records@.len() ==> built_from(
                        #[trigger] records@[i],
                        kept(records_in@.take(k as int))[i],
                        i,
                        collator,
                    ),
            decreases records_in@.len() - k,
        {
            proof {
                lemma_filter_take_step(records_in@, |d: RawDescriptor| shown(d), k as int);
            }
            let d = &records_in[k];
            if d.should_show {
                match &d.display_name {
                    Some(name) => {
                        if !name.as_str().is_empty() {
                            let folded = fold_case(name.as_str());
                            let record = ApplicationRecord {
                                id: records.len(),
                                display_name: name.clone(),
                                search_key: chars_of(folded.as_str()),
                                sort_key: collator.sort_key(name, &d.locale_key),
                                launch_handle: d.launch_handle,
                                icon_ref: d.icon_ref,
                            };
                            records.push(record);
                        }
                    },
                    None => {},
                }
            }
            k = k + 1;
        }
        assert(records_in@.take(records_in@.len() as int) =~= records_in@);
        let order = collate(&records);
        EntryIndex { records, order }
    }

    /// The number of records.
    pub fn len(&self) -> (r: usize)
        ensures
            r == self.records().len(),
    {
        self.records.len()
    }

    /// Whether the index holds no record: nothing to list, which is no failure.
    pub fn is_empty(&self) -> (r: bool)
        ensures
            r == (self.records().len() == 0),
    {
        self.records.len() == 0
    }

    /// The identifiers in collated order.
    pub fn all_ids(&self) -> (r: Vec<usize>)
        ensures
            r@ == self.order(),
    {
        self.order.clone()
    }

    /// The records in collated order.
    pub fn all(&self) -> (r: Vec<&ApplicationRecord>)
        requires
            self.wf(),
        ensures
            r@.len() == self.order().len(),
            forall|p: int| 0 <= p < r@.len() ==> *#[trigger] r@[p] == self.records()[self.order()[p] as int],
    {
        let mut r: Vec<&ApplicationRecord> = Vec::new();
        let mut p: usize = 0;
        while p < self.order.len()
            invariant
                self.wf(),
                p <= self.order@.len(),
                r@.len() == p,
                forall|q: int| 0 <= q < p ==> *#[trigger] r@[q] == self.records@[self.order@[q] as int],
            decreases self.order@.len() - p,
        {
            r.push(&self.records[self.order[p]]);
            p = p + 1;
        }
        r
    }

    /// The record with identifier `id`, or `NotFound` when this index has
    /// none such.
    pub fn get(&self, id: usize) -> (r: Result<&ApplicationRecord, LookupError>)
        ensures
            r is Ok <==> id < self.records().len(),
            r is Ok ==> *r->Ok_0 == self.records()[id as int],
            r is Err ==> r->Err_0 == (LookupError::NotFound { id }),
    {
        if id < self.records.len() {
            Ok(&self.records[id])
        } else {
            Err(LookupError::NotFound { id })
        }
    }

    /// The search key of the record with identifier `id`.
    pub fn search_key(&self, id: usize) -> (r: &Vec<char>)
        requires
            id < self.records().len(),
        ensures
            r@ == self.records()[id as int].search_key@,
    {
        &self.records[id].search_key
    }

    /// The launch handle of the record with identifier `id`, or `NotFound`.
    pub fn launch_handle(&self, id: usize) -> (r: Result<u64, LookupError>)
        ensures
            r is Ok <==> id < self.records().len(),
            r is Ok ==> r->Ok_0 == self.records()[id as int].launch_handle,
            r is Err ==> r->Err_0 == (LookupError::NotFound { id }),
    {
        match self.get(id) {
            Ok(record) => Ok(record.launch_handle),
            Err(e) => Err(e),
        }
    }

    /// What the icon resolver is to work on: for each record that declares an
    /// icon, its identifier and icon token, in collated order so that the
    /// records listed first are resolved first.
    pub fn icon_requests(&self) -> (r: Vec<(usize, u64)>)
        requires
            self.wf(),
        ensures
            r@ == icon_requests_of(self.records(), self.order()),
    {
        let ghost recs = self.records();
        let ghost has_icon = |id: usize| recs[id as int].icon_ref is Some;
        let mut r: Vec<(usize, u64)> = Vec::new();
        let mut p: usize = 0;
        while p < self.order.len()
            invariant
                self.wf(),
                recs == self.records(),
                has_icon == (|id: usize| recs[id as int].icon_ref is Some),
                p <= self.order@.len(),
                r@ == icon_requests_of(recs, self.order@.take(p as int)),
            decreases self.order@.len() - p,
        {
            proof {
                lemma_filter_take_step(self.order@, has_icon, p as int);
            }
            let id = self.order[p];
            match self.records[id].icon_ref {
                Some(icon) => {
                    r.push((id, icon));
                },
                None => {},
            }
            assert(icon_requests_of(recs, self.order@.take(p + 1)) =~= (if recs[id as int].icon_ref is Some {
                icon_requests_of(recs, self.order@.take(p as int)).push((id, recs[id as int].icon_ref->0))
            } else {
                icon_requests_of(recs, self.order@.take(p as int))
            }));
            p = p + 1;
        }
        assert(self.order@.take(self.order@.len() as int) =~= self.order@);
        r
    }
}

} // verus!
