//! Payloads laid over those of an immutable segment.

use vstd::prelude::*;

use crate::id::{ExternalId, IdMap, IdView};
use crate::json::{Json, JsonView};
use crate::segment::{copy_payload, payload_view};

verus! {

/// New payloads for some identifiers, in the order in which the identifiers came.
pub struct Overlay {
    entries: Vec<(ExternalId, Option<Json>)>,
    at: IdMap<usize>,
}

/// The new payloads once some more were laid over.
pub open spec fn overlaid(
    m: Map<IdView, Option<JsonView>>,
    entries: Seq<(ExternalId, Option<Json>)>,
) -> Map<IdView, Option<JsonView>>
    decreases entries.len(),
{
    if entries.len() == 0 {
        m
    } else {
        overlaid(m, entries.drop_last()).insert(
            entries.last().0@,
            payload_view(entries.last().1),
        )
    }
}

impl View for Overlay {
    type V = Map<IdView, Option<JsonView>>;

    closed spec fn view(&self) -> Map<IdView, Option<JsonView>> {
        Map::new(
            |id: IdView| self.at@.contains_key(id),
            |id: IdView| payload_view(self.entries@[self.at@[id] as int].1),
        )
    }
}

impl Overlay {
    /// Each identifier stands for one entry.
    pub closed spec fn valid(&self) -> bool {
        &&& forall|i: int|
            0 <= i < self.entries@.len() ==> self.at@.contains_key((#[trigger] self.entries@[i]).0@)
                && self.at@[self.entries@[i].0@] == i
        &&& forall|id: IdView| #[trigger]
            self.at@.contains_key(id) ==> self.at@[id] < self.entries@.len()
                && self.entries@[self.at@[id] as int].0@ == id
    }

    /// How many identifiers have a new payload.
    pub closed spec fn size(&self) -> nat {
        self.entries@.len()
    }

    /// No new payloads.
    pub fn new() -> (r: Self)
        ensures
            r.valid(),
            r@ == Map::<IdView, Option<JsonView>>::empty(),
            r.size() == 0,
    {
        let r = Overlay { entries: Vec::new(), at: IdMap::new() };
        assert(r@ =~= Map::<IdView, Option<JsonView>>::empty());
        r
    }

    /// The new payload of an identifier, if it has one.
    pub fn get(&self, id: &ExternalId) -> (r: Option<&Option<Json>>)
        requires
            self.valid(),
        ensures
            match r {
                Some(p) => self@.contains_key(id@) && self@[id@] == payload_view(*p),
                None => !self@.contains_key(id@),
            },
    {
        match self.at.get(id) {
            Some(i) => Some(&self.entries[i].1),
            None => None,
        }
    }

    /// Gives an identifier a new payload.
    pub fn insert(&mut self, id: &ExternalId, payload: &Option<Json>)
        requires
            old(self).valid(),
        ensures
            final(self).valid(),
            final(self)@ == old(self)@.insert(id@, payload_view(*payload)),
            final(self).size() <= old(self).size() + 1,
            old(self)@.contains_key(id@) ==> final(self).size() == old(self).size(),
    {
        match self.at.get(id) {
            Some(i) => {
                self.entries.set(i, (id.clone(), copy_payload(payload)));
            },
            None => {
                let i: usize = self.entries.len();
                self.entries.push((id.clone(), copy_payload(payload)));
                self.at.insert(id, i);
            },
        }
        assert(self@ =~= old(self)@.insert(id@, payload_view(*payload)));
    }

    /// The new payloads.
    pub fn entries(&self) -> (r: &Vec<(ExternalId, Option<Json>)>)
        requires
            self.valid(),
        ensures
            r@.len() == self.size(),
            overlaid(Map::empty(), r@) == self@,
    {
        proof {
            self.lemma_entries(self.entries@.len());
            let all = overlaid(Map::<IdView, Option<JsonView>>::empty(), self.entries@);
            assert(self.entries@.take(self.entries@.len() as int) =~= self.entries@);
            assert forall|id: IdView| all.contains_key(id) <==> self@.contains_key(id) by {
                if self.at@.contains_key(id) {
                    assert(self.at@[id] < self.entries@.len());
                }
            }
            assert(all =~= self@);
        }
        &self.entries
    }

    proof fn lemma_entries(&self, n: nat)
        requires
            self.valid(),
            n <= self.entries@.len(),
        ensures
            forall|id: IdView|
                #![trigger self.at@.contains_key(id)]
                #![trigger overlaid(Map::empty(), self.entries@.take(n as int)).contains_key(id)]
                overlaid(Map::empty(), self.entries@.take(n as int)).contains_key(id) <==> (
                self.at@.contains_key(id) && self.at@[id] < n),
            forall|id: IdView| #[trigger]
                overlaid(Map::empty(), self.entries@.take(n as int)).contains_key(id) ==> overlaid(
                    Map::empty(),
                    self.entries@.take(n as int),
                )[id] == payload_view(self.entries@[self.at@[id] as int].1),
        decreases n,
    {
        if n > 0 {
            self.lemma_entries((n - 1) as nat);
            assert(self.entries@.take(n as int).drop_last() =~= self.entries@.take(n - 1));
            let e = self.entries@[n - 1];
            assert(self.at@[e.0@] == n - 1);
        }
    }
}

} // verus!
