//! The in-memory store of records, kept sorted by id with no id twice.

use vstd::prelude::*;
use crate::record::{Record, RecordView};
use crate::text::{contains_chars, is_substring};

verus! {

/// Ids strictly increase along the sequence: no id twice, ascending order.
pub open spec fn ids_ascending(s: Seq<RecordView>) -> bool {
    forall|i: int, j: int| 0 <= i < j < s.len() ==> s[i].id < s[j].id
}

/// Some record of `s` has this id.
pub open spec fn has_id(s: Seq<RecordView>, id: i64) -> bool {
    exists|i: int| 0 <= i < s.len() && (#[trigger] s[i]).id == id
}

/// The characters of `s` after Unicode lower-casing.
pub uninterp spec fn lower_of(s: Seq<char>) -> Seq<char>;

/// Relies on `str::to_lowercase`: the lower-cased text depends on `s` alone.
#[verifier::external_body]
fn lowercase(s: &str) -> (r: Vec<char>)
    ensures
        r@ == lower_of(s@),
        s@.len() == 0 ==> r@.len() == 0,
{
    s.to_lowercase().chars().collect()
}

/// A record matches a query when the lower-cased query occurs in the
/// lower-cased name.
pub open spec fn name_matches(query: Seq<char>) -> spec_fn(RecordView) -> bool {
    |x: RecordView| is_substring(lower_of(x.name), lower_of(query))
}

/// The records of a store: a mapping from id to record, kept as a vector
/// sorted by id.
pub struct Records {
    inner: Vec<Record>,
}

impl View for Records {
    type V = Seq<RecordView>;

    closed spec fn view(&self) -> Seq<RecordView> {
        self.inner@.map_values(|r: Record| r@)
    }
}

impl Records {
    /// The store's invariant: ids unique and in ascending order.
    pub open spec fn wf(&self) -> bool {
        ids_ascending(self@)
    }

    /// An empty store.
    pub fn new() -> (r: Records)
        ensures
            r.wf(),
            r@ == Seq::<RecordView>::empty(),
    {
        let r = Records { inner: Vec::new() };
        assert(r@ =~= Seq::<RecordView>::empty());
        r
    }

    /// Inserts `record`, replacing the record with the same id if there is one.
    pub fn add(&mut self, record: Record)
        requires
            old(self).wf(),
        ensures
            final(self).wf(),
            forall|x: RecordView|
                #![trigger final(self)@.contains(x)]
                final(self)@.contains(x) <==> (x == record@ || (old(self)@.contains(x) && x.id
                    != record.id)),
    {
        let ghost s0 = self@;
        let ghost v = record@;
        let mut i: usize = 0;
        while i < self.inner.len() && self.inner[i].id < record.id
            invariant
                self@ == s0,
                ids_ascending(s0),
                i <= s0.len(),
                forall|k: int| 0 <= k < i ==> s0[k].id < record.id,
            decreases s0.len() - i,
        {
            assert(self@[i as int] == self.inner@[i as int]@);
            i = i + 1;
        }
        proof {
            if i < s0.len() {
                assert(self@[i as int] == self.inner@[i as int]@);
            }
        }
        let ghost keep_from: int;
        if i < self.inner.len() && self.inner[i].id == record.id {
            self.inner.remove(i);
            proof {
                keep_from = i + 1;
            }
        } else {
            proof {
                keep_from = i as int;
            }
        }
        let ghost s1 = self@;
        assert(s1 =~= s0.subrange(0, i as int) + s0.subrange(keep_from, s0.len() as int));
        self.inner.insert(i, record);
        assert(self@ =~= s1.insert(i as int, v));
        proof {
            let s2 = self@;
            assert forall|k: int| keep_from <= k < s0.len() implies s0[k].id > v.id by {
                if keep_from == i + 1 {
                    assert(s0[i as int].id == v.id);
                }
            }
            assert(ids_ascending(s2));
            assert forall|x: RecordView|
                #![trigger s2.contains(x)]
                s2.contains(x) <==> (x == v || (s0.contains(x) && x.id != v.id)) by {
                if s2.contains(x) {
                    let k = choose|k: int| 0 <= k < s2.len() && s2[k] == x;
                    if k < i {
                        assert(s0[k] == x);
                    } else if k > i {
                        assert(s0[k - 1 - i + keep_from] == x);
                    }
                }
                if x == v {
                    assert(s2[i as int] == x);
                }
                if s0.contains(x) && x.id != v.id {
                    let k = choose|k: int| 0 <= k < s0.len() && s0[k] == x;
                    if k < i {
                        assert(s2[k] == x);
                    } else {
                        assert(k >= keep_from);
                        assert(s2[k - keep_from + i + 1] == x);
                    }
                }
            }
        }
    }

    /// Inserts or replaces the record with this id, name and email.
    pub fn edit(&mut self, id: i64, name: &str, email: Option<String>)
        requires
            old(self).wf(),
        ensures
            final(self).wf(),
            forall|x: RecordView|
                #![trigger final(self)@.contains(x)]
                final(self)@.contains(x) <==> (x == RecordView {
                    id,
                    name: name@,
                    email: crate::record::opt_view(email),
                } || (old(self)@.contains(x) && x.id != id)),
    {
        let record = Record { id, name: name.to_owned(), email };
        self.add(record);
    }

    /// The largest id in the store, if it holds any record.
    pub fn last_id(&self) -> (r: Option<i64>)
        requires
            self.wf(),
        ensures
            self@.len() == 0 ==> r is None,
            self@.len() > 0 ==> r == Some(self@.last().id),
            r matches Some(m) ==> forall|i: int| 0 <= i < self@.len() ==> self@[i].id <= m,
    {
        if self.inner.len() == 0 {
            None
        } else {
            let n = self.inner.len() - 1;
            assert(self@[n as int] == self.inner@[n as int]@);
            Some(self.inner[n].id)
        }
    }

    /// The next free id: one more than the largest id, or 1 when empty.
    pub fn next_id(&self) -> (r: i64)
        requires
            self.wf(),
            self@.len() > 0 ==> self@.last().id < i64::MAX,
        ensures
            self@.len() == 0 ==> r == 1,
            self@.len() > 0 ==> r == self@.last().id + 1,
            forall|i: int| 0 <= i < self@.len() ==> self@[i].id < r,
    {
        match self.last_id() {
            Some(m) => m + 1,
            None => 1,
        }
    }

    /// Adds a record under the next free id and returns that id; returns
    /// `None`, leaving the store as it was, when the largest id is already
    /// `i64::MAX`.
    pub fn add_next(&mut self, name: String, email: Option<String>) -> (r: Option<i64>)
        requires
            old(self).wf(),
        ensures
            final(self).wf(),
            (old(self)@.len() > 0 && old(self)@.last().id == i64::MAX) <==> r is None,
            r is None ==> final(self)@ == old(self)@,
            r matches Some(id) ==> {
                &&& (old(self)@.len() == 0 ==> id == 1)
                &&& (old(self)@.len() > 0 ==> id == old(self)@.last().id + 1)
                &&& forall|x: RecordView|
                    #![trigger final(self)@.contains(x)]
                    final(self)@.contains(x) <==> (x == RecordView {
                        id,
                        name: name@,
                        email: crate::record::opt_view(email),
                    } || old(self)@.contains(x))
            },
    {
        if self.last_id() == Some(i64::MAX) {
            return None;
        }
        let id = self.next_id();
        self.add(Record { id, name, email });
        proof {
            assert forall|x: RecordView| old(self)@.contains(x) implies x.id != id by {
                let k = choose|k: int| 0 <= k < old(self)@.len() && old(self)@[k] == x;
            }
        }
        Some(id)
    }

    /// Removes the record with this id; tells whether there was one.
    pub fn remove(&mut self, id: i64) -> (r: bool)
        requires
            old(self).wf(),
        ensures
            final(self).wf(),
            r == has_id(old(self)@, id),
            !r ==> final(self)@ == old(self)@,
            forall|x: RecordView|
                #![trigger final(self)@.contains(x)]
                final(self)@.contains(x) <==> (old(self)@.contains(x) && x.id != id),
    {
        let ghost s0 = self@;
        let mut i: usize = 0;
        while i < self.inner.len()
            invariant
                self@ == s0,
                s0 == old(self)@,
                ids_ascending(s0),
                i <= s0.len(),
                forall|k: int| 0 <= k < i ==> s0[k].id != id,
            decreases s0.len() - i,
        {
            assert(self@[i as int] == self.inner@[i as int]@);
            if self.inner[i].id == id {
                assert(s0[i as int].id == id);
                assert(has_id(s0, id));
                self.inner.remove(i);
                proof {
                    let s1 = self@;
                    assert(s1 =~= s0.remove(i as int));
                    assert forall|x: RecordView|
                        #![trigger s1.contains(x)]
                        s1.contains(x) <==> (s0.contains(x) && x.id != id) by {
                        if s1.contains(x) {
                            let k = choose|k: int| 0 <= k < s1.len() && s1[k] == x;
                            if k < i {
                                assert(s0[k] == x);
                            } else {
                                assert(s1[k] == s0[k + 1]);
                                assert(s0[k + 1] == x);
                            }
                        }
                        if s0.contains(x) && x.id != id {
                            let k = choose|k: int| 0 <= k < s0.len() && s0[k] == x;
                            if k < i {
                                assert(s1[k] == x);
                            } else {
                                assert(k != i);
                                assert(s1[k - 1] == s0[k]);
                            }
                        }
                    }
                    assert(ids_ascending(s1));
                }
                assert(forall|x: RecordView|
                    #![trigger self@.contains(x)]
                    self@.contains(x) <==> (s0.contains(x) && x.id != id));
                return true;
            }
            i = i + 1;
        }
        proof {
            assert forall|x: RecordView| s0.contains(x) implies x.id != id by {
                let k = choose|k: int| 0 <= k < s0.len() && s0[k] == x;
            }
        }
        false
    }

    /// The records whose name holds `name`, ignoring case, in id order.
    pub fn search(&self, name: &str) -> (r: Vec<&Record>)
        ensures
            r@.map_values(|x: &Record| x@) == self@.filter(name_matches(name@)),
    {
        let query = lowercase(name);
        let mut found: Vec<&Record> = Vec::new();
        let mut i: usize = 0;
        while i < self.inner.len()
            invariant
                i <= self@.len(),
                query@ == lower_of(name@),
                found@.map_values(|x: &Record| x@) == self@.subrange(0, i as int).filter(
                    name_matches(name@),
                ),
            decreases self@.len() - i,
        {
            let rec = &self.inner[i];
            assert(self@[i as int] == rec@);
            let folded = lowercase(rec.name.as_str());
            let hit = contains_chars(&folded, &query);
            proof {
                let pre = self@.subrange(0, i as int);
                assert(self@.subrange(0, i + 1) =~= pre.push(rec@));
                Seq::filter_distributes_over_add(pre, seq![rec@], name_matches(name@));
                assert(pre.push(rec@) =~= pre + seq![rec@]);
                reveal(Seq::filter);
                assert(seq![rec@].drop_last() =~= Seq::<RecordView>::empty());
                assert(name_matches(name@)(rec@) == hit);
                assert(Seq::<RecordView>::empty().filter(name_matches(name@)) =~= Seq::<
                    RecordView,
                >::empty());
                if hit {
                    assert(seq![rec@].filter(name_matches(name@)) =~= seq![rec@]);
                } else {
                    assert(seq![rec@].filter(name_matches(name@)) =~= Seq::<RecordView>::empty());
                }
            }
            if hit {
                found.push(rec);
            }
            proof {
                assert(found@.map_values(|x: &Record| x@) =~= self@.subrange(0, i + 1).filter(
                    name_matches(name@),
                ));
            }
            i = i + 1;
        }
        assert(self@.subrange(0, self@.len() as int) =~= self@);
        found
    }

    /// Hands out all records in ascending id order, consuming the store.
    pub fn into_vec(self) -> (r: Vec<Record>)
        ensures
            r@.map_values(|x: Record| x@) == self@,
    {
        self.inner
    }
}

/// Adding or editing keeps ids unique and ascending, and the exported
/// sequence is then free of duplicate ids and sorted by id.
pub proof fn lemma_export_unique_sorted(s: Records)
    requires
        s.wf(),
    ensures
        forall|i: int, j: int|
            0 <= i < s@.len() && 0 <= j < s@.len() && i != j ==> s@[i].id != s@[j].id,
        forall|i: int, j: int| 0 <= i <= j < s@.len() ==> s@[i].id <= s@[j].id,
{
    assert forall|i: int, j: int|
        0 <= i < s@.len() && 0 <= j < s@.len() && i != j implies s@[i].id != s@[j].id by {
        if i < j {
            assert(s@[i].id < s@[j].id);
        } else {
            assert(s@[j].id < s@[i].id);
        }
    }
    assert forall|i: int, j: int| 0 <= i <= j < s@.len() implies s@[i].id <= s@[j].id by {
        if i < j {
            assert(s@[i].id < s@[j].id);
        }
    }
}

} // verus!
