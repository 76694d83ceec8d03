//! The record store: contact records keyed by id, held in ascending id
//! order, with insert-or-overwrite, lookup, search, removal and edit.

use vstd::prelude::*;
use crate::text::{contains_seq, contains_str, lower_of, lowercase};

verus! {

/// One contact entry: an identifier, a required name, and an optional email.
#[derive(Debug)]
pub struct Record {
    pub id: i64,
    pub name: String,
    pub email: Option<String>,
}

/// The mathematical value of a `Record`: its fields as character sequences.
pub struct RecordView {
    pub id: i64,
    pub name: Seq<char>,
    pub email: Option<Seq<char>>,
}

/// The mathematical value of an optional email field.
pub open spec fn email_view(email: Option<String>) -> Option<Seq<char>> {
    match email {
        Option::Some(e) => Option::Some(e@),
        Option::None => Option::None,
    }
}

impl View for Record {
    type V = RecordView;

    open spec fn view(&self) -> RecordView {
        RecordView { id: self.id, name: self.name@, email: email_view(self.email) }
    }
}

impl Clone for Record {
    /// A clone carries the same id, name and email.
    fn clone(&self) -> (r: Self)
        ensures
            r@ == self@,
    {
        Record {
            id: self.id,
            name: self.name.clone(),
            email: match &self.email {
                Option::Some(e) => Option::Some(e.clone()),
                Option::None => Option::None,
            },
        }
    }
}

/// Record ids strictly increase along the sequence.
pub open spec fn ids_sorted(rs: Seq<RecordView>) -> bool {
    forall|i: int, j: int| 0 <= i < j < rs.len() ==> #[trigger] rs[i].id < #[trigger] rs[j].id
}

/// No two records of the sequence share an id.
pub open spec fn ids_unique(rs: Seq<RecordView>) -> bool {
    forall|i: int, j: int|
        0 <= i < rs.len() && 0 <= j < rs.len() && i != j ==> #[trigger] rs[i].id != #[trigger] rs[j].id
}

/// The id-keyed mapping that a sequence of records denotes; a later record
/// with the same id overrides an earlier one.
pub open spec fn view_map(rs: Seq<RecordView>) -> Map<i64, RecordView>
    decreases rs.len(),
{
    if rs.len() == 0 {
        Map::empty()
    } else {
        view_map(rs.drop_last()).insert(rs.last().id, rs.last())
    }
}

/// Strictly increasing ids are pairwise distinct.
pub proof fn lemma_sorted_unique(rs: Seq<RecordView>)
    requires
        ids_sorted(rs),
    ensures
        ids_unique(rs),
{
    assert forall|i: int, j: int|
        0 <= i < rs.len() && 0 <= j < rs.len() && i != j implies #[trigger] rs[i].id
        != #[trigger] rs[j].id by {
        if i < j {
            assert(rs[i].id < rs[j].id);
        } else {
            assert(rs[j].id < rs[i].id);
        }
    }
}

/// The mapping contains exactly the ids that occur in the sequence.
pub proof fn lemma_view_map_dom(rs: Seq<RecordView>)
    ensures
        forall|k: i64|
            #[trigger] view_map(rs).contains_key(k) <==> exists|i: int|
                0 <= i < rs.len() && #[trigger] rs[i].id == k,
    decreases rs.len(),
{
    if rs.len() > 0 {
        lemma_view_map_dom(rs.drop_last());
        assert forall|k: i64| #[trigger] view_map(rs).contains_key(k) implies exists|i: int|
            0 <= i < rs.len() && #[trigger] rs[i].id == k by {
            if k == rs.last().id {
                assert(rs[rs.len() - 1].id == k);
            } else {
                assert(view_map(rs.drop_last()).contains_key(k));
                let i = choose|i: int| 0 <= i < rs.drop_last().len() && #[trigger] rs.drop_last()[i].id == k;
                assert(rs.drop_last()[i] == rs[i]);
                assert(rs[i].id == k);
            }
        }
        assert forall|k: i64|
            (exists|i: int| 0 <= i < rs.len() && #[trigger] rs[i].id == k) implies #[trigger] view_map(
            rs,
        ).contains_key(k) by {
            let i = choose|i: int| 0 <= i < rs.len() && #[trigger] rs[i].id == k;
            if i < rs.len() - 1 {
                assert(rs.drop_last()[i].id == k);
                assert(view_map(rs.drop_last()).contains_key(k));
            }
        }
    }
}

/// With distinct ids, the mapping sends each record's id to that record.
pub proof fn lemma_view_map_at(rs: Seq<RecordView>)
    requires
        ids_unique(rs),
    ensures
        forall|i: int|
            0 <= i < rs.len() ==> view_map(rs).contains_key(#[trigger] rs[i].id) && view_map(rs)[rs[i].id]
                == rs[i],
    decreases rs.len(),
{
    if rs.len() > 0 {
        lemma_view_map_at(rs.drop_last());
        assert forall|i: int|
            0 <= i < rs.len() implies view_map(rs).contains_key(#[trigger] rs[i].id) && view_map(rs)[rs[i].id]
            == rs[i] by {
            if i < rs.len() - 1 {
                assert(rs.drop_last()[i] == rs[i]);
                assert(rs[i].id != rs.last().id);
            }
        }
    }
}

/// Two insertions at distinct keys commute.
proof fn lemma_insert_comm(m: Map<i64, RecordView>, k1: i64, v1: RecordView, k2: i64, v2: RecordView)
    requires
        k1 != k2,
    ensures
        m.insert(k1, v1).insert(k2, v2) == m.insert(k2, v2).insert(k1, v1),
{
    assert(m.insert(k1, v1).insert(k2, v2) =~= m.insert(k2, v2).insert(k1, v1));
}

/// Replacing the one record that carries an id rewrites that id's entry.
pub proof fn lemma_view_map_update(rs: Seq<RecordView>, i: int, r: RecordView)
    requires
        0 <= i < rs.len(),
        rs[i].id == r.id,
        forall|k: int| 0 <= k < rs.len() && k != i ==> #[trigger] rs[k].id != r.id,
    ensures
        view_map(rs.update(i, r)) == view_map(rs).insert(r.id, r),
    decreases rs.len(),
{
    let t = rs.update(i, r);
    if i == rs.len() - 1 {
        assert(t.drop_last() =~= rs.drop_last());
        assert(t.last() == r);
        assert(view_map(rs).insert(r.id, r) =~= view_map(rs.drop_last()).insert(r.id, r));
    } else {
        assert(t.drop_last() =~= rs.drop_last().update(i, r));
        assert(t.last() == rs.last());
        assert(rs.drop_last()[i] == rs[i]);
        assert forall|k: int|
            0 <= k < rs.drop_last().len() && k != i implies #[trigger] rs.drop_last()[k].id != r.id by {
            assert(rs.drop_last()[k] == rs[k]);
        }
        lemma_view_map_update(rs.drop_last(), i, r);
        assert(rs.last().id != r.id);
        lemma_insert_comm(view_map(rs.drop_last()), r.id, r, rs.last().id, rs.last());
    }
}

/// Inserting a record whose id is fresh adds exactly that id's entry.
pub proof fn lemma_view_map_insert(rs: Seq<RecordView>, i: int, r: RecordView)
    requires
        0 <= i <= rs.len(),
        forall|k: int| 0 <= k < rs.len() ==> #[trigger] rs[k].id != r.id,
    ensures
        view_map(rs.insert(i, r)) == view_map(rs).insert(r.id, r),
    decreases rs.len(),
{
    let t = rs.insert(i, r);
    if i == rs.len() {
        assert(t =~= rs.push(r));
        assert(t.drop_last() =~= rs);
        assert(t.last() == r);
    } else {
        assert(t.drop_last() =~= rs.drop_last().insert(i, r));
        assert(t.last() == rs.last());
        assert forall|k: int| 0 <= k < rs.drop_last().len() implies #[trigger] rs.drop_last()[k].id
            != r.id by {
            assert(rs.drop_last()[k] == rs[k]);
        }
        lemma_view_map_insert(rs.drop_last(), i, r);
        assert(rs.last().id != r.id);
        lemma_insert_comm(view_map(rs.drop_last()), r.id, r, rs.last().id, rs.last());
    }
}

/// Removing the one record that carries an id deletes that id's entry.
pub proof fn lemma_view_map_remove(rs: Seq<RecordView>, i: int)
    requires
        ids_unique(rs),
        0 <= i < rs.len(),
    ensures
        view_map(rs.remove(i)) == view_map(rs).remove(rs[i].id),
    decreases rs.len(),
{
    let t = rs.remove(i);
    if i == rs.len() - 1 {
        assert(t =~= rs.drop_last());
        lemma_view_map_dom(rs.drop_last());
        assert(!view_map(rs.drop_last()).contains_key(rs[i].id)) by {
            if view_map(rs.drop_last()).contains_key(rs[i].id) {
                let k = choose|k: int|
                    0 <= k < rs.drop_last().len() && #[trigger] rs.drop_last()[k].id == rs[i].id;
                assert(rs[k].id == rs[i].id);
            }
        }
        assert(view_map(rs).remove(rs[i].id) =~= view_map(rs.drop_last()));
    } else {
        assert(t.drop_last() =~= rs.drop_last().remove(i));
        assert(t.last() == rs.last());
        assert(rs.drop_last()[i] == rs[i]);
        assert forall|a: int, b: int|
            0 <= a < rs.drop_last().len() && 0 <= b < rs.drop_last().len() && a != b implies #[trigger] rs.drop_last()[a].id
            != #[trigger] rs.drop_last()[b].id by {
            assert(rs.drop_last()[a] == rs[a]);
            assert(rs.drop_last()[b] == rs[b]);
        }
        lemma_view_map_remove(rs.drop_last(), i);
        assert(rs.last().id != rs[i].id);
        assert(view_map(rs.drop_last()).remove(rs[i].id).insert(rs.last().id, rs.last())
            =~= view_map(rs.drop_last()).insert(rs.last().id, rs.last()).remove(rs[i].id));
    }
}

/// The lookup law of the store's mapping: once a record is inserted, its id
/// finds exactly that record; once the id is removed, it finds nothing.
/// `add` and `remove` say in their contracts that they perform exactly this
/// insertion and removal.
pub proof fn lemma_insert_then_lookup(m: Map<i64, RecordView>, rv: RecordView)
    ensures
        m.insert(rv.id, rv).contains_key(rv.id),
        m.insert(rv.id, rv)[rv.id] == rv,
        !m.insert(rv.id, rv).remove(rv.id).contains_key(rv.id),
{
}

/// Does the record's name contain the query, ignoring case?
pub open spec fn name_matches(name: Seq<char>, query: Seq<char>) -> bool {
    contains_seq(lower_of(name), lower_of(query))
}

/// The in-memory store: at most one record per id.
pub struct Records {
    list: Vec<Record>,
}

impl View for Records {
    type V = Map<i64, RecordView>;

    /// The id-keyed mapping the store holds.
    closed spec fn view(&self) -> Map<i64, RecordView> {
        view_map(self.ordered())
    }
}

impl Records {
    /// The store's records in their held (ascending id) order.
    pub closed spec fn ordered(&self) -> Seq<RecordView> {
        self.list@.map_values(|rec: Record| rec@)
    }

    /// Well-formed: records are held in strictly ascending id order, so each
    /// id occurs at most once.
    pub closed spec fn wf(&self) -> bool {
        ids_sorted(self.ordered())
    }

    /// The held order denotes the store's mapping.
    pub proof fn lemma_ordered(&self)
        requires
            self.wf(),
        ensures
            ids_sorted(self.ordered()),
            view_map(self.ordered()) == self@,
            forall|i: int|
                0 <= i < self.ordered().len() ==> self@.contains_key(
                    #[trigger] self.ordered()[i].id,
                ) && self@[self.ordered()[i].id] == self.ordered()[i],
    {
        lemma_sorted_unique(self.ordered());
        lemma_view_map_at(self.ordered());
    }

    /// An empty store.
    pub fn new() -> (r: Self)
        ensures
            r.wf(),
            r@ == Map::<i64, RecordView>::empty(),
    {
        let r = Records { list: Vec::new() };
        proof {
            assert(r.ordered() =~= Seq::<RecordView>::empty());
        }
        r
    }

    /// Inserts the record, overwriting any record that already carries its
    /// id; afterwards exactly this record is found under its id.
    pub fn add(&mut self, record: Record)
        requires
            old(self).wf(),
        ensures
            final(self).wf(),
            final(self)@ == old(self)@.insert(record.id, record@),
            final(self)@.contains_key(record.id),
            final(self)@[record.id] == record@,
    {
        let n = self.list.len();
        let mut i: usize = 0;
        while i < n && self.list[i].id < record.id
            invariant
                0 <= i <= n,
                n == self.list.len(),
                forall|k: int| 0 <= k < i ==> #[trigger] self.ordered()[k].id < record.id,
            decreases n - i,
        {
            proof {
                assert(self.ordered()[i as int].id == self.list@[i as int].id);
            }
            i += 1;
        }
        proof {
            lemma_sorted_unique(self.ordered());
            if i < n {
                assert(self.ordered()[i as int].id == self.list@[i as int].id);
            }
        }
        if i < n && self.list[i].id == record.id {
            let ghost before = self.ordered();
            self.list.set(i, record);
            proof {
                assert(self.ordered() =~= before.update(i as int, record@));
                assert forall|k: int| 0 <= k < before.len() && k != i implies #[trigger] before[k].id
                    != record.id by {
                    assert(before[k].id != before[i as int].id);
                }
                lemma_view_map_update(before, i as int, record@);
                assert(ids_sorted(self.ordered()));
            }
        } else {
            let ghost before = self.ordered();
            self.list.insert(i, record);
            proof {
                assert(self.ordered() =~= before.insert(i as int, record@));
                assert forall|k: int| 0 <= k < before.len() implies #[trigger] before[k].id
                    != record.id by {
                    if k >= i {
                        assert(before[i as int].id > record.id || i == n);
                        if k > i {
                            assert(before[i as int].id < before[k].id);
                        }
                    }
                }
                lemma_view_map_insert(before, i as int, record@);
                let now = self.ordered();
                assert forall|a: int, b: int| 0 <= a < b < now.len() implies #[trigger] now[a].id
                    < #[trigger] now[b].id by {
                    if a < i && b > i {
                        assert(now[a] == before[a]);
                        assert(now[b] == before[b - 1]);
                        assert(before[a].id < record.id);
                        if b - 1 > i {
                            assert(before[i as int].id < before[b - 1].id);
                        }
                    }
                }
            }
        }
    }

    /// The store's records, ascending by id; consuming the store.
    pub fn into_vec(self) -> (r: Vec<Record>)
        requires
            self.wf(),
        ensures
            r@.map_values(|rec: Record| rec@) == self.ordered(),
            ids_sorted(r@.map_values(|rec: Record| rec@)),
            view_map(r@.map_values(|rec: Record| rec@)) == self@,
            forall|k: int|
                0 <= k < r@.len() ==> self@.contains_key(#[trigger] r@[k]@.id) && self@[r@[k]@.id]
                    == r@[k]@,
    {
        proof {
            self.lemma_ordered();
            assert forall|k: int| 0 <= k < self.list@.len() implies self@.contains_key(
                #[trigger] self.list@[k]@.id,
            ) && self@[self.list@[k]@.id] == self.list@[k]@ by {
                assert(self.ordered()[k] == self.list@[k]@);
            }
        }
        self.list
    }

    /// One more than the greatest id in the store, or 1 when it is empty.
    pub fn next_id(&self) -> (r: i64)
        requires
            self.wf(),
            forall|k: i64| #[trigger] self@.contains_key(k) ==> k < i64::MAX,
        ensures
            (forall|k: i64| !(#[trigger] self@.contains_key(k))) ==> r == 1,
            (exists|k: i64| #[trigger] self@.contains_key(k)) ==> exists|m: i64|
                #[trigger] self@.contains_key(m) && r == m + 1 && (forall|k: i64|
                    #[trigger] self@.contains_key(k) ==> k <= m),
    {
        let n = self.list.len();
        proof {
            lemma_view_map_dom(self.ordered());
        }
        if n == 0 {
            proof {
                assert(self.ordered().len() == 0);
            }
            1
        } else {
            let last_id = self.list[n - 1].id;
            proof {
                assert(self.ordered()[n - 1].id == last_id);
                assert(self@.contains_key(last_id));
                assert forall|k: i64| #[trigger] self@.contains_key(k) implies k <= last_id by {
                    let i = choose|i: int|
                        0 <= i < self.ordered().len() && #[trigger] self.ordered()[i].id == k;
                    if i < n - 1 {
                        assert(self.ordered()[i].id < self.ordered()[n - 1].id);
                    }
                }
            }
            last_id + 1
        }
    }

    /// The records whose names contain the query, ignoring case, in the
    /// store's (ascending id) order.
    pub fn search(&self, query: &str) -> (r: Vec<Record>)
        requires
            self.wf(),
        ensures
            r@.map_values(|rec: Record| rec@) == self.ordered().filter(
                (|rv: RecordView| name_matches(rv.name, query@)),
            ),
    {
        let ghost pred = (|rv: RecordView| name_matches(rv.name, query@));
        let low_q = lowercase(query);
        let mut out: Vec<Record> = Vec::new();
        let n = self.list.len();
        let mut i: usize = 0;
        proof {
            assert(self.ordered().take(0).filter(pred) =~= Seq::<RecordView>::empty());
            assert(out@.map_values(|rec: Record| rec@) =~= Seq::<RecordView>::empty());
        }
        while i < n
            invariant
                0 <= i <= n,
                n == self.list.len(),
                low_q@ == lower_of(query@),
                out@.map_values(|rec: Record| rec@) == self.ordered().take(i as int).filter(pred),
                pred == (|rv: RecordView| name_matches(rv.name, query@)),
            decreases n - i,
        {
            let rec = &self.list[i];
            proof {
                assert(self.ordered()[i as int] == rec@);
                assert(self.ordered().take(i + 1).drop_last() =~= self.ordered().take(i as int));
                assert(self.ordered().take(i + 1).last() == rec@);
            }
            let low_name = lowercase(rec.name.as_str());
            let ghost before = out@.map_values(|r2: Record| r2@);
            if contains_str(low_name.as_str(), low_q.as_str()) {
                out.push(rec.clone());
                proof {
                    reveal_with_fuel(Seq::filter, 2);
                    assert(pred(rec@));
                    assert(out@.map_values(|r2: Record| r2@) =~= before.push(rec@));
                    assert(self.ordered().take(i + 1).filter(pred) == self.ordered().take(
                        i as int,
                    ).filter(pred).push(rec@));
                }
            } else {
                proof {
                    reveal_with_fuel(Seq::filter, 2);
                    assert(!pred(rec@));
                    assert(self.ordered().take(i + 1).filter(pred) == self.ordered().take(
                        i as int,
                    ).filter(pred));
                }
            }
            i += 1;
        }
        proof {
            assert(self.ordered().take(n as int) =~= self.ordered());
        }
        out
    }

    /// Deletes the record carrying the id, if any, and returns it; afterwards
    /// no record is found under that id.
    pub fn remove(&mut self, id: i64) -> (r: Option<Record>)
        requires
            old(self).wf(),
        ensures
            final(self).wf(),
            final(self)@ == old(self)@.remove(id),
            !final(self)@.contains_key(id),
            r is Some <==> old(self)@.contains_key(id),
            r matches Some(rec) ==> rec@ == old(self)@[id] && rec.id == id,
    {
        proof {
            lemma_sorted_unique(self.ordered());
            lemma_view_map_dom(self.ordered());
            lemma_view_map_at(self.ordered());
        }
        let n = self.list.len();
        let mut i: usize = 0;
        while i < n && self.list[i].id != id
            invariant
                0 <= i <= n,
                n == self.list.len(),
                forall|k: int| 0 <= k < i ==> #[trigger] self.ordered()[k].id != id,
            decreases n - i,
        {
            proof {
                assert(self.ordered()[i as int].id == self.list@[i as int].id);
            }
            i += 1;
        }
        if i < n {
            proof {
                assert(self.ordered()[i as int].id == self.list@[i as int].id);
            }
            let ghost before = self.ordered();
            let rec = self.list.remove(i);
            proof {
                assert(rec@ == before[i as int]);
                assert(self.ordered() =~= before.remove(i as int));
                lemma_view_map_remove(before, i as int);
                assert(ids_sorted(self.ordered()));
            }
            Some(rec)
        } else {
            proof {
                if self@.contains_key(id) {
                    let k = choose|k: int|
                        0 <= k < self.ordered().len() && #[trigger] self.ordered()[k].id == id;
                    assert(false);
                }
                assert(self@.remove(id) =~= self@);
            }
            None
        }
    }

    /// Writes a record with the given fields at the id, whether or not one
    /// was there: the name is overwritten and the email replaced — cleared
    /// when none is given.
    pub fn edit(&mut self, id: i64, name: &str, email: Option<String>)
        requires
            old(self).wf(),
        ensures
            final(self).wf(),
            final(self)@ == old(self)@.insert(
                id,
                RecordView { id: id, name: name@, email: email_view(email) },
            ),
            final(self)@.contains_key(id),
            final(self)@[id].id == id,
            final(self)@[id].name == name@,
            final(self)@[id].email == email_view(email),
    {
        let rec = Record { id: id, name: name.to_owned(), email: email };
        self.add(rec);
    }
}

} // verus!
