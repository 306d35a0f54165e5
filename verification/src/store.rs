//! The in-memory task store: an id-keyed collection of task records with
//! upsert-style insertion, lookup, listing and idempotent deletion.
//!
//! The store is modelled as a `Map<u64, TaskView>`. Internally it holds a
//! vector of records with pairwise-distinct ids; `map_of` relates the two.

use vstd::prelude::*;
use vstd::pervasive::VecAdditionalExecFns;

use crate::codec;
use crate::codec::ParseError;
use crate::model::{Task, TaskView};

verus! {

/// What loading yields from given document bytes: an empty store for an
/// empty document, the parsed records keyed by id otherwise (a later record
/// with a duplicate id superseding an earlier one), and nothing when the
/// bytes do not parse.
pub open spec fn spec_load(bytes: Seq<u8>) -> Option<Map<u64, TaskView>> {
    if bytes.len() == 0 {
        Some(Map::<u64, TaskView>::empty())
    } else {
        match codec::spec_parse_db(bytes) {
            Some(s) => Some(map_of(s)),
            None => None,
        }
    }
}

/// The id → record map denoted by a sequence of task records. Records are
/// taken in order, so a later record with the same id supersedes an earlier
/// one.
pub open spec fn map_of(s: Seq<TaskView>) -> Map<u64, TaskView>
    decreases s.len(),
{
    if s.len() == 0 {
        Map::empty()
    } else {
        map_of(s.drop_last()).insert(s.last().id, s.last())
    }
}

/// No two records in the sequence share an id.
pub open spec fn distinct_ids(s: Seq<TaskView>) -> bool {
    forall|i: int, j: int| 0 <= i < j < s.len() ==> s[i].id != s[j].id
}

/// The record `t` rekeyed to `id`: the same payload with its id field
/// replaced by the given key.
pub open spec fn with_id(t: TaskView, id: u64) -> TaskView {
    TaskView { id: id, name: t.name, completed: t.completed }
}

/// An id is in the domain of `map_of(s)` exactly when some record in `s`
/// carries it.
pub proof fn lemma_map_of_contains(s: Seq<TaskView>, id: u64)
    ensures
        map_of(s).dom().contains(id) <==> (exists|i: int|
            0 <= i < s.len() && #[trigger] s[i].id == id),
    decreases s.len(),
{
    if s.len() > 0 {
        lemma_map_of_contains(s.drop_last(), id);
        if id == s.last().id {
            assert(s[s.len() - 1].id == id);
        } else {
            if exists|i: int| 0 <= i < s.drop_last().len() && #[trigger] s.drop_last()[i].id
                == id {
                let i = choose|i: int|
                    0 <= i < s.drop_last().len() && #[trigger] s.drop_last()[i].id == id;
                assert(s[i].id == id);
            }
            if exists|i: int| 0 <= i < s.len() && #[trigger] s[i].id == id {
                let i = choose|i: int| 0 <= i < s.len() && #[trigger] s[i].id == id;
                assert(i < s.len() - 1);
                assert(s.drop_last()[i].id == id);
            }
        }
    }
}

/// With pairwise-distinct ids, `map_of(s)` maps each record's id to that
/// record.
pub proof fn lemma_map_of_pair(s: Seq<TaskView>, i: int)
    requires
        distinct_ids(s),
        0 <= i < s.len(),
    ensures
        map_of(s).contains_pair(s[i].id, s[i]),
    decreases s.len(),
{
    if i < s.len() - 1 {
        assert(distinct_ids(s.drop_last()));
        lemma_map_of_pair(s.drop_last(), i);
        assert(s.drop_last()[i] == s[i]);
        assert(s[i].id != s.last().id);
    }
}

/// Replacing the record at an index by one with the same id denotes a plain
/// map insertion at that id.
pub proof fn lemma_map_of_update(s: Seq<TaskView>, i: int, t: TaskView)
    requires
        distinct_ids(s),
        0 <= i < s.len(),
        s[i].id == t.id,
    ensures
        map_of(s.update(i, t)) == map_of(s).insert(t.id, t),
    decreases s.len(),
{
    let u = s.update(i, t);
    if i == s.len() - 1 {
        assert(u.drop_last() =~= s.drop_last());
        assert(map_of(u) =~= map_of(s).insert(t.id, t));
    } else {
        assert(distinct_ids(s.drop_last()));
        assert(u.drop_last() =~= s.drop_last().update(i, t));
        lemma_map_of_update(s.drop_last(), i, t);
        assert(u.last() == s.last());
        assert(s.last().id != t.id);
        assert(map_of(u) =~= map_of(s).insert(t.id, t));
    }
}

/// Appending a record whose id is fresh denotes a plain map insertion.
pub proof fn lemma_map_of_push(s: Seq<TaskView>, t: TaskView)
    ensures
        map_of(s.push(t)) == map_of(s).insert(t.id, t),
{
    assert(s.push(t).drop_last() =~= s);
    assert(s.push(t).last() == t);
    assert(map_of(s.push(t)) =~= map_of(s).insert(t.id, t));
}

/// Removing the record at an index denotes removal of its id from the map,
/// provided ids are pairwise distinct.
pub proof fn lemma_map_of_remove(s: Seq<TaskView>, i: int)
    requires
        distinct_ids(s),
        0 <= i < s.len(),
    ensures
        map_of(s.remove(i)) == map_of(s).remove(s[i].id),
    decreases s.len(),
{
    let r = s.remove(i);
    if i == s.len() - 1 {
        assert(r =~= s.drop_last());
        assert(distinct_ids(s.drop_last()));
        lemma_map_of_contains(s.drop_last(), s[i].id);
        assert forall|j: int| 0 <= j < s.drop_last().len() implies #[trigger] s.drop_last()[j].id
            != s[i].id by {
            assert(s[j].id != s[i].id);
        }
        assert(!map_of(s.drop_last()).dom().contains(s[i].id));
        assert(map_of(r) =~= map_of(s).remove(s[i].id));
    } else {
        assert(distinct_ids(s.drop_last()));
        assert(r.drop_last() =~= s.drop_last().remove(i));
        assert(r.last() == s.last());
        lemma_map_of_remove(s.drop_last(), i);
        assert(s.last().id != s[i].id);
        assert(map_of(r) =~= map_of(s).remove(s[i].id));
    }
}

/// Removing an id that is not in the map leaves the map unchanged. Together
/// with `delete_task`'s contract this gives the idempotence of deletion.
pub proof fn lemma_remove_absent(m: Map<u64, TaskView>, id: u64)
    requires
        !m.dom().contains(id),
    ensures
        m.remove(id) == m,
{
    assert(m.remove(id) =~= m);
}

/// Upsert law: updating at `id` with payload `t` denotes exactly what
/// inserting the rekeyed record `with_id(t, id)` denotes, on any store
/// contents `m`.
pub proof fn lemma_update_is_insert(m: Map<u64, TaskView>, id: u64, t: TaskView)
    ensures
        m.insert(id, with_id(t, id)) == m.insert(with_id(t, id).id, with_id(t, id)),
{
}

/// Uniqueness law: inserting `t1` and then `t2` with the same id denotes the
/// same store as inserting `t2` alone; in particular the id maps to `t2`.
pub proof fn lemma_insert_same_id(m: Map<u64, TaskView>, t1: TaskView, t2: TaskView)
    requires
        t1.id == t2.id,
    ensures
        m.insert(t1.id, t1).insert(t2.id, t2) == m.insert(t2.id, t2),
        m.insert(t1.id, t1).insert(t2.id, t2)[t2.id] == t2,
{
    assert(m.insert(t1.id, t1).insert(t2.id, t2) =~= m.insert(t2.id, t2));
}

/// Round-trip law: saving a store and loading the resulting bytes back
/// yields a store with exactly the same contents, whatever sequence of
/// inserts, updates and deletes produced it.
pub proof fn lemma_save_load_round_trip(db: Db)
    ensures
        spec_load(codec::spec_ser_db(db.entries())) == Some(db@),
{
    codec::lemma_parse_ser_db(db.entries());
    assert(codec::spec_ser_db(db.entries()).len() > 0);
}

/// The in-memory task store. At most one record is held per id; inserting at
/// an id that is already present replaces the prior record.
pub struct Db {
    tasks: Vec<Task>,
}

impl View for Db {
    type V = Map<u64, TaskView>;

    open spec fn view(&self) -> Map<u64, TaskView> {
        map_of(self.entries())
    }
}

impl Db {
    /// The records currently held, in their internal order.
    pub closed spec fn entries(&self) -> Seq<TaskView> {
        self.tasks@.map_values(|t: Task| t@)
    }

    /// Internal well-formedness: the held records carry pairwise-distinct
    /// ids. Established by every constructor and preserved by every
    /// operation.
    pub open spec fn inv(&self) -> bool {
        distinct_ids(self.entries())
    }

    /// A fresh, empty store.
    pub fn new() -> (r: Self)
        ensures
            r.inv(),
            r@ == Map::<u64, TaskView>::empty(),
            r.entries() == Seq::<TaskView>::empty(),
    {
        let r = Db { tasks: Vec::new() };
        proof {
            assert(r.entries() =~= Seq::<TaskView>::empty());
        }
        r
    }

    /// Inserts the record at key `task.id`, replacing any prior record there.
    /// Always succeeds.
    #[verifier::loop_isolation(false)]
    pub fn insert_task(&mut self, task: Task)
        requires
            old(self).inv(),
        ensures
            final(self).inv(),
            final(self)@ == old(self)@.insert(task@.id, task@),
    {
        let ghost s0 = self.entries();
        let mut i: usize = 0;
        while i < self.tasks.len()
            invariant
                *self == *old(self),
                i <= self.tasks.len(),
                forall|j: int| 0 <= j < i ==> s0[j].id != task@.id,
            decreases self.tasks.len() - i,
        {
            if self.tasks[i].id == task.id {
                proof {
                    lemma_map_of_update(s0, i as int, task@);
                }
                self.tasks.set(i, task);
                proof {
                    assert(self.entries() =~= s0.update(i as int, task@));
                    assert forall|p: int, q: int|
                        0 <= p < q < self.entries().len() implies self.entries()[p].id
                        != self.entries()[q].id by {
                        assert(self.entries()[p].id == s0[p].id);
                        assert(self.entries()[q].id == s0[q].id);
                    }
                }
                return;
            }
            i += 1;
        }
        proof {
            lemma_map_of_push(s0, task@);
        }
        self.tasks.push(task);
        proof {
            assert(self.entries() =~= s0.push(task@));
            assert forall|p: int, q: int|
                0 <= p < q < self.entries().len() implies self.entries()[p].id
                != self.entries()[q].id by {
                if q == self.entries().len() - 1 {
                    assert(s0[p].id != task@.id);
                }
            }
        }
    }

    /// Looks up the record at `id`: `Some` exactly when a record is present,
    /// and then the record held at that id.
    #[verifier::loop_isolation(false)]
    pub fn get_task(&self, id: &u64) -> (r: Option<&Task>)
        requires
            self.inv(),
        ensures
            match r {
                Some(t) => self@.dom().contains(*id) && t@ == self@[*id],
                None => !self@.dom().contains(*id),
            },
    {
        let mut i: usize = 0;
        while i < self.tasks.len()
            invariant
                i <= self.tasks.len(),
                forall|j: int| 0 <= j < i ==> self.entries()[j].id != *id,
            decreases self.tasks.len() - i,
        {
            if self.tasks[i].id == *id {
                proof {
                    assert(self.entries()[i as int] == self.tasks@[i as int]@);
                    lemma_map_of_pair(self.entries(), i as int);
                }
                return Some(&self.tasks[i]);
            }
            i += 1;
        }
        proof {
            lemma_map_of_contains(self.entries(), *id);
        }
        None
    }

    /// Returns every record held, in an unspecified order: the returned
    /// records are exactly the store's entries.
    #[verifier::loop_isolation(false)]
    pub fn get_tasks(&self) -> (r: Vec<Task>)
        requires
            self.inv(),
        ensures
            r@.map_values(|t: Task| t@) == self.entries(),
            map_of(r@.map_values(|t: Task| t@)) == self@,
            distinct_ids(r@.map_values(|t: Task| t@)),
    {
        let mut out: Vec<Task> = Vec::new();
        let mut i: usize = 0;
        while i < self.tasks.len()
            invariant
                i <= self.tasks.len(),
                out@.len() == i,
                forall|j: int| 0 <= j < i ==> out@[j]@ == self.entries()[j],
            decreases self.tasks.len() - i,
        {
            out.push(self.tasks[i].clone());
            i += 1;
        }
        proof {
            assert(out@.map_values(|t: Task| t@) =~= self.entries());
        }
        out
    }

    /// Removes the record at `id` if one is present; does nothing otherwise.
    /// Deleting an absent id leaves the store unchanged, so deletion is
    /// idempotent.
    #[verifier::loop_isolation(false)]
    pub fn delete_task(&mut self, id: u64)
        requires
            old(self).inv(),
        ensures
            final(self).inv(),
            final(self)@ == old(self)@.remove(id),
            !old(self)@.dom().contains(id) ==> final(self)@ == old(self)@,
    {
        let ghost s0 = self.entries();
        let mut i: usize = 0;
        while i < self.tasks.len()
            invariant
                *self == *old(self),
                i <= self.tasks.len(),
                forall|j: int| 0 <= j < i ==> s0[j].id != id,
            decreases self.tasks.len() - i,
        {
            if self.tasks[i].id == id {
                proof {
                    lemma_map_of_remove(s0, i as int);
                }
                self.tasks.remove(i);
                proof {
                    assert(self.entries() =~= s0.remove(i as int));
                    assert forall|p: int, q: int|
                        0 <= p < q < self.entries().len() implies self.entries()[p].id
                        != self.entries()[q].id by {
                        let sp = if p < i { p } else { p + 1 };
                        let sq = if q < i { q } else { q + 1 };
                        assert(s0[sp].id != s0[sq].id);
                    }
                }
                return;
            }
            i += 1;
        }
        proof {
            lemma_map_of_contains(s0, id);
            lemma_remove_absent(map_of(s0), id);
        }
    }

    /// Replaces (or inserts, if absent) the record at `id` with the given
    /// payload, rekeyed to the path-supplied `id`: the payload's own id field
    /// is ignored in favour of `id`. Observably identical to inserting the
    /// rekeyed record.
    pub fn update_task(&mut self, id: u64, task: Task)
        requires
            old(self).inv(),
        ensures
            final(self).inv(),
            final(self)@ == old(self)@.insert(id, with_id(task@, id)),
    {
        let mut t = task;
        t.id = id;
        self.insert_task(t);
    }

    /// Serializes the store to the bytes of its persisted document.
    pub fn to_bytes(&self) -> (r: Vec<u8>)
        ensures
            r@ == codec::spec_ser_db(self.entries()),
            r@.len() > 0,
    {
        let out = codec::serialize_tasks(&self.tasks);
        proof {
            assert(codec::spec_ser_db(self.entries())[0] == 0x7bu8);
        }
        out
    }

    /// Reconstructs a store from the bytes of a persisted document. An empty
    /// document (zero bytes) yields an empty store without parsing;
    /// otherwise the document's records are loaded in order, and bytes that
    /// are not a well-formed document are an error.
    #[verifier::loop_isolation(false)]
    pub fn from_bytes(bytes: &Vec<u8>) -> (r: Result<Db, ParseError>)
        ensures
            match r {
                Ok(db) => db.inv() && spec_load(bytes@) == Some(db@),
                Err(_) => spec_load(bytes@) is None,
            },
            bytes@.len() == 0 ==> (r matches Ok(db) && db@ == Map::<u64, TaskView>::empty()),
    {
        if bytes.len() == 0 {
            return Ok(Db::new());
        }
        match codec::deserialize_tasks(bytes) {
            None => Err(ParseError),
            Some(tasks) => {
                let ghost vs = tasks@.map_values(|x: Task| x@);
                let mut db = Db::new();
                let mut i: usize = 0;
                while i < tasks.len()
                    invariant
                        db.inv(),
                        i <= tasks@.len(),
                        db@ == map_of(vs.take(i as int)),
                    decreases tasks@.len() - i,
                {
                    db.insert_task(tasks[i].clone());
                    proof {
                        assert(vs.take(i + 1).drop_last() =~= vs.take(i as int));
                        assert(vs.take(i + 1).last() == vs[i as int]);
                    }
                    i += 1;
                }
                proof {
                    assert(vs.take(vs.len() as int) =~= vs);
                }
                Ok(db)
            },
        }
    }
}

} // verus!
