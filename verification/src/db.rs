//! The store: sole owner of the key-value mapping. It applies one command
//! at a time, which is the system's only serialization point.

use vstd::prelude::*;
use vstd::pervasive::VecAdditionalExecFns;
use crate::command::{subvec, Command, CommandSpec};

verus! {

/// What the store replies to one command.
#[derive(Debug, PartialEq)]
pub enum DbResult {
    /// A write took effect.
    Written,
    /// Reserved for conditional writes; never currently produced.
    NotWritten,
    /// The key was present, with a copy of its value.
    Found(Vec<u8>),
    /// The key was absent.
    NotFound,
}

/// The mathematical model of a reply.
pub enum DbResultSpec {
    Written,
    NotWritten,
    Found(Seq<u8>),
    NotFound,
}

impl View for DbResult {
    type V = DbResultSpec;

    open spec fn view(&self) -> DbResultSpec {
        match self {
            DbResult::Written => DbResultSpec::Written,
            DbResult::NotWritten => DbResultSpec::NotWritten,
            DbResult::Found(v) => DbResultSpec::Found(v@),
            DbResult::NotFound => DbResultSpec::NotFound,
        }
    }
}

/// The value of the first entry keyed `k`, if any.
pub open spec fn lookup(es: Seq<(Vec<u8>, Vec<u8>)>, k: Seq<u8>) -> Option<Seq<u8>>
    decreases es.len(),
{
    if es.len() == 0 {
        None
    } else if es[0].0@ == k {
        Some(es[0].1@)
    } else {
        lookup(es.drop_first(), k)
    }
}

/// Entry keys are pairwise distinct.
pub open spec fn distinct_keys(es: Seq<(Vec<u8>, Vec<u8>)>) -> bool {
    forall|i: int, j: int| 0 <= i < j < es.len() ==> es[i].0@ != es[j].0@
}

/// If the first entry keyed `k` stands at index `i`, `lookup` yields its value.
proof fn lemma_lookup_first(es: Seq<(Vec<u8>, Vec<u8>)>, k: Seq<u8>, i: int)
    requires
        0 <= i < es.len(),
        es[i].0@ == k,
        forall|j: int| 0 <= j < i ==> es[j].0@ != k,
    ensures
        lookup(es, k) == Some(es[i].1@),
    decreases es.len(),
{
    if i == 0 {
    } else {
        let t = es.drop_first();
        assert(t[i - 1] == es[i]);
        assert forall|j: int| 0 <= j < i - 1 implies t[j].0@ != k by {
            assert(t[j] == es[j + 1]);
        }
        lemma_lookup_first(t, k, i - 1);
    }
}

/// If no entry is keyed `k`, `lookup` yields nothing.
proof fn lemma_lookup_absent(es: Seq<(Vec<u8>, Vec<u8>)>, k: Seq<u8>)
    requires
        forall|j: int| 0 <= j < es.len() ==> es[j].0@ != k,
    ensures
        lookup(es, k) is None,
    decreases es.len(),
{
    if es.len() == 0 {
    } else {
        let t = es.drop_first();
        assert forall|j: int| 0 <= j < t.len() implies t[j].0@ != k by {
            assert(t[j] == es[j + 1]);
        }
        lemma_lookup_absent(t, k);
    }
}

/// Appending an entry changes `lookup` only for a key not yet present.
proof fn lemma_lookup_push(es: Seq<(Vec<u8>, Vec<u8>)>, e: (Vec<u8>, Vec<u8>), k: Seq<u8>)
    ensures
        lookup(es.push(e), k) == if lookup(es, k) is Some {
            lookup(es, k)
        } else if e.0@ == k {
            Some(e.1@)
        } else {
            None
        },
    decreases es.len(),
{
    if es.len() == 0 {
        assert(es.push(e).len() == 1);
        assert(es.push(e)[0] == e);
        assert(es.push(e).drop_first() =~= Seq::<(Vec<u8>, Vec<u8>)>::empty());
        assert(lookup(es.push(e).drop_first(), k) is None);
        assert(lookup(es, k) is None);
        if e.0@ == k {
            assert(lookup(es.push(e), k) == Some(e.1@));
        } else {
            assert(lookup(es.push(e), k) is None);
        }
    } else {
        assert(es.push(e)[0] == es[0]);
        assert(es.push(e).drop_first() =~= es.drop_first().push(e));
        lemma_lookup_push(es.drop_first(), e, k);
    }
}

/// Replacing the sole entry keyed `e.0@` in place changes `lookup` for that
/// key alone.
proof fn lemma_lookup_update(es: Seq<(Vec<u8>, Vec<u8>)>, i: int, e: (Vec<u8>, Vec<u8>), k: Seq<u8>)
    requires
        0 <= i < es.len(),
        es[i].0@ == e.0@,
        forall|j: int| 0 <= j < es.len() && j != i ==> es[j].0@ != e.0@,
    ensures
        lookup(es.update(i, e), k) == if k == e.0@ {
            Some(e.1@)
        } else {
            lookup(es, k)
        },
    decreases es.len(),
{
    let u = es.update(i, e);
    if i == 0 {
        assert(u[0] == e);
        assert(u.drop_first() =~= es.drop_first());
    } else {
        assert(u[0] == es[0]);
        assert(u.drop_first() =~= es.drop_first().update(i - 1, e));
        let t = es.drop_first();
        assert(t[i - 1] == es[i]);
        assert forall|j: int| 0 <= j < t.len() && j != i - 1 implies t[j].0@ != e.0@ by {
            assert(t[j] == es[j + 1]);
        }
        lemma_lookup_update(t, i - 1, e, k);
    }
}

/// The store. Its view is the mapping it holds, from key bytes to value
/// bytes; every mutation goes through `put` or `apply`.
pub struct Db {
    entries: Vec<(Vec<u8>, Vec<u8>)>,
}

impl View for Db {
    type V = Map<Seq<u8>, Seq<u8>>;

    closed spec fn view(&self) -> Map<Seq<u8>, Seq<u8>> {
        Map::new(
            |k: Seq<u8>| lookup(self.entries@, k) is Some,
            |k: Seq<u8>| lookup(self.entries@, k)->Some_0,
        )
    }
}

impl Db {
    /// The store's internal invariant: keys are unique.
    pub closed spec fn wf(&self) -> bool {
        distinct_keys(self.entries@)
    }

    /// An empty store.
    pub fn new() -> (db: Db)
        ensures
            db.wf(),
            db@ == Map::<Seq<u8>, Seq<u8>>::empty(),
    {
        let db = Db { entries: Vec::new() };
        proof {
            assert(db@ =~= Map::<Seq<u8>, Seq<u8>>::empty());
        }
        db
    }

    /// Index of the entry keyed `k@`, if one is present.
    fn find_key(&self, k: &Vec<u8>) -> (r: Option<usize>)
        ensures
            match r {
                Some(i) => i < self.entries@.len() && self.entries@[i as int].0@ == k@
                    && lookup(self.entries@, k@) == Some(self.entries@[i as int].1@)
                    && (forall|j: int| 0 <= j < i ==> self.entries@[j].0@ != k@),
                None => lookup(self.entries@, k@) is None && (forall|j: int|
                    0 <= j < self.entries@.len() ==> self.entries@[j].0@ != k@),
            },
    {
        let mut i: usize = 0;
        while i < self.entries.len()
            invariant
                i <= self.entries@.len(),
                forall|j: int| 0 <= j < i ==> self.entries@[j].0@ != k@,
            decreases self.entries@.len() - i,
        {
            let e = &self.entries[i];
            if bytes_eq(&e.0, k) {
                proof {
                    lemma_lookup_first(self.entries@, k@, i as int);
                }
                return Some(i);
            }
            i = i + 1;
        }
        proof {
            lemma_lookup_absent(self.entries@, k@);
        }
        None
    }

    /// Look a key up; the stored value stays valid, so a copy is returned.
    pub fn get(&self, k: &Vec<u8>) -> (r: DbResult)
        ensures
            self@.contains_key(k@) ==> (r matches DbResult::Found(v) && v@ == self@[k@]),
            !self@.contains_key(k@) ==> r is NotFound,
    {
        match self.find_key(k) {
            Some(i) => {
                let e = &self.entries[i];
                DbResult::Found(copy_bytes(&e.1))
            },
            None => DbResult::NotFound,
        }
    }

    /// Insert or overwrite: last write wins, with no versioning.
    pub fn put(&mut self, k: Vec<u8>, v: Vec<u8>)
        requires
            old(self).wf(),
        ensures
            final(self).wf(),
            final(self)@ == old(self)@.insert(k@, v@),
    {
        let ghost es0 = self.entries@;
        let ghost kk = k@;
        let ghost vv = v@;
        match self.find_key(&k) {
            Some(i) => {
                self.entries.set(i, (k, v));
                proof {
                    let e = self.entries@[i as int];
                    assert forall|j: int| 0 <= j < es0.len() && j != i implies es0[j].0@ != e.0@ by {
                        if j < i {
                            assert(es0[j].0@ != kk);
                        }
                    }
                    assert forall|q: Seq<u8>|
                        lookup(self.entries@, q) == (if q == kk {
                            Some(vv)
                        } else {
                            lookup(es0, q)
                        }) by {
                        lemma_lookup_update(es0, i as int, e, q);
                    }
                    assert(self@ =~= old(self)@.insert(kk, vv));
                    assert forall|a: int, b: int|
                        0 <= a < b < self.entries@.len() implies self.entries@[a].0@
                        != self.entries@[b].0@ by {
                        assert(es0[a].0@ != es0[b].0@);
                    }
                }
            },
            None => {
                self.entries.push((k, v));
                proof {
                    let e = self.entries@[es0.len() as int];
                    assert forall|q: Seq<u8>|
                        lookup(self.entries@, q) == (if q == kk {
                            Some(vv)
                        } else {
                            lookup(es0, q)
                        }) by {
                        lemma_lookup_push(es0, e, q);
                        if q == kk {
                            lemma_lookup_absent(es0, q);
                        }
                    }
                    assert(self@ =~= old(self)@.insert(kk, vv));
                    assert forall|a: int, b: int|
                        0 <= a < b < self.entries@.len() implies self.entries@[a].0@
                        != self.entries@[b].0@ by {
                        if b < es0.len() {
                            assert(es0[a].0@ != es0[b].0@);
                        } else {
                            assert(es0[a].0@ != kk);
                        }
                    }
                }
            },
        }
    }

    /// Apply one command: a lookup replies `Found` or `NotFound`; a write
    /// inserts last-write-wins and replies `Written`.
    pub fn apply(&mut self, cmd: Command) -> (r: DbResult)
        requires
            old(self).wf(),
        ensures
            final(self).wf(),
            final(self)@ == apply_spec(old(self)@, cmd@).0,
            r@ == apply_spec(old(self)@, cmd@).1,
    {
        match cmd {
            Command::Get(k) => self.get(&k),
            Command::Put(k, v) => {
                self.put(k, v);
                DbResult::Written
            },
        }
    }
}

/// What applying one command to a mapping yields: the new mapping and the
/// reply owed for it.
pub open spec fn apply_spec(m: Map<Seq<u8>, Seq<u8>>, c: CommandSpec) -> (
    Map<Seq<u8>, Seq<u8>>,
    DbResultSpec,
) {
    match c {
        CommandSpec::Get(k) => (
            m,
            if m.contains_key(k) {
                DbResultSpec::Found(m[k])
            } else {
                DbResultSpec::NotFound
            },
        ),
        CommandSpec::Put(k, v) => (m.insert(k, v), DbResultSpec::Written),
    }
}

/// Round-trip: a write of `v` under `k` followed by a lookup of `k` yields
/// `v`, byte for byte, whatever the store held before.
pub proof fn lemma_put_then_get(m: Map<Seq<u8>, Seq<u8>>, k: Seq<u8>, v: Seq<u8>)
    ensures
        apply_spec(apply_spec(m, CommandSpec::Put(k, v)).0, CommandSpec::Get(k)).1
            == DbResultSpec::Found(v),
{
}

/// Overwrite: two writes under one key; the later value wins.
pub proof fn lemma_overwrite(m: Map<Seq<u8>, Seq<u8>>, k: Seq<u8>, v1: Seq<u8>, v2: Seq<u8>)
    ensures
        apply_spec(
            apply_spec(apply_spec(m, CommandSpec::Put(k, v1)).0, CommandSpec::Put(k, v2)).0,
            CommandSpec::Get(k),
        ).1 == DbResultSpec::Found(v2),
{
}

/// Missing key: on the empty store every lookup replies `NotFound`.
pub proof fn lemma_get_missing(k: Seq<u8>)
    ensures
        apply_spec(Map::<Seq<u8>, Seq<u8>>::empty(), CommandSpec::Get(k)).1
            == DbResultSpec::NotFound,
{
}

/// A serial batch of writes folded over a mapping, in order.
pub open spec fn run_puts(m: Map<Seq<u8>, Seq<u8>>, ops: Seq<(Seq<u8>, Seq<u8>)>) -> Map<
    Seq<u8>,
    Seq<u8>,
>
    decreases ops.len(),
{
    if ops.len() == 0 {
        m
    } else {
        run_puts(m.insert(ops[0].0, ops[0].1), ops.drop_first())
    }
}

/// A batch of writes leaves every key it never touches alone.
pub proof fn lemma_run_puts_frame(m: Map<Seq<u8>, Seq<u8>>, ops: Seq<(Seq<u8>, Seq<u8>)>, k: Seq<u8>)
    requires
        forall|j: int| 0 <= j < ops.len() ==> ops[j].0 != k,
    ensures
        run_puts(m, ops).contains_key(k) == m.contains_key(k),
        m.contains_key(k) ==> run_puts(m, ops)[k] == m[k],
    decreases ops.len(),
{
    if ops.len() == 0 {
    } else {
        let t = ops.drop_first();
        assert forall|j: int| 0 <= j < t.len() implies t[j].0 != k by {
            assert(t[j] == ops[j + 1]);
        }
        lemma_run_puts_frame(m.insert(ops[0].0, ops[0].1), t, k);
    }
}

/// No lost updates: after writes with pairwise distinct keys land in any
/// one serial order — such as the store's dequeue order when several
/// connections write disjoint keys — the mapping holds every key written,
/// with the value written for it.
pub proof fn lemma_no_lost_updates(m: Map<Seq<u8>, Seq<u8>>, ops: Seq<(Seq<u8>, Seq<u8>)>)
    requires
        forall|i: int, j: int| 0 <= i < j < ops.len() ==> ops[i].0 != ops[j].0,
    ensures
        forall|i: int| 0 <= i < ops.len() ==> run_puts(m, ops).contains_key(ops[i].0)
            && run_puts(m, ops)[ops[i].0] == ops[i].1,
    decreases ops.len(),
{
    if ops.len() == 0 {
    } else {
        let m1 = m.insert(ops[0].0, ops[0].1);
        let t = ops.drop_first();
        assert forall|a: int, b: int| 0 <= a < b < t.len() implies t[a].0 != t[b].0 by {
            assert(t[a] == ops[a + 1]);
            assert(t[b] == ops[b + 1]);
        }
        lemma_no_lost_updates(m1, t);
        assert forall|j: int| 0 <= j < t.len() implies t[j].0 != ops[0].0 by {
            assert(t[j] == ops[j + 1]);
        }
        lemma_run_puts_frame(m1, t, ops[0].0);
        let done = run_puts(m, ops);
        assert forall|i: int|
            0 <= i < ops.len() implies done.contains_key(ops[i].0) && done[ops[i].0]
            == ops[i].1 by {
            if i > 0 {
                assert(t[i - 1] == ops[i]);
            }
        }
    }
}

/// Bytewise equality of two byte vectors.
pub fn bytes_eq(a: &Vec<u8>, b: &Vec<u8>) -> (r: bool)
    ensures
        r <==> a@ == b@,
{
    if a.len() != b.len() {
        return false;
    }
    let mut i: usize = 0;
    while i < a.len()
        invariant
            i <= a@.len(),
            a@.len() == b@.len(),
            forall|j: int| 0 <= j < i ==> a@[j] == b@[j],
        decreases a@.len() - i,
    {
        if a[i] != b[i] {
            return false;
        }
        i = i + 1;
    }
    proof {
        assert(a@ =~= b@);
    }
    true
}

/// An owned copy of a byte vector.
pub fn copy_bytes(v: &Vec<u8>) -> (r: Vec<u8>)
    ensures
        r@ == v@,
{
    let n: usize = v.len();
    let r = subvec(v, 0, n);
    proof {
        assert(v@.subrange(0, v@.len() as int) =~= v@);
    }
    r
}

} // verus!
