use vstd::prelude::*;
use vstd::string::StringExecFns;
use crate::error::{Error, Result};
use crate::text::{hex_text, hexadecimal};

verus! {

/// The 64-bit hash of an id that std's default hasher gives.
pub uninterp spec fn id_hash_of(id: Seq<char>) -> u64;

/// Relies on std's `BuildHasher::hash_one`, over the default builder of
/// `DefaultHasher`: every `DefaultHasher` made this way hashes alike, with no
/// per-process seed, so the hash depends on the id alone.
#[verifier::external_body]
fn id_hash(id: &str) -> (r: u64)
    ensures
        r == id_hash_of(id@),
{
    std::hash::BuildHasher::hash_one(
        &std::hash::BuildHasherDefault::<std::collections::hash_map::DefaultHasher>::default(),
        id,
    )
}

/// The checksum recorded for a step: the hash of its id in lower-case
/// hexadecimal. It depends on the id alone, not on what the step does.
pub fn calculate_checksum(id: &str) -> (r: String)
    ensures
        r@ == hexadecimal(id_hash_of(id@) as nat),
{
    let h = id_hash(id);
    hex_text(h)
}

/// The bookkeeping record of one applied step.
#[derive(Debug, Clone)]
pub struct Migration {
    /// The id of the step.
    pub id: String,
    /// The name of the step.
    pub name: String,
    /// When the step was applied, in nanoseconds since the Unix epoch.
    pub applied_at: i64,
    /// The checksum of the step's id.
    pub checksum: String,
}

/// A registered step, by id and name. The actions that apply and revert it
/// are kept by the caller, in the same order.
#[derive(Debug, Clone)]
pub struct MigrationFile {
    /// The id of the step.
    pub id: String,
    /// The name of the step.
    pub name: String,
}

/// Whether some record carries the id `id`.
pub open spec fn has_id(recs: Seq<Migration>, id: Seq<char>) -> bool {
    exists|i: int| 0 <= i < recs.len() && #[trigger] recs[i].id@ == id
}

/// Whether no two records carry the same id.
pub open spec fn ids_unique(recs: Seq<Migration>) -> bool {
    forall|i: int, j: int|
        0 <= i < recs.len() && 0 <= j < recs.len() && i != j ==> #[trigger] recs[i].id@
            != #[trigger] recs[j].id@
}

/// The position of the record with id `id`, when there is one.
pub open spec fn position_of(recs: Seq<Migration>, id: Seq<char>) -> int {
    choose|i: int| 0 <= i < recs.len() && #[trigger] recs[i].id@ == id
}

/// The records after `m` is recorded: it replaces the record with its id,
/// or is added after the others.
pub open spec fn with_record(recs: Seq<Migration>, m: Migration) -> Seq<Migration> {
    if has_id(recs, m.id@) {
        recs.update(position_of(recs, m.id@), m)
    } else {
        recs.push(m)
    }
}

/// The records after the one with id `id`, if any, is taken out.
pub open spec fn without_id(recs: Seq<Migration>, id: Seq<char>) -> Seq<Migration> {
    if has_id(recs, id) {
        recs.remove(position_of(recs, id))
    } else {
        recs
    }
}

/// The records after each of `news` is recorded in turn.
pub open spec fn with_records(recs: Seq<Migration>, news: Seq<Migration>) -> Seq<Migration>
    decreases news.len(),
{
    if news.len() == 0 {
        recs
    } else {
        with_record(with_records(recs, news.drop_last()), news.last())
    }
}

/// The positions, in registration order, of the registered steps whose id
/// has no record.
pub open spec fn pending_positions(regs: Seq<MigrationFile>, recs: Seq<Migration>) -> Seq<usize>
    decreases regs.len(),
{
    if regs.len() == 0 {
        Seq::empty()
    } else {
        let rest = pending_positions(regs.drop_last(), recs);
        if has_id(recs, regs.last().id@) {
            rest
        } else {
            rest.push((regs.len() - 1) as usize)
        }
    }
}

/// The set of applied steps, one record per id.
#[derive(Debug, Clone)]
pub struct AppliedMigrations {
    records: Vec<Migration>,
}

impl View for AppliedMigrations {
    type V = Seq<Migration>;

    closed spec fn view(&self) -> Seq<Migration> {
        self.records@
    }
}

impl AppliedMigrations {
    /// Well-formed: no two records carry the same id.
    pub closed spec fn wf(&self) -> bool {
        ids_unique(self.records@)
    }

    /// No step applied.
    pub fn new() -> (r: Self)
        ensures
            r.wf(),
            r@.len() == 0,
    {
        AppliedMigrations { records: Vec::new() }
    }

    /// The records, in the order they were first recorded.
    pub fn records(&self) -> (r: &Vec<Migration>)
        requires
            self.wf(),
        ensures
            r@ == self@,
            ids_unique(self@),
    {
        &self.records
    }

    /// The position of the record with id `id`, if there is one.
    pub fn position(&self, id: &String) -> (r: Option<usize>)
        requires
            self.wf(),
        ensures
            r is None <==> !has_id(self@, id@),
            r matches Some(p) ==> p < self@.len() && self@[p as int].id@ == id@ && p
                == position_of(self@, id@),
    {
        let mut i: usize = 0;
        while i < self.records.len()
            invariant
                i <= self.records@.len(),
                ids_unique(self.records@),
                forall|j: int| 0 <= j < i ==> #[trigger] self.records@[j].id@ != id@,
            decreases self.records@.len() - i,
        {
            if self.records[i].id == *id {
                proof {
                    let p = position_of(self@, id@);
                    assert(self.records@[i as int].id@ == id@);
                    assert(p == i);
                }
                return Some(i);
            }
            i = i + 1;
        }
        None
    }

    /// Records `m`, replacing the record with its id if there is one.
    pub fn record(&mut self, m: Migration)
        requires
            old(self).wf(),
        ensures
            final(self).wf(),
            final(self)@ == with_record(old(self)@, m),
    {
        match self.position(&m.id) {
            Some(p) => {
                self.records.set(p, m);
            },
            None => {
                self.records.push(m);
            },
        }
    }

    /// Takes out the record with id `id`, if there is one.
    pub fn remove(&mut self, id: &String)
        requires
            old(self).wf(),
        ensures
            final(self).wf(),
            final(self)@ == without_id(old(self)@, id@),
    {
        match self.position(id) {
            Some(p) => {
                self.records.remove(p);
                assert(self.records@ =~= old(self)@.remove(p as int));
            },
            None => {},
        }
    }

    /// The applied set made of `records`, each recorded in turn, so that a
    /// later record replaces an earlier one with the same id.
    pub fn from_records(records: &Vec<Migration>) -> (r: Self)
        ensures
            r.wf(),
            r@ == with_records(Seq::empty(), records@),
    {
        let mut r = AppliedMigrations::new();
        let mut i: usize = 0;
        assert(r@ =~= with_records(Seq::empty(), records@.take(0)));
        while i < records.len()
            invariant
                i <= records@.len(),
                r.wf(),
                r@ == with_records(Seq::empty(), records@.take(i as int)),
            decreases records@.len() - i,
        {
            proof {
                assert(records@.take(i + 1).drop_last() =~= records@.take(i as int));
            }
            r.record(copy_record(&records[i]));
            i = i + 1;
        }
        assert(records@.take(records@.len() as int) =~= records@);
        r
    }
}

/// A copy of `m`.
pub fn copy_record(m: &Migration) -> (r: Migration)
    ensures
        r == *m,
{
    Migration {
        id: m.id.clone(),
        name: m.name.clone(),
        applied_at: m.applied_at,
        checksum: m.checksum.clone(),
    }
}

/// Whether `r` lists the `n` most recently applied records (all of them if
/// there are fewer), most recent first: no position twice, applied times not
/// increasing along `r`, and no record left out that was applied later than
/// one taken.
pub open spec fn recency_order(recs: Seq<Migration>, n: nat, r: Seq<usize>) -> bool {
    &&& r.len() == (if n < recs.len() {
        n
    } else {
        recs.len()
    })
    &&& forall|k: int| 0 <= k < r.len() ==> #[trigger] r[k] < recs.len()
    &&& r.no_duplicates()
    &&& forall|a: int, b: int|
        0 <= a < b < r.len() ==> #[trigger] recs[r[a] as int].applied_at >= #[trigger] recs[r[b] as int].applied_at
    &&& forall|p: int, k: int|
        0 <= p < recs.len() && !r.contains(p as usize) && 0 <= k < r.len() ==> #[trigger] recs[p].applied_at
            <= #[trigger] recs[r[k] as int].applied_at
}

impl AppliedMigrations {
    /// The positions of the `n` most recently applied records (all of them
    /// if there are fewer), most recent first: the order of a rollback.
    pub fn most_recent(&self, n: usize) -> (r: Vec<usize>)
        ensures
            recency_order(self@, n as nat, r@),
    {
        let len = self.records.len();
        let ghost recs = self.records@;
        let mut out: Vec<usize> = Vec::new();
        let mut i: usize = 0;
        while i < len
            invariant
                len == recs.len(),
                recs == self.records@,
                i <= len,
                out@.len() == i,
                out@.no_duplicates(),
                forall|k: int| 0 <= k < out@.len() ==> #[trigger] out@[k] < i,
                forall|p: int| 0 <= p < i ==> #[trigger] out@.contains(p as usize),
                forall|a: int, b: int|
                    0 <= a < b < out@.len() ==> #[trigger] recs[out@[a] as int].applied_at
                        >= #[trigger] recs[out@[b] as int].applied_at,
            decreases len - i,
        {
            let at = self.records[i].applied_at;
            let mut j: usize = out.len();
            while j > 0 && self.records[out[j - 1]].applied_at < at
                invariant
                    j <= out@.len(),
                    len == recs.len(),
                    recs == self.records@,
                    i < len,
                    at == recs[i as int].applied_at,
                    forall|k: int| 0 <= k < out@.len() ==> #[trigger] out@[k] < i,
                    forall|k: int| j <= k < out@.len() ==> #[trigger] recs[out@[k] as int].applied_at < at,
                decreases j,
            {
                j = j - 1;
            }
            let ghost old_out = out@;
            out.insert(j, i);
            proof {
                old_out.insert_ensures(j as int, i);
                assert forall|a: int, b: int|
                    0 <= a < b < out@.len() implies #[trigger] recs[out@[a] as int].applied_at
                        >= #[trigger] recs[out@[b] as int].applied_at by {
                    if a < j && b == j {
                        assert(recs[old_out[j - 1] as int].applied_at >= at);
                        if a < j - 1 {
                            assert(recs[old_out[a] as int].applied_at >= recs[old_out[j - 1] as int].applied_at);
                        }
                    } else if a < j && b > j {
                        assert(out@[b] == old_out[b - 1]);
                    } else if a == j {
                        assert(out@[b] == old_out[b - 1]);
                    } else if a > j {
                        assert(out@[a] == old_out[a - 1]);
                        assert(out@[b] == old_out[b - 1]);
                    }
                }
                assert forall|a: int, b: int|
                    0 <= a < out@.len() && 0 <= b < out@.len() && a != b implies out@[a]
                    != out@[b] by {
                    if a != j && b != j {
                        let a1 = if a < j { a } else { a - 1 };
                        let b1 = if b < j { b } else { b - 1 };
                        assert(out@[a] == old_out[a1]);
                        assert(out@[b] == old_out[b1]);
                    } else if a == j {
                        let b1 = if b < j { b } else { b - 1 };
                        assert(out@[b] == old_out[b1]);
                    } else {
                        let a1 = if a < j { a } else { a - 1 };
                        assert(out@[a] == old_out[a1]);
                    }
                }
                assert forall|k: int| 0 <= k < out@.len() implies #[trigger] out@[k] < i + 1 by {
                    if k < j {
                    } else if k > j {
                        assert(out@[k] == old_out[k - 1]);
                    }
                }
                assert forall|p: int| 0 <= p < i + 1 implies #[trigger] out@.contains(p as usize) by {
                    if p == i {
                        assert(out@[j as int] == i);
                    } else {
                        assert(old_out.contains(p as usize));
                        let k = choose|k: int| 0 <= k < old_out.len() && old_out[k] == p as usize;
                        if k < j {
                            assert(out@[k] == p as usize);
                        } else {
                            assert(out@[k + 1] == p as usize);
                        }
                    }
                }
            }
            i = i + 1;
        }
        let ghost full = out@;
        if n < len {
            out.truncate(n);
        }
        proof {
            assert(out@ =~= full.take(out@.len() as int));
            assert forall|p: int, k: int|
                0 <= p < recs.len() && !out@.contains(p as usize) && 0 <= k < out@.len() implies #[trigger] recs[p].applied_at
                    <= #[trigger] recs[out@[k] as int].applied_at by {
                assert(full.contains(p as usize));
                let m = choose|m: int| 0 <= m < full.len() && full[m] == p as usize;
                if m < out@.len() {
                    assert(out@[m] == p as usize);
                }
                assert(full[k] == out@[k]);
            }
            assert forall|a: int, b: int|
                0 <= a < out@.len() && 0 <= b < out@.len() && a != b implies out@[a] != out@[b] by {
                assert(full[a] == out@[a] && full[b] == out@[b]);
            }
            assert forall|a: int, b: int|
                0 <= a < b < out@.len() implies #[trigger] recs[out@[a] as int].applied_at
                    >= #[trigger] recs[out@[b] as int].applied_at by {
                assert(full[a] == out@[a] && full[b] == out@[b]);
            }
        }
        out
    }
}

/// Whether some registered step carries the id `id`.
pub open spec fn is_registered(regs: Seq<MigrationFile>, id: Seq<char>) -> bool {
    exists|i: int| 0 <= i < regs.len() && #[trigger] regs[i].id@ == id
}

/// Whether no two registered steps carry the same id.
pub open spec fn registrations_unique(regs: Seq<MigrationFile>) -> bool {
    forall|i: int, j: int|
        0 <= i < regs.len() && 0 <= j < regs.len() && i != j ==> #[trigger] regs[i].id@
            != #[trigger] regs[j].id@
}

/// Whether `i` is the position of the first registered step with id `id`.
pub open spec fn is_first_registration(regs: Seq<MigrationFile>, id: Seq<char>, i: int) -> bool {
    &&& 0 <= i < regs.len()
    &&& regs[i].id@ == id
    &&& forall|j: int| 0 <= j < i ==> #[trigger] regs[j].id@ != id
}

/// The position of the first registered step with id `id`, if any.
pub open spec fn first_registration(regs: Seq<MigrationFile>, id: Seq<char>) -> Option<int> {
    if exists|i: int| 0 <= i < regs.len() && #[trigger] regs[i].id@ == id {
        Some(choose|i: int| is_first_registration(regs, id, i))
    } else {
        None
    }
}

/// The steps that a rollback over the records at `order` reverts, in that
/// order: for each record, the first registered step with its id, the id,
/// and the record's name. A record whose id is no longer registered is
/// passed over.
pub open spec fn rollback_steps(
    regs: Seq<MigrationFile>,
    recs: Seq<Migration>,
    order: Seq<usize>,
) -> Seq<(int, Seq<char>, Seq<char>)>
    decreases order.len(),
{
    if order.len() == 0 {
        Seq::empty()
    } else {
        let rest = rollback_steps(regs, recs, order.drop_last());
        let m = recs[order.last() as int];
        match first_registration(regs, m.id@) {
            Some(i) => rest.push((i, m.id@, m.name@)),
            None => rest,
        }
    }
}

/// One step of a rollback: the registered step to revert, and the record
/// that goes once it is reverted.
#[derive(Debug, Clone)]
pub struct RollbackStep {
    /// The position of the registered step.
    pub index: usize,
    /// The id of the record.
    pub id: String,
    /// The name of the record.
    pub name: String,
}

/// What a rollback plan says, as plain values.
pub open spec fn steps_view(plan: Seq<RollbackStep>) -> Seq<(int, Seq<char>, Seq<char>)> {
    plan.map_values(|s: RollbackStep| (s.index as int, s.id@, s.name@))
}

/// Where a registered step stands.
#[derive(Debug, Clone)]
pub enum MigrationStatus {
    /// The step has a record: its name, and when it was applied.
    Applied { name: String, applied_at: i64 },
    /// The step has no record yet.
    Pending { name: String },
}

/// Whether `entry` tells truly where the registered `step` stands among
/// the records `recs`: under the step's id, applied (with the time of its
/// record) when a record carries that id, pending otherwise, and under the
/// step's name either way.
pub open spec fn reports(step: MigrationFile, recs: Seq<Migration>, entry: (String, MigrationStatus)) -> bool {
    &&& entry.0@ == step.id@
    &&& match entry.1 {
        MigrationStatus::Applied { name, applied_at } => {
            &&& has_id(recs, step.id@)
            &&& name@ == step.name@
            &&& applied_at == recs[position_of(recs, step.id@)].applied_at
        },
        MigrationStatus::Pending { name } => !has_id(recs, step.id@) && name@ == step.name@,
    }
}

/// The registered steps, in the order they were added.
pub struct MigrationManager {
    migrations: Vec<MigrationFile>,
}

impl View for MigrationManager {
    type V = Seq<MigrationFile>;

    closed spec fn view(&self) -> Seq<MigrationFile> {
        self.migrations@
    }
}

impl Default for MigrationManager {
    fn default() -> (r: Self)
        ensures
            r@.len() == 0,
            registrations_unique(r@),
    {
        Self::new()
    }
}

impl MigrationManager {
    /// No step registered.
    pub fn new() -> (r: Self)
        ensures
            r@.len() == 0,
            registrations_unique(r@),
    {
        MigrationManager { migrations: Vec::new() }
    }

    /// Registers a step after those already held. An id that is already
    /// registered is refused, and nothing changes; so no two registered
    /// steps share an id.
    pub fn add_migration(&mut self, id: &str, name: &str) -> (r: Result<()>)
        ensures
            registrations_unique(old(self)@) ==> registrations_unique(final(self)@),
            is_registered(old(self)@, id@) ==> final(self)@ == old(self)@ && (r matches Err(
                Error::Other(m),
            ) && m@ == "Migration already registered: "@ + id@),
            !is_registered(old(self)@, id@) ==> {
                &&& r is Ok
                &&& final(self)@.len() == old(self)@.len() + 1
                &&& final(self)@.drop_last() == old(self)@
                &&& final(self)@.last().id@ == id@
                &&& final(self)@.last().name@ == name@
            },
    {
        let key = String::from_str(id);
        match self.registration_of(&key) {
            Some(_) => {
                proof { reveal_strlit("Migration already registered: "); }
                let mut msg = String::from_str("Migration already registered: ");
                msg.append(id);
                Err(Error::Other(msg))
            },
            None => {
                self.migrations.push(MigrationFile { id: key, name: String::from_str(name) });
                assert(final(self)@.drop_last() =~= old(self)@);
                assert forall|i: int| 0 <= i < old(self)@.len() implies #[trigger] final(self)@[i].id@ != id@ by {
                    assert(final(self)@[i] == old(self)@[i]);
                }
                Ok(())
            },
        }
    }

    /// The registered steps, in registration order.
    pub fn migrations(&self) -> (r: &Vec<MigrationFile>)
        ensures
            r@ == self@,
    {
        &self.migrations
    }

    /// The positions of the registered steps that are not applied yet, in
    /// registration order: the steps that a migration run applies.
    pub fn pending(&self, applied: &AppliedMigrations) -> (r: Vec<usize>)
        requires
            applied.wf(),
        ensures
            r@ == pending_positions(self@, applied@),
            forall|k: int| 0 <= k < r@.len() ==> #[trigger] r@[k] < self@.len(),
    {
        let mut out: Vec<usize> = Vec::new();
        let mut i: usize = 0;
        while i < self.migrations.len()
            invariant
                i <= self.migrations@.len(),
                applied.wf(),
                out@ == pending_positions(self.migrations@.take(i as int), applied@),
                forall|k: int| 0 <= k < out@.len() ==> #[trigger] out@[k] < i,
            decreases self.migrations@.len() - i,
        {
            proof {
                let t = self.migrations@.take(i + 1);
                assert(t.drop_last() =~= self.migrations@.take(i as int));
                assert(t.last() == self.migrations@[i as int]);
            }
            if applied.position(&self.migrations[i].id).is_none() {
                out.push(i);
            }
            i = i + 1;
        }
        assert(self.migrations@.take(self.migrations@.len() as int) =~= self.migrations@);
        out
    }

    /// The record of applying the registered step at `index` at the time
    /// `applied_at`.
    pub fn migration_record(&self, index: usize, applied_at: i64) -> (r: Migration)
        requires
            index < self@.len(),
        ensures
            r.id@ == self@[index as int].id@,
            r.name@ == self@[index as int].name@,
            r.applied_at == applied_at,
            r.checksum@ == hexadecimal(id_hash_of(self@[index as int].id@) as nat),
    {
        let step = &self.migrations[index];
        Migration {
            id: step.id.clone(),
            name: step.name.clone(),
            applied_at,
            checksum: calculate_checksum(step.id.as_str()),
        }
    }
}

impl MigrationManager {
    /// The position of the first registered step with id `id`, if any.
    pub fn registration_of(&self, id: &String) -> (r: Option<usize>)
        ensures
            match r {
                Some(i) => first_registration(self@, id@) == Some(i as int),
                None => first_registration(self@, id@) is None,
            },
    {
        let mut i: usize = 0;
        while i < self.migrations.len()
            invariant
                i <= self.migrations@.len(),
                forall|j: int| 0 <= j < i ==> #[trigger] self.migrations@[j].id@ != id@,
            decreases self.migrations@.len() - i,
        {
            if self.migrations[i].id == *id {
                proof {
                    let regs = self@;
                    assert(is_first_registration(regs, id@, i as int));
                    let c = choose|c: int| is_first_registration(regs, id@, c);
                    if c < i {
                        assert(regs[c].id@ != id@);
                    }
                    if c > i {
                        assert(regs[i as int].id@ != id@);
                    }
                }
                return Some(i);
            }
            i = i + 1;
        }
        None
    }

    /// The steps that rolling back the `steps` most recently applied
    /// records reverts, most recent first. Records whose step is no longer
    /// registered are passed over and stay applied.
    pub fn rollback_plan(&self, applied: &AppliedMigrations, steps: usize) -> (r: Vec<RollbackStep>)
        requires
            applied.wf(),
        ensures
            exists|order: Seq<usize>|
                recency_order(applied@, steps as nat, order) && steps_view(r@) == rollback_steps(
                    self@,
                    applied@,
                    order,
                ),
    {
        let order = applied.most_recent(steps);
        let recs = applied.records();
        let mut plan: Vec<RollbackStep> = Vec::new();
        let mut k: usize = 0;
        assert(steps_view(plan@) =~= rollback_steps(self@, applied@, order@.take(0)));
        while k < order.len()
            invariant
                k <= order@.len(),
                recency_order(applied@, steps as nat, order@),
                recs@ == applied@,
                steps_view(plan@) == rollback_steps(self@, applied@, order@.take(k as int)),
            decreases order@.len() - k,
        {
            proof {
                let t = order@.take(k + 1);
                assert(t.drop_last() =~= order@.take(k as int));
                assert(t.last() == order@[k as int]);
            }
            let m = &recs[order[k]];
            match self.registration_of(&m.id) {
                Some(i) => {
                    let ghost before = plan@;
                    plan.push(RollbackStep { index: i, id: m.id.clone(), name: m.name.clone() });
                    assert(steps_view(plan@) =~= steps_view(before).push(
                        (i as int, m.id@, m.name@),
                    ));
                },
                None => {},
            }
            k = k + 1;
        }
        assert(order@.take(order@.len() as int) =~= order@);
        plan
    }

    /// Where each registered step stands, in registration order, by id.
    pub fn status(&self, applied: &AppliedMigrations) -> (r: Vec<(String, MigrationStatus)>)
        requires
            applied.wf(),
        ensures
            r@.len() == self@.len(),
            forall|i: int| 0 <= i < r@.len() ==> reports(self@[i], applied@, #[trigger] r@[i]),
    {
        let recs = applied.records();
        let mut out: Vec<(String, MigrationStatus)> = Vec::new();
        let mut i: usize = 0;
        while i < self.migrations.len()
            invariant
                i <= self.migrations@.len(),
                applied.wf(),
                recs@ == applied@,
                out@.len() == i,
                forall|j: int| 0 <= j < i ==> reports(self@[j], applied@, #[trigger] out@[j]),
            decreases self.migrations@.len() - i,
        {
            let step = &self.migrations[i];
            let st = match applied.position(&step.id) {
                Some(p) => MigrationStatus::Applied {
                    name: step.name.clone(),
                    applied_at: recs[p].applied_at,
                },
                None => MigrationStatus::Pending { name: step.name.clone() },
            };
            out.push((step.id.clone(), st));
            i = i + 1;
        }
        out
    }
}

proof fn lemma_with_record_ids(recs: Seq<Migration>, m: Migration, id: Seq<char>)
    ensures
        has_id(with_record(recs, m), id) <==> (has_id(recs, id) || id == m.id@),
{
    let r = with_record(recs, m);
    if has_id(recs, m.id@) {
        let p = position_of(recs, m.id@);
        if has_id(recs, id) {
            let i = choose|i: int| 0 <= i < recs.len() && #[trigger] recs[i].id@ == id;
            if i == p {
                assert(r[p].id@ == id);
            } else {
                assert(r[i].id@ == id);
            }
        }
        if id == m.id@ {
            assert(r[p].id@ == id);
        }
        if has_id(r, id) {
            let i = choose|i: int| 0 <= i < r.len() && #[trigger] r[i].id@ == id;
            if i != p {
                assert(recs[i].id@ == id);
            }
        }
    } else {
        if has_id(recs, id) {
            let i = choose|i: int| 0 <= i < recs.len() && #[trigger] recs[i].id@ == id;
            assert(r[i].id@ == id);
        }
        if id == m.id@ {
            assert(r[recs.len() as int].id@ == id);
        }
        if has_id(r, id) {
            let i = choose|i: int| 0 <= i < r.len() && #[trigger] r[i].id@ == id;
            if i < recs.len() {
                assert(recs[i].id@ == id);
            }
        }
    }
}

proof fn lemma_with_records_ids(recs: Seq<Migration>, news: Seq<Migration>, id: Seq<char>)
    ensures
        has_id(with_records(recs, news), id) <==> (has_id(recs, id) || exists|k: int|
            0 <= k < news.len() && #[trigger] news[k].id@ == id),
    decreases news.len(),
{
    if news.len() > 0 {
        let before = news.drop_last();
        lemma_with_records_ids(recs, before, id);
        lemma_with_record_ids(with_records(recs, before), news.last(), id);
        if exists|k: int| 0 <= k < news.len() && #[trigger] news[k].id@ == id {
            let k = choose|k: int| 0 <= k < news.len() && #[trigger] news[k].id@ == id;
            if k < before.len() {
                assert(before[k].id@ == id);
            }
        }
        if exists|k: int| 0 <= k < before.len() && #[trigger] before[k].id@ == id {
            let k = choose|k: int| 0 <= k < before.len() && #[trigger] before[k].id@ == id;
            assert(news[k].id@ == id);
        }
    }
}

proof fn lemma_pending_members(regs: Seq<MigrationFile>, recs: Seq<Migration>, i: int)
    requires
        0 <= i < regs.len(),
        regs.len() <= usize::MAX,
        !has_id(recs, regs[i].id@),
    ensures
        pending_positions(regs, recs).contains(i as usize),
    decreases regs.len(),
{
    let rest = pending_positions(regs.drop_last(), recs);
    if i == regs.len() - 1 {
        assert(pending_positions(regs, recs)[rest.len() as int] == i as usize);
    } else {
        assert(regs.drop_last()[i] == regs[i]);
        lemma_pending_members(regs.drop_last(), recs, i);
        let k = choose|k: int| 0 <= k < rest.len() && rest[k] == i as usize;
        assert(pending_positions(regs, recs)[k] == i as usize);
    }
}

proof fn lemma_pending_none(regs: Seq<MigrationFile>, recs: Seq<Migration>)
    requires
        forall|i: int| 0 <= i < regs.len() ==> has_id(recs, #[trigger] regs[i].id@),
    ensures
        pending_positions(regs, recs).len() == 0,
    decreases regs.len(),
{
    if regs.len() > 0 {
        assert(has_id(recs, regs[regs.len() - 1].id@));
        assert forall|i: int| 0 <= i < regs.drop_last().len() implies has_id(
            recs,
            #[trigger] regs.drop_last()[i].id@,
        ) by {
            assert(regs.drop_last()[i] == regs[i]);
        }
        lemma_pending_none(regs.drop_last(), recs);
    }
}

/// A migration run is idempotent: once a record has been made for each
/// pending step, in any order and at any times, nothing is pending, so a
/// second run applies no step and reports none.
pub proof fn lemma_migrate_twice_applies_nothing(
    regs: Seq<MigrationFile>,
    recs: Seq<Migration>,
    news: Seq<Migration>,
)
    requires
        regs.len() <= usize::MAX,
        news.len() == pending_positions(regs, recs).len(),
        forall|k: int|
            0 <= k < news.len() ==> #[trigger] news[k].id@ == regs[pending_positions(
                regs,
                recs,
            )[k] as int].id@,
    ensures
        pending_positions(regs, with_records(recs, news)).len() == 0,
{
    let plan = pending_positions(regs, recs);
    let after = with_records(recs, news);
    assert forall|i: int| 0 <= i < regs.len() implies has_id(after, #[trigger] regs[i].id@) by {
        lemma_with_records_ids(recs, news, regs[i].id@);
        if !has_id(recs, regs[i].id@) {
            lemma_pending_members(regs, recs, i);
            let k = choose|k: int| 0 <= k < plan.len() && plan[k] == i as usize;
            assert(news[k].id@ == regs[i].id@);
        }
    }
    lemma_pending_none(regs, after);
}

proof fn lemma_latest_prefix(recs: Seq<Migration>, n: nat, r: Seq<usize>, k: int)
    requires
        recs.len() <= usize::MAX,
        recency_order(recs, n, r),
        forall|a: int, b: int|
            0 <= a < b < recs.len() ==> #[trigger] recs[a].applied_at < #[trigger] recs[b].applied_at,
        0 <= k < r.len(),
    ensures
        forall|j: int| 0 <= j <= k ==> #[trigger] r[j] == recs.len() - 1 - j,
    decreases k,
{
    if k > 0 {
        lemma_latest_prefix(recs, n, r, k - 1);
    }
    let q = recs.len() - 1 - k;
    assert(r[k] < recs.len());
    if k > 0 {
        assert(r[k - 1] == recs.len() - k);
        assert(recs[r[k - 1] as int].applied_at >= recs[r[k] as int].applied_at);
        assert(r[k - 1] != r[k]);
    }
    if r[k] < q {
        assert(!r.contains(q as usize)) by {
            if r.contains(q as usize) {
                let j = choose|j: int| 0 <= j < r.len() && r[j] == q as usize;
                if j < k {
                    assert(r[j] == recs.len() - 1 - j);
                } else if j > k {
                    assert(recs[r[k] as int].applied_at >= recs[r[j] as int].applied_at);
                    assert(recs[r[k] as int].applied_at < recs[q].applied_at);
                }
            }
        }
        assert(recs[q].applied_at <= recs[r[k] as int].applied_at);
        assert(recs[r[k] as int].applied_at < recs[q].applied_at);
    }
    if r[k] > q {
        if k > 0 {
            assert(recs[r[k] as int].applied_at > recs[r[k - 1] as int].applied_at);
        }
    }
}

/// Rollback undoes the latest steps first: when the records were applied
/// one after another, each later than the one before, rolling back `n` of
/// them takes the last `n` records, the latest first.
pub proof fn lemma_rollback_takes_latest(recs: Seq<Migration>, n: nat, r: Seq<usize>)
    requires
        recs.len() <= usize::MAX,
        recency_order(recs, n, r),
        forall|a: int, b: int|
            0 <= a < b < recs.len() ==> #[trigger] recs[a].applied_at < #[trigger] recs[b].applied_at,
    ensures
        forall|k: int| 0 <= k < r.len() ==> #[trigger] r[k] == recs.len() - 1 - k,
{
    if r.len() > 0 {
        lemma_latest_prefix(recs, n, r, r.len() - 1);
    }
}

/// The records left once the ids of `plan` are taken out, one after another.
pub open spec fn without_planned(
    recs: Seq<Migration>,
    plan: Seq<(int, Seq<char>, Seq<char>)>,
) -> Seq<Migration>
    decreases plan.len(),
{
    if plan.len() == 0 {
        recs
    } else {
        without_id(without_planned(recs, plan.drop_last()), plan.last().1)
    }
}

proof fn lemma_rollback_prefix(
    regs: Seq<MigrationFile>,
    recs: Seq<Migration>,
    order: Seq<usize>,
    m: int,
)
    requires
        ids_unique(recs),
        registrations_unique(regs),
        forall|i: int| 0 <= i < recs.len() ==> is_registered(regs, #[trigger] recs[i].id@),
        order.len() <= recs.len(),
        forall|k: int| 0 <= k < order.len() ==> #[trigger] order[k] == recs.len() - 1 - k,
        0 <= m <= order.len(),
    ensures
        rollback_steps(regs, recs, order.take(m)).len() == m,
        forall|k: int|
            0 <= k < m ==> {
                let e = #[trigger] rollback_steps(regs, recs, order.take(m))[k];
                &&& e.1 == recs[recs.len() - 1 - k].id@
                &&& e.2 == recs[recs.len() - 1 - k].name@
                &&& 0 <= e.0 < regs.len()
                &&& regs[e.0].id@ == e.1
            },
        without_planned(recs, rollback_steps(regs, recs, order.take(m))) == recs.take(
            recs.len() - m,
        ),
    decreases m,
{
    if m == 0 {
        assert(order.take(0) =~= Seq::<usize>::empty());
        assert(recs.take(recs.len() as int) =~= recs);
    } else {
        lemma_rollback_prefix(regs, recs, order, m - 1);
        let t = order.take(m);
        assert(t.drop_last() =~= order.take(m - 1));
        assert(t.last() == order[m - 1]);
        let p = recs.len() - m;
        let rec = recs[p];
        let id = rec.id@;
        assert(is_registered(regs, recs[p].id@));
        let j = choose|j: int| 0 <= j < regs.len() && #[trigger] regs[j].id@ == id;
        assert(is_first_registration(regs, id, j)) by {
            assert forall|q: int| 0 <= q < j implies #[trigger] regs[q].id@ != id by {
                assert(regs[q].id@ != regs[j].id@);
            }
        }
        let c = choose|c: int| is_first_registration(regs, id, c);
        assert(is_first_registration(regs, id, c));
        let prev = rollback_steps(regs, recs, order.take(m - 1));
        let plan = rollback_steps(regs, recs, t);
        assert(plan == prev.push((c, id, rec.name@)));
        let kept = recs.take(p + 1);
        assert(kept[p] == rec);
        assert(has_id(kept, id));
        let pos = position_of(kept, id);
        assert(pos == p) by {
            if pos != p {
                assert(kept[pos] == recs[pos]);
                assert(recs[pos].id@ != recs[p].id@);
            }
        }
        assert(kept.remove(p) =~= recs.take(p));
        assert(plan.drop_last() =~= prev);
    }
}

/// Rollback reverts the latest steps, latest first, and leaves the rest:
/// when every record's step is registered (no id twice) and the records
/// were applied one after another, each later than the one before, rolling
/// back `n` of them reverts the registered steps of the last `n` records,
/// the latest first, and taking out their records leaves exactly the ones
/// applied before them, unchanged.
pub proof fn lemma_rollback_reverts_latest(
    regs: Seq<MigrationFile>,
    recs: Seq<Migration>,
    n: nat,
    order: Seq<usize>,
)
    requires
        recs.len() <= usize::MAX,
        ids_unique(recs),
        registrations_unique(regs),
        forall|a: int, b: int|
            0 <= a < b < recs.len() ==> #[trigger] recs[a].applied_at < #[trigger] recs[b].applied_at,
        forall|i: int| 0 <= i < recs.len() ==> is_registered(regs, #[trigger] recs[i].id@),
        recency_order(recs, n, order),
    ensures
        rollback_steps(regs, recs, order).len() == order.len(),
        forall|k: int|
            0 <= k < order.len() ==> {
                let e = #[trigger] rollback_steps(regs, recs, order)[k];
                &&& e.1 == recs[recs.len() - 1 - k].id@
                &&& e.2 == recs[recs.len() - 1 - k].name@
                &&& 0 <= e.0 < regs.len()
                &&& regs[e.0].id@ == e.1
            },
        without_planned(recs, rollback_steps(regs, recs, order)) == recs.take(
            recs.len() - order.len(),
        ),
{
    lemma_rollback_takes_latest(recs, n, order);
    lemma_rollback_prefix(regs, recs, order, order.len() as int);
    assert(order.take(order.len() as int) =~= order);
}

} // verus!
