//! The schema migrator: brings a database from whatever version it is at up
//! to the latest version declared in a migration list, applying each step
//! exactly once, in ascending version order, and stopping at the first
//! failure.

use vstd::multiset::Multiset;
use vstd::prelude::*;

use crate::database::Database;
use crate::migration::Migration;
use crate::migration::all_valid;
use crate::migration::lemma_scripts_push;
use crate::migration::lemma_versions_push;
use crate::migration::lemma_versions_remove;
use crate::migration::scripts_of;
use crate::migration::sorted_strict;
use crate::migration::versions_of;
use crate::migration::wf_list;

verus! {

broadcast use vstd::seq_lib::group_to_multiset_ensures, vstd::multiset::group_multiset_axioms;

/// Why a migration run cannot proceed or did not complete.
#[derive(Clone, Copy, PartialEq, Eq, Structural, Debug)]
pub enum MigrationError {
    /// A migration in the list has version 0; versions must be positive.
    ZeroVersion,
    /// Two migrations in the list carry this same version.
    DuplicateVersion { version: u64 },
    /// The script of this version failed to apply; the run stops there.
    ScriptFailed { version: u64 },
}

/// The first `k` entries of `bs` all report success.
pub open spec fn all_true_upto(bs: Seq<bool>, k: int) -> bool {
    forall|j: int| 0 <= j < k ==> bs[j]
}

/// The migrations of `ms` whose version is not yet in `applied`, in list
/// order. These are the steps an application run still has to execute.
pub open spec fn pending_of(ms: Seq<Migration>, applied: Seq<u64>) -> Seq<Migration>
    decreases ms.len(),
{
    if ms.len() == 0 {
        Seq::empty()
    } else if applied.contains(ms.last().version) {
        pending_of(ms.drop_last(), applied)
    } else {
        pending_of(ms.drop_last(), applied).push(ms.last())
    }
}

/// The applied-version record after a run that executes every pending
/// migration of `ms` successfully: the old record, extended by the pending
/// versions in list order.
pub open spec fn applied_after(ms: Seq<Migration>, applied: Seq<u64>) -> Seq<u64> {
    applied + versions_of(pending_of(ms, applied))
}

/// The schema state after a run that executes every pending migration of
/// `ms` successfully: the old state, extended by the pending scripts in
/// list order.
pub open spec fn schema_after(
    ms: Seq<Migration>,
    applied: Seq<u64>,
    schema: Seq<Seq<char>>,
) -> Seq<Seq<char>> {
    schema + scripts_of(pending_of(ms, applied))
}

/// There are never more pending migrations than migrations.
pub proof fn lemma_pending_len(ms: Seq<Migration>, applied: Seq<u64>)
    ensures
        pending_of(ms, applied).len() <= ms.len(),
    decreases ms.len(),
{
    if ms.len() > 0 {
        lemma_pending_len(ms.drop_last(), applied);
    }
}

/// No pending migration is already recorded as applied.
pub proof fn lemma_pending_not_applied(ms: Seq<Migration>, applied: Seq<u64>)
    ensures
        forall|k: int|
            0 <= k < pending_of(ms, applied).len()
                ==> !applied.contains(#[trigger] pending_of(ms, applied)[k].version),
    decreases ms.len(),
{
    if ms.len() > 0 {
        lemma_pending_not_applied(ms.drop_last(), applied);
    }
}

/// Every pending version is a version of the migration list.
pub proof fn lemma_pending_in_list(ms: Seq<Migration>, applied: Seq<u64>)
    ensures
        forall|k: int|
            0 <= k < pending_of(ms, applied).len()
                ==> versions_of(ms).contains(
                (#[trigger] pending_of(ms, applied)[k]).version,
            ),
    decreases ms.len(),
{
    if ms.len() > 0 {
        lemma_pending_in_list(ms.drop_last(), applied);
        let p = pending_of(ms, applied);
        assert forall|k: int| 0 <= k < p.len() implies versions_of(ms).contains(
            (#[trigger] p[k]).version,
        ) by {
            let pd = pending_of(ms.drop_last(), applied);
            if k < pd.len() {
                assert(versions_of(ms.drop_last()).contains(pd[k].version));
                let w = choose|w: int|
                    0 <= w < versions_of(ms.drop_last()).len() && versions_of(ms.drop_last())[w]
                        == pd[k].version;
                assert(versions_of(ms)[w] == pd[k].version);
            } else {
                assert(p[k] == ms.last());
                assert(versions_of(ms)[ms.len() - 1] == ms.last().version);
            }
        }
    }
}

/// Selecting the pending migrations keeps them in ascending version order.
pub proof fn lemma_pending_sorted(ms: Seq<Migration>, applied: Seq<u64>)
    requires
        sorted_strict(versions_of(ms)),
    ensures
        sorted_strict(versions_of(pending_of(ms, applied))),
    decreases ms.len(),
{
    if ms.len() > 0 {
        assert forall|i: int, j: int|
            0 <= i < j < versions_of(ms.drop_last()).len() implies versions_of(ms.drop_last())[i]
            < versions_of(ms.drop_last())[j] by {
            assert(versions_of(ms)[i] < versions_of(ms)[j]);
        }
        lemma_pending_sorted(ms.drop_last(), applied);
        lemma_pending_in_list(ms.drop_last(), applied);
        let p = pending_of(ms, applied);
        let pd = pending_of(ms.drop_last(), applied);
        assert forall|i: int, j: int| 0 <= i < j < versions_of(p).len() implies versions_of(p)[i]
            < versions_of(p)[j] by {
            if j < pd.len() {
                assert(versions_of(pd)[i] < versions_of(pd)[j]);
            } else {
                assert(p[j] == ms.last());
                assert(versions_of(ms.drop_last()).contains(pd[i].version));
                let w = choose|w: int|
                    0 <= w < versions_of(ms.drop_last()).len() && versions_of(ms.drop_last())[w]
                        == pd[i].version;
                assert(versions_of(ms)[w] == pd[i].version);
                assert(versions_of(ms)[w] < versions_of(ms)[ms.len() - 1]);
            }
        }
    }
}

/// Sort a duplicate-free migration list into ascending version order by
/// repeatedly moving the migration with the smallest version across.
fn sort_by_version(input: Vec<Migration>) -> (r: Vec<Migration>)
    requires
        versions_of(input@).no_duplicates(),
    ensures
        r@.to_multiset() == input@.to_multiset(),
        versions_of(r@).to_multiset() == versions_of(input@).to_multiset(),
        sorted_strict(versions_of(r@)),
        r@.len() == input@.len(),
{
    let ghost ms0 = input@;
    let mut rest = input;
    let mut out: Vec<Migration> = Vec::new();
    proof {
        assert(out@.to_multiset() =~= Multiset::<Migration>::empty());
        assert(out@.to_multiset().add(rest@.to_multiset()) =~= ms0.to_multiset());
        assert(versions_of(out@) =~= Seq::<u64>::empty());
        assert(versions_of(out@).to_multiset() =~= Multiset::<u64>::empty());
        assert(versions_of(out@).to_multiset().add(versions_of(rest@).to_multiset())
            =~= versions_of(ms0).to_multiset());
    }
    while rest.len() > 0
        invariant
            out@.to_multiset().add(rest@.to_multiset()) == ms0.to_multiset(),
            versions_of(out@).to_multiset().add(versions_of(rest@).to_multiset())
                == versions_of(ms0).to_multiset(),
            versions_of(ms0).no_duplicates(),
            sorted_strict(versions_of(out@)),
            forall|k: int, l: int|
                0 <= k < out@.len() && 0 <= l < rest@.len() ==> out@[k].version < rest@[l].version,
        decreases rest.len(),
    {
        let n = rest.len();
        let mut min_idx: usize = 0;
        let mut j: usize = 1;
        while j < n
            invariant
                n == rest@.len(),
                0 < n,
                min_idx < j <= n,
                forall|k: int| 0 <= k < j ==> rest@[min_idx as int].version <= rest@[k].version,
            decreases n - j,
        {
            if rest[j].version < rest[min_idx].version {
                min_idx = j;
            }
            j += 1;
        }
        let ghost rest_old = rest@;
        let ghost out_old = out@;
        let m = rest.remove(min_idx);
        out.push(m);
        proof {
            lemma_versions_remove(rest_old, min_idx as int);
            lemma_versions_push(out_old, m);
            assert(rest_old[min_idx as int] == m);
            assert(rest_old.contains(m));
            assert(rest@ == rest_old.remove(min_idx as int));
            assert(rest@.to_multiset() == rest_old.to_multiset().remove(m));
            assert(out@.to_multiset() == out_old.to_multiset().insert(m));
            assert(rest_old.to_multiset().count(m) > 0);
            assert(out@.to_multiset().add(rest@.to_multiset()) =~= out_old.to_multiset().add(
                rest_old.to_multiset(),
            ));
            assert(versions_of(rest@) == versions_of(rest_old).remove(min_idx as int));
            assert(versions_of(out@) == versions_of(out_old).push(m.version));
            assert(versions_of(rest_old)[min_idx as int] == m.version);
            assert(versions_of(rest@).to_multiset() == versions_of(rest_old).to_multiset().remove(
                m.version,
            ));
            assert(versions_of(out@).to_multiset() == versions_of(out_old).to_multiset().insert(
                m.version,
            ));
            assert(versions_of(out@).to_multiset().add(versions_of(rest@).to_multiset())
                =~= versions_of(out_old).to_multiset().add(versions_of(rest_old).to_multiset()));

            // versions within `rest_old` are pairwise distinct
            versions_of(ms0).lemma_multiset_has_no_duplicates();
            assert forall|x: u64|
                versions_of(rest_old).to_multiset().contains(x) implies versions_of(
                rest_old,
            ).to_multiset().count(x) == 1 by {
                assert(versions_of(out_old).to_multiset().add(
                    versions_of(rest_old).to_multiset(),
                ).count(x) == versions_of(ms0).to_multiset().count(x));
                assert(versions_of(ms0).to_multiset().count(x) > 0);
                assert(versions_of(ms0).contains(x));
                assert(versions_of(ms0).to_multiset().count(x) == 1);
            }
            versions_of(rest_old).lemma_multiset_has_no_duplicates_conv();

            // the removed migration's version is strictly below the remainder
            assert forall|l: int| 0 <= l < rest@.len() implies m.version < rest@[l].version by {
                if l < min_idx {
                    assert(rest@[l] == rest_old[l]);
                    assert(versions_of(rest_old)[l] != versions_of(rest_old)[min_idx as int]);
                } else {
                    assert(rest@[l] == rest_old[l + 1]);
                    assert(versions_of(rest_old)[l + 1] != versions_of(rest_old)[min_idx as int]);
                }
            }
            assert forall|k: int, l: int|
                0 <= k < out@.len() && 0 <= l < rest@.len() implies out@[k].version
                < rest@[l].version by {
                if k < out_old.len() {
                    assert(out@[k] == out_old[k]);
                    if l < min_idx {
                        assert(rest@[l] == rest_old[l]);
                    } else {
                        assert(rest@[l] == rest_old[l + 1]);
                    }
                } else {
                    assert(out@[k] == m);
                }
            }
            assert forall|i: int, j2: int|
                0 <= i < j2 < versions_of(out@).len() implies versions_of(out@)[i] < versions_of(
                out@,
            )[j2] by {
                if j2 < out_old.len() {
                    assert(versions_of(out_old)[i] < versions_of(out_old)[j2]);
                } else {
                    assert(out@[j2] == m);
                    assert(out_old[i].version < rest_old[min_idx as int].version);
                }
            }
        }
    }
    proof {
        assert(rest@ =~= Seq::<Migration>::empty());
        assert(rest@.to_multiset() =~= Multiset::<Migration>::empty());
        assert(versions_of(rest@) =~= Seq::<u64>::empty());
        assert(versions_of(rest@).to_multiset() =~= Multiset::<u64>::empty());
        assert(out@.to_multiset() =~= ms0.to_multiset());
        assert(versions_of(out@).to_multiset() =~= versions_of(ms0).to_multiset());
        assert(out@.to_multiset().len() == ms0.to_multiset().len());
    }
    out
}

/// A version that stands later in a strictly ascending list is never a
/// pending version of the part before it.
proof fn lemma_new_version_not_pending(ms: Seq<Migration>, a: Seq<u64>, i: int)
    requires
        sorted_strict(versions_of(ms)),
        0 <= i < ms.len(),
    ensures
        !versions_of(pending_of(ms.take(i), a)).contains(ms[i].version),
{
    lemma_pending_in_list(ms.take(i), a);
    let p = pending_of(ms.take(i), a);
    if versions_of(p).contains(ms[i].version) {
        let k = choose|k: int| 0 <= k < versions_of(p).len() && versions_of(p)[k] == ms[i].version;
        assert(versions_of(ms.take(i)).contains(p[k].version));
        let w = choose|w: int|
            0 <= w < versions_of(ms.take(i)).len() && versions_of(ms.take(i))[w] == p[k].version;
        assert(versions_of(ms)[w] == versions_of(ms)[i]);
        assert(false);
    }
}

/// The pending migrations of a list split at `i` are the pending migrations
/// of the part before `i` followed by those of the part from `i` on.
proof fn lemma_pending_split(ms: Seq<Migration>, a: Seq<u64>, i: int)
    requires
        0 <= i <= ms.len(),
    ensures
        pending_of(ms, a) == pending_of(ms.take(i), a) + pending_of(ms.skip(i), a),
    decreases ms.len(),
{
    if i == ms.len() {
        assert(ms.take(i) =~= ms);
        assert(ms.skip(i) =~= Seq::<Migration>::empty());
        assert(pending_of(ms, a) =~= pending_of(ms.take(i), a) + pending_of(ms.skip(i), a));
    } else {
        lemma_pending_split(ms.drop_last(), a, i);
        assert(ms.skip(i).drop_last() =~= ms.drop_last().skip(i));
        assert(ms.skip(i).last() == ms.last());
        assert(ms.drop_last().take(i) =~= ms.take(i));
        if a.contains(ms.last().version) {
            assert(pending_of(ms, a) =~= pending_of(ms.take(i), a) + pending_of(ms.skip(i), a));
        } else {
            assert(pending_of(ms, a) == pending_of(ms.drop_last(), a).push(ms.last()));
            assert(pending_of(ms.skip(i), a) == pending_of(ms.drop_last().skip(i), a).push(
                ms.last(),
            ));
            assert(pending_of(ms, a) =~= pending_of(ms.take(i), a) + pending_of(ms.skip(i), a));
        }
    }
}

/// If the first migration of a list is not yet applied, it is the first
/// pending migration.
proof fn lemma_pending_first(ms: Seq<Migration>, a: Seq<u64>)
    requires
        ms.len() > 0,
        !a.contains(ms[0].version),
    ensures
        pending_of(ms, a).len() > 0,
        pending_of(ms, a)[0] == ms[0],
    decreases ms.len(),
{
    if ms.len() == 1 {
        assert(ms.last() == ms[0]);
        assert(pending_of(ms.drop_last(), a).len() == 0);
        assert(pending_of(ms, a) == pending_of(ms.drop_last(), a).push(ms[0]));
    } else {
        assert(ms.drop_last()[0] == ms[0]);
        lemma_pending_first(ms.drop_last(), a);
        let pd = pending_of(ms.drop_last(), a);
        if a.contains(ms.last().version) {
            assert(pending_of(ms, a) == pd);
        } else {
            assert(pending_of(ms, a) == pd.push(ms.last()));
            assert(pending_of(ms, a)[0] == pd[0]);
        }
    }
}

/// One step of the per-migration state machine: execute the script of a
/// not-yet-applied migration as one atomic unit. If the execution outcome
/// is success, the version is recorded as applied and the schema gains the
/// script; on failure nothing changes and the step reports which version
/// failed.
pub fn apply_step(db: &mut Database, m: &Migration, script_ok: bool) -> (r: Result<
    (),
    MigrationError,
>)
    requires
        old(db).wf(),
        old(db).has_tracking(),
        m.valid(),
        !old(db).applied().contains(m.version),
    ensures
        final(db).wf(),
        final(db).has_tracking(),
        script_ok ==> {
            &&& final(db).applied() == old(db).applied().push(m.version)
            &&& final(db).schema_log() == old(db).schema_log().push(m.script@)
            &&& r == Ok::<(), MigrationError>(())
        },
        !script_ok ==> {
            &&& final(db).applied() == old(db).applied()
            &&& final(db).schema_log() == old(db).schema_log()
            &&& r == Err::<(), MigrationError>(
                (MigrationError::ScriptFailed { version: m.version }),
            )
        },
{
    if script_ok {
        db.execute(&m.script);
        db.record(m.version);
        Ok(())
    } else {
        Err(MigrationError::ScriptFailed { version: m.version })
    }
}

/// The schema migrator: a validated migration list, held in ascending
/// version order.
pub struct Migrator {
    migrations: Vec<Migration>,
}

impl View for Migrator {
    type V = Seq<Migration>;

    closed spec fn view(&self) -> Seq<Migration> {
        self.migrations@
    }
}

impl Migrator {
    /// The held list is valid and strictly ascending by version.
    pub open spec fn wf(self) -> bool {
        wf_list(self@)
    }

    /// Validate a migration list and order it by ascending version.
    ///
    /// Succeeds exactly when every version is positive and no version
    /// occurs twice; the migrator then holds the same migrations, sorted.
    /// The list may be supplied in any order.
    pub fn new(list: Vec<Migration>) -> (r: Result<Migrator, MigrationError>)
        ensures
            r is Ok <==> all_valid(list@) && versions_of(list@).no_duplicates(),
            r matches Ok(mg) ==> {
                &&& mg.wf()
                &&& mg@.to_multiset() == list@.to_multiset()
                &&& versions_of(mg@).to_multiset() == versions_of(list@).to_multiset()
                &&& mg@.len() == list@.len()
            },
            r == Err::<Migrator, MigrationError>(MigrationError::ZeroVersion) <==> !all_valid(
                list@,
            ),
            r matches Err(MigrationError::DuplicateVersion { version }) ==> {
                &&& all_valid(list@)
                &&& exists|i: int, j: int|
                    0 <= i < j < list@.len() && #[trigger] list@[i].version == version
                        && #[trigger] list@[j].version == version
            },
            r is Err ==> r == Err::<Migrator, MigrationError>(MigrationError::ZeroVersion)
                || r matches Err(MigrationError::DuplicateVersion { .. }),
    {
        let n = list.len();
        let mut i: usize = 0;
        while i < n
            invariant
                n == list@.len(),
                i <= n,
                forall|k: int| 0 <= k < i ==> (#[trigger] list@[k]).valid(),
            decreases n - i,
        {
            if list[i].version == 0 {
                return Err(MigrationError::ZeroVersion);
            }
            i += 1;
        }
        let mut a: usize = 0;
        while a < n
            invariant
                n == list@.len(),
                a <= n,
                all_valid(list@),
                forall|k: int, l: int|
                    0 <= k < a && k < l < n ==> list@[k].version != list@[l].version,
            decreases n - a,
        {
            let mut b: usize = a + 1;
            while b < n
                invariant
                    n == list@.len(),
                    a < n,
                    a < b <= n,
                    all_valid(list@),
                    forall|l: int| a < l < b ==> list@[a as int].version != list@[l].version,
                decreases n - b,
            {
                if list[a].version == list[b].version {
                    proof {
                        assert(versions_of(list@)[a as int] == versions_of(list@)[b as int]);
                    }
                    return Err(MigrationError::DuplicateVersion { version: list[a].version });
                }
                b += 1;
            }
            a += 1;
        }
        proof {
            assert forall|i2: int, j2: int|
                0 <= i2 < versions_of(list@).len() && 0 <= j2 < versions_of(list@).len() && i2
                    != j2 implies versions_of(list@)[i2] != versions_of(list@)[j2] by {
                if i2 < j2 {
                    assert(list@[i2].version != list@[j2].version);
                } else {
                    assert(list@[j2].version != list@[i2].version);
                }
            }
        }
        let ghost list0 = list@;
        let sorted_list = sort_by_version(list);
        proof {
            // every migration of the sorted list is valid
            assert forall|k: int| 0 <= k < sorted_list@.len() implies (
            #[trigger] sorted_list@[k]).valid() by {
                let v = sorted_list@[k].version;
                assert(versions_of(sorted_list@)[k] == v);
                assert(versions_of(sorted_list@).contains(v));
                assert(versions_of(sorted_list@).to_multiset().count(v) > 0);
                assert(versions_of(list0).to_multiset().count(v) > 0);
                assert(versions_of(list0).contains(v));
                let w = choose|w: int|
                    0 <= w < versions_of(list0).len() && versions_of(list0)[w] == v;
                assert(list0[w].valid());
            }
        }
        Ok(Migrator { migrations: sorted_list })
    }

    /// How many migrations the migrator holds.
    pub fn migration_count(&self) -> (r: usize)
        ensures
            r == self@.len(),
    {
        self.migrations.len()
    }

    /// The `i`-th migration, in ascending version order.
    pub fn migration_at(&self, i: usize) -> (r: &Migration)
        requires
            i < self@.len(),
        ensures
            *r == self@[i as int],
    {
        &self.migrations[i]
    }

    /// The versions the database still has to receive, in ascending order.
    pub fn pending_versions(&self, db: &Database) -> (r: Vec<u64>)
        requires
            self.wf(),
            db.wf(),
        ensures
            r@ == versions_of(pending_of(self@, db.applied())),
    {
        let n = self.migrations.len();
        let mut r: Vec<u64> = Vec::new();
        proof {
            assert(self@.take(0) =~= Seq::<Migration>::empty());
            assert(r@ =~= versions_of(pending_of(self@.take(0), db.applied())));
        }
        let mut i: usize = 0;
        while i < n
            invariant
                self.wf(),
                db.wf(),
                n == self@.len(),
                i <= n,
                r@ == versions_of(pending_of(self@.take(i as int), db.applied())),
            decreases n - i,
        {
            let m = &self.migrations[i];
            let already = db.is_applied(m.version);
            proof {
                assert(self@.take(i + 1).drop_last() =~= self@.take(i as int));
                assert(self@.take(i + 1).last() == self@[i as int]);
            }
            if !already {
                r.push(m.version);
            }
            proof {
                let pd = pending_of(self@.take(i as int), db.applied());
                if !db.applied().contains(self@[i as int].version) {
                    assert(pending_of(self@.take(i + 1), db.applied()) == pd.push(
                        self@[i as int],
                    ));
                    lemma_versions_push(pd, self@[i as int]);
                } else {
                    assert(pending_of(self@.take(i + 1), db.applied()) == pd);
                }
            }
            i += 1;
        }
        proof {
            assert(self@.take(n as int) =~= self@);
        }
        r
    }

    /// Bring the database up to the latest declared version.
    ///
    /// Creates the tracking structure if it does not exist, then executes
    /// every migration whose version is not yet recorded, in ascending
    /// version order, recording each as applied. Every model execution
    /// succeeds, so the run applies exactly the pending migrations and
    /// reports how many there were.
    pub fn apply(&self, db: &mut Database) -> (r: Result<usize, MigrationError>)
        requires
            self.wf(),
            old(db).wf(),
        ensures
            final(db).wf(),
            final(db).has_tracking(),
            final(db).applied() == applied_after(self@, old(db).applied()),
            final(db).schema_log() == schema_after(
                self@,
                old(db).applied(),
                old(db).schema_log(),
            ),
            r == Ok::<usize, MigrationError>(
                pending_of(self@, old(db).applied()).len() as usize,
            ),
    {
        db.ensure_tracking();
        let ghost a0 = old(db).applied();
        let ghost s0 = old(db).schema_log();
        let n = self.migrations.len();
        let mut count: usize = 0;
        proof {
            assert(self@.take(0) =~= Seq::<Migration>::empty());
            assert(db.applied() =~= a0 + versions_of(pending_of(self@.take(0), a0)));
            assert(db.schema_log() =~= s0 + scripts_of(pending_of(self@.take(0), a0)));
        }
        let mut i: usize = 0;
        while i < n
            invariant
                self.wf(),
                n == self@.len(),
                i <= n,
                db.wf(),
                db.has_tracking(),
                db.applied() == a0 + versions_of(pending_of(self@.take(i as int), a0)),
                db.schema_log() == s0 + scripts_of(pending_of(self@.take(i as int), a0)),
                count == pending_of(self@.take(i as int), a0).len(),
            decreases n - i,
        {
            let m = &self.migrations[i];
            let already = db.is_applied(m.version);
            proof {
                lemma_new_version_not_pending(self@, a0, i as int);
                lemma_pending_len(self@.take(i as int), a0);
                let newlyv = versions_of(pending_of(self@.take(i as int), a0));
                if a0.contains(m.version) {
                    let w = choose|w: int| 0 <= w < a0.len() && a0[w] == m.version;
                    assert(db.applied()[w] == m.version);
                    assert(db.applied().contains(m.version));
                }
                if db.applied().contains(m.version) {
                    let w = choose|w: int|
                        0 <= w < db.applied().len() && db.applied()[w] == m.version;
                    if w < a0.len() {
                        assert(a0[w] == m.version);
                        assert(a0.contains(m.version));
                    } else {
                        assert(newlyv[w - a0.len()] == m.version);
                        assert(newlyv.contains(m.version));
                        assert(false);
                    }
                }
                assert(already == a0.contains(self@[i as int].version));
                assert(self@.take(i + 1).drop_last() =~= self@.take(i as int));
                assert(self@.take(i + 1).last() == self@[i as int]);
            }
            if !already {
                db.execute(&m.script);
                db.record(m.version);
                count += 1;
            }
            proof {
                let pd = pending_of(self@.take(i as int), a0);
                if !a0.contains(self@[i as int].version) {
                    assert(pending_of(self@.take(i + 1), a0) == pd.push(self@[i as int]));
                    lemma_versions_push(pd, self@[i as int]);
                    lemma_scripts_push(pd, self@[i as int]);
                    assert(db.applied() =~= a0 + versions_of(
                        pending_of(self@.take(i + 1), a0),
                    ));
                    assert(db.schema_log() =~= s0 + scripts_of(
                        pending_of(self@.take(i + 1), a0),
                    ));
                } else {
                    assert(pending_of(self@.take(i + 1), a0) == pd);
                }
            }
            i += 1;
        }
        proof {
            assert(self@.take(n as int) =~= self@);
            lemma_pending_len(self@, a0);
        }
        Ok(count)
    }

    /// Bring the database up to date when script execution is performed
    /// outside the model: `outcomes[k]` reports whether executing the
    /// `k`-th pending script succeeds.
    ///
    /// Pending migrations run in ascending version order. If every outcome
    /// is success, the run behaves like [`Migrator::apply`]. The first
    /// failed script stops the whole run: its version is not recorded, the
    /// schema keeps only the scripts that succeeded before it, and no later
    /// migration executes.
    pub fn apply_with_outcomes(&self, db: &mut Database, outcomes: &Vec<bool>) -> (r: Result<
        usize,
        MigrationError,
    >)
        requires
            self.wf(),
            old(db).wf(),
            outcomes@.len() == pending_of(self@, old(db).applied()).len(),
        ensures
            final(db).wf(),
            final(db).has_tracking(),
            (forall|k: int| 0 <= k < outcomes@.len() ==> outcomes@[k]) ==> {
                &&& final(db).applied() == applied_after(self@, old(db).applied())
                &&& final(db).schema_log() == schema_after(
                    self@,
                    old(db).applied(),
                    old(db).schema_log(),
                )
                &&& r == Ok::<usize, MigrationError>(
                    pending_of(self@, old(db).applied()).len() as usize,
                )
            },
            forall|k: int|
                0 <= k < outcomes@.len() && !(#[trigger] outcomes@[k]) && all_true_upto(
                    outcomes@,
                    k,
                ) ==> ({
                    let p = pending_of(self@, old(db).applied());
                    &&& final(db).applied() == old(db).applied() + versions_of(p.take(k))
                    &&& final(db).schema_log() == old(db).schema_log() + scripts_of(p.take(k))
                    &&& r == Err::<usize, MigrationError>(
                        (MigrationError::ScriptFailed { version: p[k].version }),
                    )
                }),
    {
        db.ensure_tracking();
        let ghost a0 = old(db).applied();
        let ghost s0 = old(db).schema_log();
        let ghost p = pending_of(self@, a0);
        let n = self.migrations.len();
        let mut k: usize = 0;
        proof {
            assert(self@.take(0) =~= Seq::<Migration>::empty());
            assert(p.take(0) =~= Seq::<Migration>::empty());
            assert(db.applied() =~= a0 + versions_of(p.take(0)));
            assert(db.schema_log() =~= s0 + scripts_of(p.take(0)));
        }
        let mut i: usize = 0;
        while i < n
            invariant
                self.wf(),
                n == self@.len(),
                i <= n,
                db.wf(),
                db.has_tracking(),
                a0 == old(db).applied(),
                s0 == old(db).schema_log(),
                p == pending_of(self@, a0),
                outcomes@.len() == p.len(),
                k <= p.len(),
                pending_of(self@.take(i as int), a0) == p.take(k as int),
                all_true_upto(outcomes@, k as int),
                db.applied() == a0 + versions_of(p.take(k as int)),
                db.schema_log() == s0 + scripts_of(p.take(k as int)),
            decreases n - i,
        {
            let m = &self.migrations[i];
            let already = db.is_applied(m.version);
            proof {
                lemma_new_version_not_pending(self@, a0, i as int);
                let newlyv = versions_of(p.take(k as int));
                assert(versions_of(pending_of(self@.take(i as int), a0)) == newlyv);
                if a0.contains(m.version) {
                    let w = choose|w: int| 0 <= w < a0.len() && a0[w] == m.version;
                    assert(db.applied()[w] == m.version);
                    assert(db.applied().contains(m.version));
                }
                if db.applied().contains(m.version) {
                    let w = choose|w: int|
                        0 <= w < db.applied().len() && db.applied()[w] == m.version;
                    if w < a0.len() {
                        assert(a0[w] == m.version);
                        assert(a0.contains(m.version));
                    } else {
                        assert(newlyv[w - a0.len()] == m.version);
                        assert(newlyv.contains(m.version));
                        assert(false);
                    }
                }
                assert(already == a0.contains(self@[i as int].version));
                assert(self@.take(i + 1).drop_last() =~= self@.take(i as int));
                assert(self@.take(i + 1).last() == self@[i as int]);
            }
            if !already {
                proof {
                    lemma_pending_split(self@, a0, i as int);
                    assert(self@.skip(i as int)[0] == self@[i as int]);
                    lemma_pending_first(self@.skip(i as int), a0);
                    let ptail = pending_of(self@.skip(i as int), a0);
                    assert(p == p.take(k as int) + ptail);
                    assert(p[k as int] == ptail[0]);
                    assert(p[k as int] == self@[i as int]);
                    assert(k < p.len());
                }
                let ok = outcomes[k];
                match apply_step(db, m, ok) {
                    Ok(_) => {
                        proof {
                            let pd = pending_of(self@.take(i as int), a0);
                            assert(pending_of(self@.take(i + 1), a0) == pd.push(
                                self@[i as int],
                            ));
                            assert(pd.push(self@[i as int]) =~= p.take(k + 1));
                            lemma_versions_push(p.take(k as int), self@[i as int]);
                            lemma_scripts_push(p.take(k as int), self@[i as int]);
                            assert(db.applied() =~= a0 + versions_of(p.take(k + 1)));
                            assert(db.schema_log() =~= s0 + scripts_of(p.take(k + 1)));
                            lemma_pending_len(self@, a0);
                            assert(k < n);
                        }
                        k += 1;
                    },
                    Err(e) => {
                        proof {
                            assert(!ok);
                            assert forall|k2: int|
                                0 <= k2 < outcomes@.len() && !(#[trigger] outcomes@[k2])
                                    && all_true_upto(outcomes@, k2) implies k2 == k by {
                                if k2 < k {
                                    assert(outcomes@[k2]);
                                } else if k2 > k {
                                    assert(outcomes@[k as int]);
                                }
                            }
                            assert(db.applied() == a0 + versions_of(p.take(k as int)));
                            assert(db.schema_log() == s0 + scripts_of(p.take(k as int)));
                            assert(m.version == p[k as int].version);
                            assert(e == (MigrationError::ScriptFailed {
                                version: p[k as int].version,
                            }));
                        }
                        return Err(e);
                    },
                }
            } else {
                proof {
                    assert(pending_of(self@.take(i + 1), a0) == pending_of(
                        self@.take(i as int),
                        a0,
                    ));
                }
            }
            i += 1;
        }
        proof {
            assert(self@.take(n as int) =~= self@);
            assert(p.take(k as int) =~= p);
        }
        Ok(k)
    }
}

} // verus!
