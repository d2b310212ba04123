//! The guarantees of the migrator, stated and proved once for every
//! migration list and every database state: idempotence, ordering,
//! atomicity of failure, and resumption from a prefix of applied versions.

use vstd::prelude::*;

use crate::migration::Migration;
use crate::migration::lemma_versions_push;
use crate::migration::scripts_of;
use crate::migration::sorted_strict;
use crate::migration::versions_of;
use crate::migrator::applied_after;
use crate::migrator::lemma_pending_not_applied;
use crate::migrator::lemma_pending_sorted;
use crate::migrator::pending_of;
use crate::migrator::schema_after;

verus! {

/// A run records the version of every migration in the list.
proof fn lemma_applied_after_covers(ms: Seq<Migration>, a: Seq<u64>)
    ensures
        forall|i: int|
            0 <= i < ms.len() ==> applied_after(ms, a).contains((#[trigger] ms[i]).version),
    decreases ms.len(),
{
    if ms.len() > 0 {
        lemma_applied_after_covers(ms.drop_last(), a);
        let pd = pending_of(ms.drop_last(), a);
        let pm = pending_of(ms, a);
        assert forall|i: int| 0 <= i < ms.len() implies applied_after(ms, a).contains(
            (#[trigger] ms[i]).version,
        ) by {
            if i < ms.len() - 1 {
                assert(ms.drop_last()[i] == ms[i]);
                assert(applied_after(ms.drop_last(), a).contains(ms[i].version));
                let w = choose|w: int|
                    0 <= w < applied_after(ms.drop_last(), a).len() && applied_after(
                        ms.drop_last(),
                        a,
                    )[w] == ms[i].version;
                if w < a.len() {
                    assert(applied_after(ms, a)[w] == ms[i].version);
                } else {
                    assert(versions_of(pd)[w - a.len()] == ms[i].version);
                    if !a.contains(ms.last().version) {
                        lemma_versions_push(pd, ms.last());
                    }
                    assert(versions_of(pm)[w - a.len()] == ms[i].version);
                    assert(applied_after(ms, a)[w] == ms[i].version);
                }
                assert(applied_after(ms, a).contains(ms[i].version));
            } else {
                if a.contains(ms.last().version) {
                    let w = choose|w: int| 0 <= w < a.len() && a[w] == ms.last().version;
                    assert(applied_after(ms, a)[w] == ms[i].version);
                } else {
                    lemma_versions_push(pd, ms.last());
                    assert(versions_of(pm) == versions_of(pd).push(ms.last().version));
                    assert(applied_after(ms, a)[a.len() + versions_of(pd).len() as int] == ms[
                        i].version);
                }
                assert(applied_after(ms, a).contains(ms[i].version));
            }
        }
    }
}

/// A list whose every version is already recorded has nothing pending.
proof fn lemma_pending_when_covered(ms: Seq<Migration>, a: Seq<u64>)
    requires
        forall|i: int| 0 <= i < ms.len() ==> a.contains((#[trigger] ms[i]).version),
    ensures
        pending_of(ms, a) == Seq::<Migration>::empty(),
    decreases ms.len(),
{
    if ms.len() > 0 {
        assert forall|i: int| 0 <= i < ms.drop_last().len() implies a.contains(
            (#[trigger] ms.drop_last()[i]).version,
        ) by {
            assert(ms.drop_last()[i] == ms[i]);
        }
        lemma_pending_when_covered(ms.drop_last(), a);
        assert(a.contains(ms[ms.len() - 1].version));
        assert(ms.last() == ms[ms.len() - 1]);
    }
}

/// Idempotence: a run of a migration list right after a completed run of
/// the same list finds nothing pending, so it reports no work, records no
/// version twice, and leaves the applied-version record and the schema
/// state exactly as the first run left them.
pub proof fn lemma_apply_idempotent(ms: Seq<Migration>, applied: Seq<u64>, schema: Seq<Seq<char>>)
    ensures
        pending_of(ms, applied_after(ms, applied)).len() == 0,
        applied_after(ms, applied_after(ms, applied)) == applied_after(ms, applied),
        schema_after(ms, applied_after(ms, applied), schema) == schema,
{
    lemma_applied_after_covers(ms, applied);
    lemma_pending_when_covered(ms, applied_after(ms, applied));
    assert(versions_of(pending_of(ms, applied_after(ms, applied))) =~= Seq::<u64>::empty());
    assert(scripts_of(pending_of(ms, applied_after(ms, applied))) =~= Seq::<Seq<char>>::empty());
    assert(applied_after(ms, applied_after(ms, applied)) =~= applied_after(ms, applied));
    assert(schema_after(ms, applied_after(ms, applied), schema) =~= schema);
}

/// Ordering: of any two migrations a run still has to execute, the one
/// with the smaller version stands earlier among the pending migrations,
/// so it is fully applied before the other begins — whatever order the
/// list was supplied in, since a migrator always holds its list sorted.
pub proof fn lemma_apply_ordered(ms: Seq<Migration>, applied: Seq<u64>, i: int, j: int)
    requires
        sorted_strict(versions_of(ms)),
        0 <= i < pending_of(ms, applied).len(),
        0 <= j < pending_of(ms, applied).len(),
        pending_of(ms, applied)[i].version < pending_of(ms, applied)[j].version,
    ensures
        i < j,
{
    lemma_pending_sorted(ms, applied);
    let p = pending_of(ms, applied);
    if i > j {
        assert(versions_of(p)[j] < versions_of(p)[i]);
        assert(false);
    }
    if i == j {
        assert(false);
    }
}

/// Atomicity: when the `k`-th pending migration's script fails, the run
/// has recorded exactly the versions of the pending migrations before
/// `k`; neither the failed version nor any later pending version is
/// recorded as applied.
pub proof fn lemma_failure_atomic(ms: Seq<Migration>, applied: Seq<u64>, k: int)
    requires
        sorted_strict(versions_of(ms)),
        0 <= k < pending_of(ms, applied).len(),
    ensures
        forall|l: int|
            k <= l < pending_of(ms, applied).len() ==> !(applied + versions_of(
                pending_of(ms, applied).take(k),
            )).contains((#[trigger] pending_of(ms, applied)[l]).version),
{
    lemma_pending_sorted(ms, applied);
    lemma_pending_not_applied(ms, applied);
    let p = pending_of(ms, applied);
    let recorded = applied + versions_of(p.take(k));
    assert forall|l: int| k <= l < p.len() implies !recorded.contains(
        (#[trigger] p[l]).version,
    ) by {
        if recorded.contains(p[l].version) {
            let w = choose|w: int| 0 <= w < recorded.len() && recorded[w] == p[l].version;
            if w < applied.len() {
                assert(applied.contains(p[l].version));
                assert(false);
            } else {
                let w2 = w - applied.len();
                assert(versions_of(p.take(k))[w2] == p[l].version);
                assert(versions_of(p)[w2] == versions_of(p)[l]);
                assert(false);
            }
        }
    }
}

/// Resumption: a database whose applied-version record holds exactly the
/// first `c` versions of the list — `c == 0` covers a fresh database with
/// no tracking structure at all, which is treated as having none applied —
/// has precisely the remaining migrations pending, in order, and a run
/// ends with every version of the list recorded.
pub proof fn lemma_resume_from_prefix(ms: Seq<Migration>, c: int)
    requires
        sorted_strict(versions_of(ms)),
        0 <= c <= ms.len(),
    ensures
        pending_of(ms, versions_of(ms.take(c))) == ms.skip(c),
        applied_after(ms, versions_of(ms.take(c))) == versions_of(ms),
    decreases ms.len(),
{
    let a = versions_of(ms.take(c));
    if c == ms.len() {
        assert(ms.take(c) =~= ms);
        assert forall|i: int| 0 <= i < ms.len() implies a.contains((#[trigger] ms[i]).version) by {
            assert(a[i] == ms[i].version);
        }
        lemma_pending_when_covered(ms, a);
        assert(pending_of(ms, a) =~= ms.skip(c));
        assert(versions_of(pending_of(ms, a)) =~= Seq::<u64>::empty());
        assert(applied_after(ms, a) =~= versions_of(ms));
    } else {
        assert forall|i: int, j: int|
            0 <= i < j < versions_of(ms.drop_last()).len() implies versions_of(ms.drop_last())[i]
            < versions_of(ms.drop_last())[j] by {
            assert(versions_of(ms)[i] < versions_of(ms)[j]);
        }
        lemma_resume_from_prefix(ms.drop_last(), c);
        assert(ms.drop_last().take(c) =~= ms.take(c));
        assert(!a.contains(ms.last().version)) by {
            if a.contains(ms.last().version) {
                let w = choose|w: int| 0 <= w < a.len() && a[w] == ms.last().version;
                assert(a[w] == ms.take(c)[w].version);
                assert(versions_of(ms)[w] == versions_of(ms)[ms.len() - 1]);
                assert(false);
            }
        }
        assert(pending_of(ms, a) == pending_of(ms.drop_last(), a).push(ms.last()));
        assert(pending_of(ms.drop_last(), a) == ms.drop_last().skip(c));
        assert(ms.drop_last().skip(c).push(ms.last()) =~= ms.skip(c));
        assert(pending_of(ms, a) == ms.skip(c));
        assert forall|t: int| 0 <= t < versions_of(ms.skip(c)).len() implies versions_of(
            ms.skip(c),
        )[t] == versions_of(ms)[c + t] by {
            assert(ms.skip(c)[t] == ms[c + t]);
        }
        assert(applied_after(ms, a) =~= versions_of(ms));
    }
}

} // verus!
