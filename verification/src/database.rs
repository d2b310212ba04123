//! An in-memory model of the target database: the persisted applied-version
//! record and an abstract view of the schema state.

use vstd::prelude::*;

verus! {

/// A model of the target database file.
///
/// The applied-version record is the persisted bookkeeping that tracks which
/// migration versions have already run; it is absent on a database that has
/// never been migrated. The schema state is modeled abstractly as the
/// sequence of scripts that have been executed, in execution order.
pub struct Database {
    tracking: Option<Vec<u64>>,
    schema: Vec<String>,
}

impl Database {
    /// Whether the applied-version tracking structure exists.
    pub closed spec fn has_tracking(self) -> bool {
        self.tracking is Some
    }

    /// The versions recorded as applied, in order of application.
    /// A database without a tracking structure has none.
    pub closed spec fn applied(self) -> Seq<u64> {
        match self.tracking {
            Some(t) => t@,
            None => Seq::empty(),
        }
    }

    /// The schema state: the scripts executed so far, in execution order.
    pub closed spec fn schema_log(self) -> Seq<Seq<char>> {
        self.schema@.map_values(|s: String| s@)
    }

    /// Well-formedness: the applied-version record is a set of positive
    /// versions (no version is recorded twice).
    pub open spec fn wf(self) -> bool {
        &&& forall|i: int, j: int|
            0 <= i < j < self.applied().len() ==> self.applied()[i] != self.applied()[j]
        &&& forall|i: int| 0 <= i < self.applied().len() ==> #[trigger] self.applied()[i] >= 1
    }

    /// A database that has never been migrated: no tracking structure,
    /// no schema.
    pub fn fresh() -> (db: Database)
        ensures
            db.wf(),
            !db.has_tracking(),
            db.applied() == Seq::<u64>::empty(),
            db.schema_log() == Seq::<Seq<char>>::empty(),
    {
        let db = Database { tracking: None, schema: Vec::new() };
        proof {
            assert(db.schema_log() =~= Seq::<Seq<char>>::empty());
        }
        db
    }

    /// Whether the tracking structure exists.
    pub fn tracking_exists(&self) -> (r: bool)
        ensures
            r == self.has_tracking(),
    {
        self.tracking.is_some()
    }

    /// Whether `version` is recorded as applied.
    pub fn is_applied(&self, version: u64) -> (r: bool)
        ensures
            r == self.applied().contains(version),
    {
        match &self.tracking {
            None => false,
            Some(t) => {
                let n = t.len();
                let mut i: usize = 0;
                while i < n
                    invariant
                        n == t@.len(),
                        0 <= i <= n,
                        self.applied() == t@,
                        forall|k: int| 0 <= k < i ==> t@[k] != version,
                    decreases n - i,
                {
                    if t[i] == version {
                        proof {
                            assert(self.applied() == t@);
                            assert(self.applied()[i as int] == version);
                        }
                        return true;
                    }
                    i += 1;
                }
                false
            },
        }
    }

    /// How many versions are recorded as applied.
    pub fn applied_count(&self) -> (r: usize)
        ensures
            r == self.applied().len(),
    {
        match &self.tracking {
            None => 0,
            Some(t) => t.len(),
        }
    }

    /// The versions recorded as applied, in order of application.
    pub fn applied_versions(&self) -> (r: Vec<u64>)
        ensures
            r@ == self.applied(),
    {
        match &self.tracking {
            None => {
                let r: Vec<u64> = Vec::new();
                proof {
                    assert(r@ =~= self.applied());
                }
                r
            },
            Some(t) => {
                let n = t.len();
                let mut r: Vec<u64> = Vec::new();
                let mut i: usize = 0;
                while i < n
                    invariant
                        n == t@.len(),
                        0 <= i <= n,
                        r@ == t@.take(i as int),
                    decreases n - i,
                {
                    r.push(t[i]);
                    proof {
                        assert(r@ =~= t@.take(i + 1 as int));
                    }
                    i += 1;
                }
                proof {
                    assert(t@.take(n as int) =~= t@);
                }
                r
            },
        }
    }

    /// How many scripts have been executed against the database.
    pub fn schema_len(&self) -> (r: usize)
        ensures
            r == self.schema_log().len(),
    {
        self.schema.len()
    }

    /// The `i`-th script executed against the database.
    pub fn schema_script(&self, i: usize) -> (r: &String)
        requires
            i < self.schema_log().len(),
        ensures
            r@ == self.schema_log()[i as int],
    {
        &self.schema[i]
    }

    /// Create the applied-version tracking structure if it does not exist.
    /// A database without one is treated as having no applied versions, so
    /// the set of applied versions is unchanged.
    pub fn ensure_tracking(&mut self)
        requires
            old(self).wf(),
        ensures
            final(self).wf(),
            final(self).has_tracking(),
            final(self).applied() == old(self).applied(),
            final(self).schema_log() == old(self).schema_log(),
    {
        if self.tracking.is_none() {
            self.tracking = Some(Vec::new());
            proof {
                assert(self.applied() =~= old(self).applied());
            }
        }
    }

    /// Record `version` as applied.
    pub(crate) fn record(&mut self, version: u64)
        requires
            old(self).wf(),
            old(self).has_tracking(),
            version >= 1,
            !old(self).applied().contains(version),
        ensures
            final(self).wf(),
            final(self).has_tracking(),
            final(self).applied() == old(self).applied().push(version),
            final(self).schema_log() == old(self).schema_log(),
    {
        match &mut self.tracking {
            Some(t) => {
                t.push(version);
                proof {
                    let a = self.applied();
                    let o = old(self).applied();
                    assert forall|i: int, j: int| 0 <= i < j < a.len() implies a[i] != a[j] by {
                        if j == a.len() - 1 {
                            assert(o[i] == a[i]);
                            if a[i] == version {
                                assert(o.contains(version));
                            }
                        }
                    }
                }
            },
            None => {},
        }
    }

    /// Execute `script` against the database: the model appends it to the
    /// schema state. Tracking and applied versions are untouched.
    pub(crate) fn execute(&mut self, script: &String)
        requires
            old(self).wf(),
        ensures
            final(self).wf(),
            final(self).has_tracking() == old(self).has_tracking(),
            final(self).applied() == old(self).applied(),
            final(self).schema_log() == old(self).schema_log().push(script@),
    {
        self.schema.push(script.clone());
        proof {
            assert(self.applied() == old(self).applied());
            assert(self.schema_log() =~= old(self).schema_log().push(script@));
        }
    }
}

} // verus!
