//! A single schema-evolution step, and spec-level views of step lists.

use vstd::prelude::*;

verus! {

/// The direction of a migration. Only upgrades are defined.
#[derive(Clone, Copy, PartialEq, Eq, Structural, Debug)]
pub enum MigrationKind {
    Up,
}

/// One versioned, named unit of schema-altering database statements,
/// applied at most once to a given database.
pub struct Migration {
    /// Positive version number, unique within a migration list.
    pub version: u64,
    /// Human-readable label with no semantic effect.
    pub description: String,
    /// The database statements to execute as one atomic unit.
    pub script: String,
    /// Direction of the step.
    pub kind: MigrationKind,
}

impl Migration {
    /// A migration is valid when its version is a positive integer.
    pub open spec fn valid(self) -> bool {
        self.version >= 1
    }
}

/// The version numbers of a migration list, in list order.
pub open spec fn versions_of(ms: Seq<Migration>) -> Seq<u64> {
    ms.map_values(|m: Migration| m.version)
}

/// The script texts of a migration list, in list order.
pub open spec fn scripts_of(ms: Seq<Migration>) -> Seq<Seq<char>> {
    ms.map_values(|m: Migration| m.script@)
}

/// Every migration in the list is valid.
pub open spec fn all_valid(ms: Seq<Migration>) -> bool {
    forall|i: int| 0 <= i < ms.len() ==> (#[trigger] ms[i]).valid()
}

/// The sequence is strictly increasing.
pub open spec fn sorted_strict(vs: Seq<u64>) -> bool {
    forall|i: int, j: int| 0 <= i < j < vs.len() ==> vs[i] < vs[j]
}

/// A well-formed migration list: valid steps, strictly ascending versions.
pub open spec fn wf_list(ms: Seq<Migration>) -> bool {
    &&& all_valid(ms)
    &&& sorted_strict(versions_of(ms))
}

pub(crate) proof fn lemma_versions_push(ms: Seq<Migration>, m: Migration)
    ensures
        versions_of(ms.push(m)) == versions_of(ms).push(m.version),
{
    assert(versions_of(ms.push(m)) =~= versions_of(ms).push(m.version));
}

pub(crate) proof fn lemma_scripts_push(ms: Seq<Migration>, m: Migration)
    ensures
        scripts_of(ms.push(m)) == scripts_of(ms).push(m.script@),
{
    assert(scripts_of(ms.push(m)) =~= scripts_of(ms).push(m.script@));
}

pub(crate) proof fn lemma_versions_remove(ms: Seq<Migration>, i: int)
    requires
        0 <= i < ms.len(),
    ensures
        versions_of(ms.remove(i)) == versions_of(ms).remove(i),
{
    assert(versions_of(ms.remove(i)) =~= versions_of(ms).remove(i));
}

} // verus!
