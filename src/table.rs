//! The concurrent map from truth table to recorded entry, held in a
//! `dashmap::DashMap`.
use vstd::prelude::*;
use dashmap::DashMap;
use crate::circuit::FunctionInfo;
use crate::truth_table::TruthTable;

verus! {

#[verifier::external_type_specification]
#[verifier::external_body]
#[verifier::reject_recursive_types(K)]
#[verifier::reject_recursive_types(V)]
#[verifier::reject_recursive_types(S)]
pub struct ExDashMap<K, V, S>(DashMap<K, V, S>);

/// The map from truth table to recorded entry.
pub type FunctionTable = DashMap<TruthTable, FunctionInfo>;

/// The entries a table holds.
pub uninterp spec fn table_entries(m: FunctionTable) -> Map<TruthTable, FunctionInfo>;

/// Relies on `DashMap::new`: the map starts empty.
#[verifier::external_body]
pub(crate) fn table_new() -> (r: FunctionTable)
    ensures
        table_entries(r).dom() == Set::<TruthTable>::empty(),
{
    DashMap::new()
}

/// Relies on `DashMap::contains_key`: whether the key has an entry.
#[verifier::external_body]
pub(crate) fn table_contains(m: &FunctionTable, tt: TruthTable) -> (r: bool)
    ensures
        r == table_entries(*m).contains_key(tt),
{
    m.contains_key(&tt)
}

/// Relies on `DashMap::get`: the entry of the key, if it has one.
#[verifier::external_body]
pub(crate) fn table_get(m: &FunctionTable, tt: TruthTable) -> (r: Option<FunctionInfo>)
    ensures
        r == (if table_entries(*m).contains_key(tt) { Some(table_entries(*m)[tt]) } else { None }),
{
    m.get(&tt).map(|e| *e)
}

/// Relies on `DashMap::insert`: the key's entry becomes `info`, whether
/// or not it had one.
#[verifier::external_body]
pub(crate) fn table_insert(m: &mut FunctionTable, tt: TruthTable, info: FunctionInfo)
    ensures
        table_entries(*final(m)) == table_entries(*old(m)).insert(tt, info),
{
    m.insert(tt, info);
}

/// Relies on `DashMap::entry`: under the shard's lock, a vacant key gets
/// `info` and an occupied one is left as it is. Returns whether it was
/// vacant.
#[verifier::external_body]
pub(crate) fn table_claim(m: &mut FunctionTable, tt: TruthTable, info: FunctionInfo) -> (r: bool)
    ensures
        r == !table_entries(*old(m)).contains_key(tt),
        table_entries(*final(m)) == (if r { table_entries(*old(m)).insert(tt, info) } else { table_entries(*old(m)) }),
{
    match m.entry(tt) {
        dashmap::mapref::entry::Entry::Occupied(_) => false,
        dashmap::mapref::entry::Entry::Vacant(e) => {
            e.insert(info);
            true
        },
    }
}

} // verus!
