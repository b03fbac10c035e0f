//! One worker's in-memory zoo: the recorded functions, the queue of
//! discoveries awaiting the catalog, and the size-indexed synthesizer.
use vstd::prelude::*;
use crate::circuit::{CircuitNode, FunctionInfo, GateType};
use crate::table::{table_claim, table_contains, table_entries, FunctionTable, table_get, table_insert, table_new};
use crate::truth_table::{
    lemma_literals_distinct, literal_spec, literal_truth_table, rows_of, row_count, TruthTable, MAX_VARS,
};

verus! {

/// Sizes and depths are stored in the catalog as 16-bit signed integers.
pub const SIZE_LIMIT: usize = 32767;

pub open spec fn max_nat(a: nat, b: nat) -> nat {
    if a >= b { a } else { b }
}

/// A worker cooperating with its peers through a shared catalog.
pub struct DistributedWorker {
    pub n: usize,
    pub rows: usize,
    pub num_functions: u64,
    pub max_size: usize,
    pub worker_id: String,
    /// Best known witness of each function found so far.
    pub functions: FunctionTable,
    /// The recorded truth tables, in the order they were first recorded.
    pub keys: Vec<TruthTable>,
    pub found_count: u64,
    /// Discoveries not yet pushed to the catalog.
    pub pending_writes: Vec<(TruthTable, FunctionInfo)>,
    pub db_url: String,
    /// Seconds between two pushes to the catalog.
    pub sync_interval: u64,
}

/// The number of n-variable Boolean functions, saturated to a word.
pub open spec fn function_count(rows: nat) -> u64 {
    if rows <= 63 { (1u64 << (rows as u64)) } else { u64::MAX }
}

/// A recorded entry is well formed: literals alone have size zero, and
/// sizes and depths stay within what the catalog can store.
pub open spec fn entry_ok(info: FunctionInfo) -> bool {
    &&& (info.size == 0 <==> info.circuit is Literal)
    &&& info.size <= SIZE_LIMIT
    &&& info.depth <= SIZE_LIMIT + info.size
}

impl DistributedWorker {
    pub open spec fn table(&self) -> Map<TruthTable, FunctionInfo> {
        table_entries(self.functions)
    }

    pub open spec fn wf(&self) -> bool {
        &&& self.n <= MAX_VARS
        &&& self.rows as nat == row_count(self.n as nat)
        &&& self.num_functions == function_count(self.rows as nat)
        &&& forall|tt: TruthTable| #[trigger] self.table().contains_key(tt) ==> entry_ok(self.table()[tt])
        &&& self.keys@.no_duplicates()
        &&& self.keys@.to_set() == self.table().dom()
        &&& self.found_count == self.keys@.len()
    }

    /// The settings that no operation of the search changes.
    pub open spec fn same_settings(&self, other: &Self) -> bool {
        &&& self.n == other.n
        &&& self.rows == other.rows
        &&& self.num_functions == other.num_functions
        &&& self.max_size == other.max_size
        &&& self.worker_id@ == other.worker_id@
        &&& self.db_url@ == other.db_url@
        &&& self.sync_interval == other.sync_interval
    }

    /// The number of recorded functions equals the counter of found ones.
    pub proof fn lemma_found_count_is_cardinality(&self)
        requires
            self.wf(),
        ensures
            self.found_count == self.table().len(),
    {
        self.keys@.unique_seq_to_set();
    }

    /// A recorded entry has size zero exactly when its witness is a literal.
    pub proof fn lemma_size_zero_iff_literal(&self, tt: TruthTable)
        requires
            self.wf(),
            self.table().contains_key(tt),
        ensures
            self.table()[tt].size == 0 <==> self.table()[tt].circuit is Literal,
    {
    }

    /// Records `tt` with `info`; `tt` must be new.
    fn record(&mut self, tt: TruthTable, info: FunctionInfo)
        requires
            old(self).wf(),
            !old(self).table().contains_key(tt),
            entry_ok(info),
        ensures
            final(self).wf(),
            final(self).same_settings(old(self)),
            final(self).table() == old(self).table().insert(tt, info),
            final(self).keys@ == old(self).keys@.push(tt),
            final(self).pending_writes@ == old(self).pending_writes@,
    {
        table_claim(&mut self.functions, tt, info);
        self.keys.push(tt);
        self.found_count = self.keys.len() as u64;
        proof {
            old(self).keys@.lemma_push_to_set_commute(tt);
            assert(self.keys@.to_set() =~= old(self).keys@.to_set().insert(tt));
            assert(self.keys@.no_duplicates()) by {
                assert(!old(self).keys@.contains(tt)) by {
                    if old(self).keys@.contains(tt) {
                        assert(old(self).keys@.to_set().contains(tt));
                    }
                }
            }
        }
    }

    /// Records the literal `x_var` (negated or not) unless its table is
    /// already recorded.
    fn seed_literal(&mut self, var: usize, negated: bool)
        requires
            old(self).wf(),
            var < old(self).n,
        ensures
            final(self).wf(),
            final(self).same_settings(old(self)),
            final(self).table().contains_key(literal_spec(var as nat, negated, old(self).n as nat)),
            final(self).table() == (if old(self).table().contains_key(literal_spec(var as nat, negated, old(self).n as nat)) {
                old(self).table()
            } else {
                old(self).table().insert(
                    literal_spec(var as nat, negated, old(self).n as nat),
                    FunctionInfo { size: 0, depth: 0, circuit: CircuitNode::Literal { var, neg: negated } },
                )
            }),
            final(self).found_count == old(self).found_count
                + (if old(self).table().contains_key(literal_spec(var as nat, negated, old(self).n as nat)) { 0int } else { 1int }),
            final(self).pending_writes@ == old(self).pending_writes@,
    {
        let tt = literal_truth_table(var, negated, self.n);
        if !table_contains(&self.functions, tt) {
            let info = FunctionInfo { size: 0, depth: 0, circuit: CircuitNode::Literal { var, neg: negated } };
            self.record(tt, info);
        }
    }

    /// The literals are recorded for each variable, both polarities.
    /// Truth tables already present keep their entries.
    pub fn seed_literals(&mut self)
        requires
            old(self).wf(),
        ensures
            final(self).wf(),
            final(self).same_settings(old(self)),
            forall|tt: TruthTable| #[trigger] old(self).table().contains_key(tt)
                ==> final(self).table().contains_key(tt) && final(self).table()[tt] == old(self).table()[tt],
            forall|var: nat, neg: bool| var < old(self).n ==>
                #[trigger] final(self).table().contains_key(literal_spec(var, neg, old(self).n as nat)),
            forall|tt: TruthTable| #[trigger] final(self).table().contains_key(tt) && !old(self).table().contains_key(tt)
                ==> is_literal_entry(tt, final(self).table()[tt], old(self).n as nat),
            old(self).found_count == 0 ==> final(self).found_count == 2 * old(self).n,
            final(self).pending_writes@ == old(self).pending_writes@,
    {
        let n = self.n;
        let mut var: usize = 0;
        while var < n
            invariant
                self.wf(),
                self.same_settings(old(self)),
                n == self.n,
                var <= n,
                forall|tt: TruthTable| #[trigger] old(self).table().contains_key(tt)
                    ==> self.table().contains_key(tt) && self.table()[tt] == old(self).table()[tt],
                forall|v: nat, neg: bool| v < var ==>
                    #[trigger] self.table().contains_key(literal_spec(v, neg, n as nat)),
                forall|tt: TruthTable| #[trigger] self.table().contains_key(tt) && !old(self).table().contains_key(tt)
                    ==> is_literal_entry(tt, self.table()[tt], n as nat),
                old(self).found_count == 0 ==> self.found_count == 2 * var,
                old(self).found_count == 0 ==> forall|tt: TruthTable| #[trigger] self.table().contains_key(tt)
                    ==> exists|v: nat, g: bool| v < var && tt == #[trigger] literal_spec(v, g, n as nat),
                self.pending_writes@ == old(self).pending_writes@,
            decreases n - var,
        {
            let ghost before = self.table();
            proof {
                if old(self).found_count == 0 && before.contains_key(literal_spec(var as nat, false, n as nat)) {
                    let (v, g) = choose|v: nat, g: bool| v < var && literal_spec(var as nat, false, n as nat) == #[trigger] literal_spec(v, g, n as nat);
                    lemma_literals_distinct(var as nat, false, v, g, n as nat);
                }
            }
            self.seed_literal(var, false);
            let ghost mid = self.table();
            proof {
                if old(self).found_count == 0 && mid.contains_key(literal_spec(var as nat, true, n as nat)) {
                    lemma_literals_distinct(var as nat, true, var as nat, false, n as nat);
                    assert(before.contains_key(literal_spec(var as nat, true, n as nat)));
                    let (v, g) = choose|v: nat, g: bool| v < var && literal_spec(var as nat, true, n as nat) == #[trigger] literal_spec(v, g, n as nat);
                    lemma_literals_distinct(var as nat, true, v, g, n as nat);
                }
            }
            self.seed_literal(var, true);
            proof {
                if old(self).found_count == 0 {
                    assert forall|tt: TruthTable| #[trigger] self.table().contains_key(tt)
                        implies exists|v: nat, g: bool| v < var + 1 && tt == #[trigger] literal_spec(v, g, n as nat) by {
                        if tt == literal_spec(var as nat, true, n as nat) {
                        } else if tt == literal_spec(var as nat, false, n as nat) {
                        } else {
                            assert(before.contains_key(tt));
                            let (v, g) = choose|v: nat, g: bool| v < var && tt == #[trigger] literal_spec(v, g, n as nat);
                            assert(v < var + 1 && tt == literal_spec(v, g, n as nat));
                        }
                    }
                }
            }
            var = var + 1;
        }
    }

    /// A worker for `n` variables, seeded with the literals.
    pub fn new(n: usize, max_size: usize, worker_id: String, db_url: String) -> (w: Self)
        requires
            n <= MAX_VARS,
        ensures
            w.wf(),
            w.n == n,
            w.max_size == max_size,
            w.worker_id@ == worker_id@,
            w.db_url@ == db_url@,
            w.sync_interval == 5,
            forall|var: nat, neg: bool| var < n ==>
                #[trigger] w.table().contains_key(literal_spec(var, neg, n as nat)),
            forall|tt: TruthTable| #[trigger] w.table().contains_key(tt)
                ==> is_literal_entry(tt, w.table()[tt], n as nat),
            w.found_count == 2 * n,
            w.table().len() == 2 * n,
            w.pending_writes@.len() == 0,
    {
        let rows = rows_of(n);
        let num_functions: u64 = if rows <= 63 { 1u64 << (rows as u64) } else { u64::MAX };
        let mut w = DistributedWorker {
            n,
            rows,
            num_functions,
            max_size,
            worker_id,
            functions: table_new(),
            keys: Vec::new(),
            found_count: 0,
            pending_writes: Vec::new(),
            db_url,
            sync_interval: 5,
        };
        proof {
            assert(w.keys@.to_set() =~= Set::empty());
        }
        w.seed_literals();
        proof {
            w.lemma_found_count_is_cardinality();
        }
        w
    }
}

/// The entry a binary gate over `left` and `right` gets at `size`.
pub open spec fn gate_info(table: Map<TruthTable, FunctionInfo>, size: usize, left: TruthTable, right: TruthTable, gate: GateType) -> FunctionInfo {
    FunctionInfo {
        size,
        depth: (1 + max_nat(table[left].depth as nat, table[right].depth as nat)) as usize,
        circuit: match gate {
            GateType::And => CircuitNode::And { left, right },
            GateType::Or => CircuitNode::Or { left, right },
        },
    }
}

/// The children of a gate found at `size` come from two availability lists
/// whose sizes sum to `size - 1`, the left one from the larger, and its depth
/// is one more than theirs.
pub open spec fn made_of(
    table: Map<TruthTable, FunctionInfo>,
    avail: Seq<Vec<TruthTable>>,
    size: nat,
    left: TruthTable,
    right: TruthTable,
    depth: usize,
) -> bool {
    &&& exists|k: int| 0 <= k < size && size - 1 - k <= k && #[trigger] avail[k]@.contains(left) && avail[size - 1 - k]@.contains(right)
    &&& depth == 1 + max_nat(table[left].depth as nat, table[right].depth as nat)
}

/// `info` is a gate found for `tt` by the synthesizer at `size`.
pub open spec fn synthesized(
    table: Map<TruthTable, FunctionInfo>,
    avail: Seq<Vec<TruthTable>>,
    size: nat,
    tt: TruthTable,
    info: FunctionInfo,
) -> bool {
    &&& info.size == size
    &&& match info.circuit {
        CircuitNode::Literal { .. } => false,
        CircuitNode::And { left, right } => tt == left & right && made_of(table, avail, size, left, right, info.depth),
        CircuitNode::Or { left, right } => tt == left | right && made_of(table, avail, size, left, right, info.depth),
    }
}

/// The availability lists below `size` hold recorded functions whose size
/// is at most the list's index.
pub open spec fn available_ok(table: Map<TruthTable, FunctionInfo>, avail: Seq<Vec<TruthTable>>, size: nat) -> bool {
    &&& size <= avail.len()
    &&& forall|k: int, j: int| #![trigger avail[k]@[j]] 0 <= k < size && 0 <= j < avail[k]@.len()
        ==> table.contains_key(avail[k]@[j]) && table[avail[k]@[j]].size <= k
}

/// Both gates over `a` and `b` have a recorded truth table.
pub open spec fn pair_done(table: Map<TruthTable, FunctionInfo>, a: TruthTable, b: TruthTable) -> bool {
    table.contains_key(a & b) && table.contains_key(a | b)
}

/// Every pair drawn from two lists whose sizes sum to `size - 1` has both of
/// its gates recorded.
pub open spec fn pairs_done(table: Map<TruthTable, FunctionInfo>, avail: Seq<Vec<TruthTable>>, size: nat) -> bool {
    forall|k: int, i: int, j: int| 0 <= k < size && 0 <= i < avail[k]@.len() && 0 <= j < avail[size - 1 - k]@.len()
        ==> #[trigger] pair_done(table, avail[k]@[i], avail[size - 1 - k]@[j])
}

proof fn lemma_gates_commute(a: TruthTable, b: TruthTable)
    ensures
        a & b == b & a,
        a | b == b | a,
{
    assert(a & b == b & a) by (bit_vector);
    assert(a | b == b | a) by (bit_vector);
}

impl DistributedWorker {
    /// The state of a search at `size` that started from `base`: entries of
    /// `base` are kept, every new entry is a synthesized gate, and `found`
    /// lists the new truth tables once each.
    pub open spec fn progress(
        &self,
        base: Map<TruthTable, FunctionInfo>,
        avail: Seq<Vec<TruthTable>>,
        size: nat,
        found: Seq<TruthTable>,
    ) -> bool {
        &&& self.wf()
        &&& forall|tt: TruthTable| #[trigger] base.contains_key(tt)
            ==> self.table().contains_key(tt) && self.table()[tt] == base[tt]
        &&& forall|tt: TruthTable| #[trigger] self.table().contains_key(tt) && !base.contains_key(tt)
            ==> synthesized(base, avail, size, tt, self.table()[tt])
        &&& found.no_duplicates()
        &&& forall|tt: TruthTable| #[trigger] found.contains(tt)
            <==> (self.table().contains_key(tt) && !base.contains_key(tt))
    }

    /// When `tt` is new, records for it the binary gate on the two children
    /// at `size` and queues the entry for the catalog; else changes nothing.
    pub fn try_insert(&mut self, tt: TruthTable, size: usize, left: TruthTable, right: TruthTable, gate: GateType) -> (r: bool)
        requires
            old(self).wf(),
            1 <= size <= SIZE_LIMIT,
            old(self).table().contains_key(left),
            old(self).table().contains_key(right),
            old(self).table()[left].size < size,
            old(self).table()[right].size < size,
        ensures
            final(self).wf(),
            final(self).same_settings(old(self)),
            r == !old(self).table().contains_key(tt),
            final(self).table() == (if r {
                old(self).table().insert(tt, gate_info(old(self).table(), size, left, right, gate))
            } else {
                old(self).table()
            }),
            final(self).pending_writes@ == (if r {
                old(self).pending_writes@.push((tt, gate_info(old(self).table(), size, left, right, gate)))
            } else {
                old(self).pending_writes@
            }),
    {
        if table_contains(&self.functions, tt) {
            return false;
        }
        let dl: usize = match table_get(&self.functions, left) {
            Some(i) => i.depth,
            None => 0,
        };
        let dr: usize = match table_get(&self.functions, right) {
            Some(i) => i.depth,
            None => 0,
        };
        let depth: usize = 1 + if dl >= dr { dl } else { dr };
        let info = FunctionInfo { size, depth, circuit: CircuitNode::gate(gate, left, right) };
        assert(info == gate_info(old(self).table(), size, left, right, gate));
        self.record(tt, info);
        self.pending_writes.push((tt, info));
        true
    }
}

impl DistributedWorker {
    /// Claims `gate` over `a` from list `s1` and `b` from its complement,
    /// adding the result to `found` when it is new.
    fn claim(
        &mut self,
        size: usize,
        avail: &Vec<Vec<TruthTable>>,
        s1: usize,
        a: TruthTable,
        b: TruthTable,
        gate: GateType,
        found: &mut Vec<TruthTable>,
        Ghost(base): Ghost<Map<TruthTable, FunctionInfo>>,
    )
        requires
            old(self).progress(base, avail@, size as nat, old(found)@),
            available_ok(base, avail@, size as nat),
            1 <= size <= SIZE_LIMIT,
            s1 < size,
            size - 1 - s1 <= s1,
            avail@[s1 as int]@.contains(a),
            avail@[size - 1 - s1]@.contains(b),
        ensures
            final(self).progress(base, avail@, size as nat, final(found)@),
            final(self).same_settings(old(self)),
            forall|tt: TruthTable| #[trigger] old(self).table().contains_key(tt) ==> final(self).table().contains_key(tt),
            final(self).table().contains_key(if gate == GateType::And { a & b } else { a | b }),
    {
        proof {
            let ia = avail@[s1 as int]@.index_of(a);
            let ib = avail@[size - 1 - s1]@.index_of(b);
            assert(avail@[s1 as int]@[ia] == a);
            assert(avail@[size - 1 - s1]@[ib] == b);
        }
        let tt = gate.apply(a, b);
        let ghost before = self.table();
        let ghost found_before = found@;
        if self.try_insert(tt, size, a, b, gate) {
            found.push(tt);
            proof {
                let info = self.table()[tt];
                assert(info == gate_info(before, size, a, b, gate));
                assert(before[a] == base[a] && before[b] == base[b]);
                assert(made_of(base, avail@, size as nat, a, b, info.depth));
                assert(synthesized(base, avail@, size as nat, tt, info));
                assert(!found_before.contains(tt));
                assert forall|t: TruthTable| #[trigger] found@.contains(t)
                    <==> (self.table().contains_key(t) && !base.contains_key(t)) by {
                    if found@.contains(t) && t != tt {
                        let k = found@.index_of(t);
                        assert(found_before[k] == t);
                    }
                    if t != tt && found_before.contains(t) {
                        let k = found_before.index_of(t);
                        assert(found@[k] == t);
                    }
                    if t == tt {
                        assert(found@[found@.len() - 1] == tt);
                    }
                }
                assert(found@.no_duplicates());
            }
        }
    }

    /// Claims both gates over `avail[s1][i1]` and each `avail[size-1-s1][j]`
    /// with `j >= start_j`, adding each new truth table to `found`.
    fn search_row(
        &mut self,
        size: usize,
        avail: &Vec<Vec<TruthTable>>,
        s1: usize,
        i1: usize,
        start_j: usize,
        found: &mut Vec<TruthTable>,
        Ghost(base): Ghost<Map<TruthTable, FunctionInfo>>,
    )
        requires
            old(self).progress(base, avail@, size as nat, old(found)@),
            available_ok(base, avail@, size as nat),
            1 <= size <= SIZE_LIMIT,
            s1 < size,
            size - 1 - s1 <= s1,
            i1 < avail@[s1 as int]@.len(),
            start_j <= avail@[size - 1 - s1]@.len(),
        ensures
            final(self).progress(base, avail@, size as nat, final(found)@),
            final(self).same_settings(old(self)),
            forall|tt: TruthTable| #[trigger] old(self).table().contains_key(tt) ==> final(self).table().contains_key(tt),
            forall|j: int| start_j <= j < avail@[size - 1 - s1]@.len()
                ==> #[trigger] pair_done(final(self).table(), avail@[s1 as int]@[i1 as int], avail@[size - 1 - s1]@[j]),
    {
        let s2: usize = size - 1 - s1;
        let tt1: TruthTable = avail[s1][i1];
        let list2: &Vec<TruthTable> = &avail[s2];
        let mut j: usize = start_j;
        proof {
            assert(avail@[s1 as int]@.contains(tt1));
        }
        while j < list2.len()
            invariant
                self.progress(base, avail@, size as nat, found@),
                self.same_settings(old(self)),
                available_ok(base, avail@, size as nat),
                1 <= size <= SIZE_LIMIT,
                s1 < size,
                s2 == size - 1 - s1,
                s2 <= s1,
                i1 < avail@[s1 as int]@.len(),
                tt1 == avail@[s1 as int]@[i1 as int],
                avail@[s1 as int]@.contains(tt1),
                list2@ == avail@[s2 as int]@,
                start_j <= j <= list2@.len(),
                forall|tt: TruthTable| #[trigger] old(self).table().contains_key(tt) ==> self.table().contains_key(tt),
                forall|jj: int| start_j <= jj < j ==> #[trigger] pair_done(self.table(), tt1, list2@[jj]),
            decreases list2@.len() - j,
        {
            let tt2: TruthTable = list2[j];
            proof {
                assert(list2@[j as int] == avail@[s2 as int]@[j as int]);
                assert(avail@[s2 as int]@.contains(tt2));
                assert(base.contains_key(tt1) && base.contains_key(tt2));
            }
            let ghost prev = self.table();
            self.claim(size, avail, s1, tt1, tt2, GateType::And, found, Ghost(base));
            let ghost mid = self.table();
            self.claim(size, avail, s1, tt1, tt2, GateType::Or, found, Ghost(base));
            proof {
                assert forall|jj: int| start_j <= jj < j + 1 implies #[trigger] pair_done(self.table(), tt1, list2@[jj]) by {
                    if jj < j {
                        assert(pair_done(prev, tt1, list2@[jj]));
                        assert(mid.contains_key(tt1 & list2@[jj]) && mid.contains_key(tt1 | list2@[jj]));
                    } else {
                        assert(mid.contains_key(tt1 & tt2));
                    }
                }
            }
            j = j + 1;
        }
    }
}

/// Every pair of list `k` and its complement list has both gates recorded;
/// where the two lists are the same, each unordered pair once.
pub open spec fn block_done(table: Map<TruthTable, FunctionInfo>, avail: Seq<Vec<TruthTable>>, size: nat, k: int) -> bool {
    forall|i: int, j: int| 0 <= i < avail[k]@.len() && 0 <= j < avail[size - 1 - k]@.len() && (k != size - 1 - k || i <= j)
        ==> #[trigger] pair_done(table, avail[k]@[i], avail[size - 1 - k]@[j])
}

proof fn lemma_block_done_grows(t1: Map<TruthTable, FunctionInfo>, t2: Map<TruthTable, FunctionInfo>, avail: Seq<Vec<TruthTable>>, size: nat, k: int)
    requires
        block_done(t1, avail, size, k),
        forall|tt: TruthTable| #[trigger] t1.contains_key(tt) ==> t2.contains_key(tt),
    ensures
        block_done(t2, avail, size, k),
{
    assert forall|i: int, j: int| 0 <= i < avail[k]@.len() && 0 <= j < avail[size - 1 - k]@.len() && (k != size - 1 - k || i <= j)
        implies #[trigger] pair_done(t2, avail[k]@[i], avail[size - 1 - k]@[j]) by {
        assert(pair_done(t1, avail[k]@[i], avail[size - 1 - k]@[j]));
    }
}

impl DistributedWorker {
    /// Claims both gates over every pair of list `s1` and its complement
    /// list `size - 1 - s1`, which is not larger.
    fn search_pair(
        &mut self,
        size: usize,
        avail: &Vec<Vec<TruthTable>>,
        s1: usize,
        found: &mut Vec<TruthTable>,
        Ghost(base): Ghost<Map<TruthTable, FunctionInfo>>,
    )
        requires
            old(self).progress(base, avail@, size as nat, old(found)@),
            available_ok(base, avail@, size as nat),
            1 <= size <= SIZE_LIMIT,
            s1 < size,
            size - 1 - s1 <= s1,
        ensures
            final(self).progress(base, avail@, size as nat, final(found)@),
            final(self).same_settings(old(self)),
            forall|tt: TruthTable| #[trigger] old(self).table().contains_key(tt) ==> final(self).table().contains_key(tt),
            block_done(final(self).table(), avail@, size as nat, s1 as int),
    {
        let s2: usize = size - 1 - s1;
        let same_size = s1 == s2;
        let len1 = avail[s1].len();
        let mut i1: usize = 0;
        while i1 < len1
            invariant
                self.progress(base, avail@, size as nat, found@),
                self.same_settings(old(self)),
                available_ok(base, avail@, size as nat),
                1 <= size <= SIZE_LIMIT,
                s1 < size,
                s2 == size - 1 - s1,
                s2 <= s1,
                same_size == (s1 == s2),
                len1 == avail@[s1 as int]@.len(),
                i1 <= len1,
                forall|tt: TruthTable| #[trigger] old(self).table().contains_key(tt) ==> self.table().contains_key(tt),
                forall|i: int, j: int| 0 <= i < i1 && 0 <= j < avail@[s2 as int]@.len() && (!same_size || i <= j)
                    ==> #[trigger] pair_done(self.table(), avail@[s1 as int]@[i], avail@[s2 as int]@[j]),
            decreases len1 - i1,
        {
            let start_j: usize = if same_size { i1 } else { 0 };
            proof {
                if same_size {
                    assert(start_j <= avail@[s2 as int]@.len());
                }
            }
            let ghost prev = self.table();
            self.search_row(size, avail, s1, i1, start_j, found, Ghost(base));
            proof {
                assert forall|i: int, j: int| 0 <= i < i1 + 1 && 0 <= j < avail@[s2 as int]@.len() && (!same_size || i <= j)
                    implies #[trigger] pair_done(self.table(), avail@[s1 as int]@[i], avail@[s2 as int]@[j]) by {
                    if i < i1 {
                        assert(pair_done(prev, avail@[s1 as int]@[i], avail@[s2 as int]@[j]));
                    }
                }
            }
            i1 = i1 + 1;
        }
        proof {
            assert forall|i: int, j: int| 0 <= i < avail@[s1 as int]@.len() && 0 <= j < avail@[size - 1 - s1]@.len() && (s1 != size - 1 - s1 || i <= j)
                implies #[trigger] pair_done(self.table(), avail@[s1 as int]@[i], avail@[size - 1 - s1]@[j]) by {
                assert(pair_done(self.table(), avail@[s1 as int]@[i], avail@[s2 as int]@[j]));
            }
        }
    }

    /// Searches size `size`: claims both gates over every pair of recorded
    /// functions whose sizes sum to `size - 1`, as listed in `avail`, and
    /// returns the truth tables found new, once each.
    pub fn search_size(&mut self, size: usize, avail: &Vec<Vec<TruthTable>>) -> (found: Vec<TruthTable>)
        requires
            old(self).wf(),
            1 <= size <= SIZE_LIMIT,
            available_ok(old(self).table(), avail@, size as nat),
        ensures
            final(self).wf(),
            final(self).same_settings(old(self)),
            forall|tt: TruthTable| #[trigger] old(self).table().contains_key(tt)
                ==> final(self).table().contains_key(tt) && final(self).table()[tt] == old(self).table()[tt],
            forall|tt: TruthTable| #[trigger] final(self).table().contains_key(tt) && !old(self).table().contains_key(tt)
                ==> synthesized(old(self).table(), avail@, size as nat, tt, final(self).table()[tt]),
            found@.no_duplicates(),
            forall|tt: TruthTable| #[trigger] found@.contains(tt)
                <==> (final(self).table().contains_key(tt) && !old(self).table().contains_key(tt)),
            pairs_done(final(self).table(), avail@, size as nat),
    {
        let ghost base = self.table();
        let mut found: Vec<TruthTable> = Vec::new();
        let mut s1: usize = 0;
        while s1 < size
            invariant
                self.progress(base, avail@, size as nat, found@),
                self.same_settings(old(self)),
                base == old(self).table(),
                available_ok(base, avail@, size as nat),
                1 <= size <= SIZE_LIMIT,
                s1 <= size,
                forall|k: int| 0 <= k < s1 && size - 1 - k <= k ==> #[trigger] block_done(self.table(), avail@, size as nat, k),
            decreases size - s1,
        {
            let s2: usize = size - 1 - s1;
            if s2 <= s1 {
                let ghost prev = self.table();
                self.search_pair(size, avail, s1, &mut found, Ghost(base));
                proof {
                    assert forall|k: int| 0 <= k < s1 + 1 && size - 1 - k <= k implies #[trigger] block_done(self.table(), avail@, size as nat, k) by {
                        if k < s1 {
                            lemma_block_done_grows(prev, self.table(), avail@, size as nat, k);
                        }
                    }
                }
            }
            s1 = s1 + 1;
        }
        proof {
            let t = self.table();
            assert forall|k: int, i: int, j: int| 0 <= k < size && 0 <= i < avail@[k]@.len() && 0 <= j < avail@[size - 1 - k]@.len()
                implies #[trigger] pair_done(t, avail@[k]@[i], avail@[size - 1 - k]@[j]) by {
                let k2 = size - 1 - k;
                let a = avail@[k]@[i];
                let b = avail@[k2]@[j];
                lemma_gates_commute(a, b);
                if k2 < k {
                    assert(block_done(t, avail@, size as nat, k));
                } else if k2 > k {
                    assert(block_done(t, avail@, size as nat, k2));
                    assert(size - 1 - k2 == k);
                    assert(pair_done(t, avail@[k2]@[j], avail@[k]@[i]));
                } else {
                    assert(block_done(t, avail@, size as nat, k));
                    if i <= j {
                        assert(pair_done(t, a, b));
                    } else {
                        assert(pair_done(t, avail@[k]@[j], avail@[k2]@[i]));
                    }
                }
            }
        }
        found
    }
}

/// `(a.size, a.depth)` precedes `(b.size, b.depth)` lexicographically.
pub open spec fn lex_less(a: FunctionInfo, b: FunctionInfo) -> bool {
    a.size < b.size || (a.size == b.size && a.depth < b.depth)
}

/// The zoo after merging one catalog record: a new truth table is
/// recorded; a known one is replaced by a strictly better record; a
/// malformed record is skipped.
pub open spec fn merge_one(table: Map<TruthTable, FunctionInfo>, rec: (TruthTable, FunctionInfo)) -> Map<TruthTable, FunctionInfo> {
    if !entry_ok(rec.1) {
        table
    } else if !table.contains_key(rec.0) || lex_less(rec.1, table[rec.0]) {
        table.insert(rec.0, rec.1)
    } else {
        table
    }
}

/// The zoo after merging the records in order.
pub open spec fn merge_all(table: Map<TruthTable, FunctionInfo>, recs: Seq<(TruthTable, FunctionInfo)>) -> Map<TruthTable, FunctionInfo>
    decreases recs.len(),
{
    if recs.len() == 0 {
        table
    } else {
        merge_one(merge_all(table, recs.drop_last()), recs.last())
    }
}

/// Every well-formed record is matched or bettered by the zoo.
pub open spec fn absorbs(table: Map<TruthTable, FunctionInfo>, recs: Seq<(TruthTable, FunctionInfo)>) -> bool {
    forall|i: int| 0 <= i < recs.len() && entry_ok(#[trigger] recs[i].1)
        ==> table.contains_key(recs[i].0) && !lex_less(recs[i].1, table[recs[i].0])
}

proof fn lemma_merge_absorbs(table: Map<TruthTable, FunctionInfo>, recs: Seq<(TruthTable, FunctionInfo)>)
    ensures
        absorbs(merge_all(table, recs), recs),
    decreases recs.len(),
{
    if recs.len() > 0 {
        let prefix = recs.drop_last();
        lemma_merge_absorbs(table, prefix);
        let t0 = merge_all(table, prefix);
        let t1 = merge_all(table, recs);
        assert(t1 == merge_one(t0, recs.last()));
        assert forall|i: int| 0 <= i < recs.len() && entry_ok(#[trigger] recs[i].1)
            implies t1.contains_key(recs[i].0) && !lex_less(recs[i].1, t1[recs[i].0]) by {
            if i < recs.len() - 1 {
                assert(prefix[i] == recs[i]);
            }
        }
    }
}

proof fn lemma_merge_absorbed(table: Map<TruthTable, FunctionInfo>, recs: Seq<(TruthTable, FunctionInfo)>)
    requires
        absorbs(table, recs),
    ensures
        merge_all(table, recs) == table,
    decreases recs.len(),
{
    if recs.len() > 0 {
        let prefix = recs.drop_last();
        assert forall|i: int| 0 <= i < prefix.len() && entry_ok(#[trigger] prefix[i].1)
            implies table.contains_key(prefix[i].0) && !lex_less(prefix[i].1, table[prefix[i].0]) by {
            assert(prefix[i] == recs[i]);
        }
        lemma_merge_absorbed(table, prefix);
        let last = recs.last();
        assert(recs[recs.len() - 1] == last);
    }
}

/// Merging the same catalog records a second time changes nothing: two
/// loads with no write between them give the same zoo.
pub proof fn lemma_merge_idempotent(table: Map<TruthTable, FunctionInfo>, recs: Seq<(TruthTable, FunctionInfo)>)
    ensures
        merge_all(merge_all(table, recs), recs) == merge_all(table, recs),
{
    lemma_merge_absorbs(table, recs);
    lemma_merge_absorbed(merge_all(table, recs), recs);
}

impl DistributedWorker {
    /// Merges one record pulled from the catalog. Returns whether its truth
    /// table was new here. Nothing is queued: the record is in the catalog.
    pub fn merge_external(&mut self, tt: TruthTable, info: FunctionInfo) -> (added: bool)
        requires
            old(self).wf(),
        ensures
            final(self).wf(),
            final(self).same_settings(old(self)),
            final(self).table() == merge_one(old(self).table(), (tt, info)),
            added == (entry_ok(info) && !old(self).table().contains_key(tt)),
            final(self).found_count == old(self).found_count + (if added { 1int } else { 0int }),
            final(self).pending_writes@ == old(self).pending_writes@,
    {
        let ok = (info.size == 0) == info.circuit.is_literal() && info.size <= SIZE_LIMIT
            && info.depth <= SIZE_LIMIT + info.size;
        if !ok {
            return false;
        }
        match table_get(&self.functions, tt) {
            None => {
                self.record(tt, info);
                true
            },
            Some(cur) => {
                let better = info.size < cur.size || (info.size == cur.size && info.depth < cur.depth);
                if better {
                    table_insert(&mut self.functions, tt, info);
                    proof {
                        assert(self.table().dom() =~= old(self).table().dom());
                    }
                }
                false
            },
        }
    }

    /// Merges the records of one pull from the catalog, in order, and
    /// returns how many truth tables were new here.
    pub fn load_records(&mut self, records: &Vec<(TruthTable, FunctionInfo)>) -> (loaded: usize)
        requires
            old(self).wf(),
        ensures
            final(self).wf(),
            final(self).same_settings(old(self)),
            final(self).table() == merge_all(old(self).table(), records@),
            forall|tt: TruthTable| #[trigger] old(self).table().contains_key(tt)
                ==> final(self).table().contains_key(tt) && final(self).table()[tt].size <= old(self).table()[tt].size,
            loaded == final(self).found_count - old(self).found_count,
            final(self).pending_writes@ == old(self).pending_writes@,
    {
        let mut loaded: usize = 0;
        let mut i: usize = 0;
        while i < records.len()
            invariant
                self.wf(),
                self.same_settings(old(self)),
                i <= records@.len(),
                self.table() == merge_all(old(self).table(), records@.subrange(0, i as int)),
                forall|tt: TruthTable| #[trigger] old(self).table().contains_key(tt)
                    ==> self.table().contains_key(tt) && self.table()[tt].size <= old(self).table()[tt].size,
                loaded == self.found_count - old(self).found_count,
                self.pending_writes@ == old(self).pending_writes@,
            decreases records@.len() - i,
        {
            let (tt, info) = records[i];
            proof {
                assert(records@.subrange(0, i + 1).drop_last() =~= records@.subrange(0, i as int));
                assert(records@.subrange(0, i + 1).last() == records@[i as int]);
                self.lemma_found_count_is_cardinality();
            }
            if self.merge_external(tt, info) {
                let recorded: usize = self.keys.len();
                assert(loaded + 1 <= recorded);
                loaded = loaded + 1;
            }
            i = i + 1;
        }
        proof {
            assert(records@.subrange(0, records@.len() as int) =~= records@);
        }
        loaded
    }
}

/// A recorded literal: size zero, depth zero, and the table of the literal
/// it names.
pub open spec fn is_literal_entry(tt: TruthTable, info: FunctionInfo, n: nat) -> bool {
    &&& info.size == 0
    &&& info.depth == 0
    &&& match info.circuit {
        CircuitNode::Literal { var, neg } => var < n && tt == literal_spec(var as nat, neg, n),
        _ => false,
    }
}

} // verus!
