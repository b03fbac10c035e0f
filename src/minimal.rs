//! What a complete search establishes: each recorded size is the least
//! number of gates of any formula for that function.
use vstd::prelude::*;
use crate::circuit::{CircuitNode, FunctionInfo};
use crate::truth_table::{literal_spec, TruthTable};
use crate::worker::{pair_done, pairs_done, synthesized};

verus! {

/// A formula over the literals: a tree of binary gates.
pub enum Formula {
    Lit { var: nat, neg: bool },
    And { left: Box<Formula>, right: Box<Formula> },
    Or { left: Box<Formula>, right: Box<Formula> },
}

/// The truth table a formula computes over `n` variables.
pub open spec fn eval(f: Formula, n: nat) -> TruthTable
    decreases f,
{
    match f {
        Formula::Lit { var, neg } => literal_spec(var, neg, n),
        Formula::And { left, right } => eval(*left, n) & eval(*right, n),
        Formula::Or { left, right } => eval(*left, n) | eval(*right, n),
    }
}

/// The number of binary gates of a formula.
pub open spec fn gates(f: Formula) -> nat
    decreases f,
{
    match f {
        Formula::Lit { .. } => 0,
        Formula::And { left, right } => gates(*left) + gates(*right) + 1,
        Formula::Or { left, right } => gates(*left) + gates(*right) + 1,
    }
}

/// Every literal of the formula names one of the `n` variables.
pub open spec fn uses_vars(f: Formula, n: nat) -> bool
    decreases f,
{
    match f {
        Formula::Lit { var, .. } => var < n,
        Formula::And { left, right } => uses_vars(*left, n) && uses_vars(*right, n),
        Formula::Or { left, right } => uses_vars(*left, n) && uses_vars(*right, n),
    }
}

/// `tt` is computed by a formula over the literals of `n` variables with at
/// most `s` binary gates.
pub open spec fn formula_within(tt: TruthTable, n: nat, s: nat) -> bool {
    exists|f: Formula| #[trigger] uses_vars(f, n) && eval(f, n) == tt && gates(f) <= s
}

proof fn lemma_within_gate(x: TruthTable, y: TruthTable, n: nat, s1: nat, s2: nat, is_and: bool)
    requires
        formula_within(x, n, s1),
        formula_within(y, n, s2),
    ensures
        formula_within(if is_and { x & y } else { x | y }, n, s1 + s2 + 1),
{
    let fx = choose|f: Formula| #[trigger] uses_vars(f, n) && eval(f, n) == x && gates(f) <= s1;
    let fy = choose|f: Formula| #[trigger] uses_vars(f, n) && eval(f, n) == y && gates(f) <= s2;
    let g = if is_and {
        Formula::And { left: Box::new(fx), right: Box::new(fy) }
    } else {
        Formula::Or { left: Box::new(fx), right: Box::new(fy) }
    };
    assert(uses_vars(g, n) && eval(g, n) == (if is_and { x & y } else { x | y }) && gates(g) <= s1 + s2 + 1);
}

pub proof fn lemma_within_literal(var: nat, neg: bool, n: nat)
    requires
        var < n,
    ensures
        formula_within(literal_spec(var, neg, n), n, 0),
{
    let f = Formula::Lit { var, neg };
    assert(uses_vars(f, n) && eval(f, n) == literal_spec(var, neg, n) && gates(f) <= 0);
}

/// Every recorded size is achieved by some formula.
pub open spec fn sound(table: Map<TruthTable, FunctionInfo>, n: nat) -> bool {
    forall|tt: TruthTable| #[trigger] table.contains_key(tt) ==> formula_within(tt, n, table[tt].size as nat)
}

/// Every function with a formula of at most `s <= max` gates is recorded
/// with size at most `s`.
pub open spec fn exhaustive(table: Map<TruthTable, FunctionInfo>, n: nat, max: nat) -> bool {
    forall|tt: TruthTable, s: nat| s <= max && #[trigger] formula_within(tt, n, s)
        ==> table.contains_key(tt) && table[tt].size <= s
}

/// Two zoos that are sound and exhaustive up to `max` record the same
/// functions of size at most `max`, each with the same size: complete
/// searches agree on sizes, whatever witnesses they chose.
pub proof fn lemma_complete_searches_agree(
    t1: Map<TruthTable, FunctionInfo>,
    t2: Map<TruthTable, FunctionInfo>,
    n: nat,
    max: nat,
    tt: TruthTable,
)
    requires
        sound(t1, n),
        sound(t2, n),
        exhaustive(t1, n, max),
        exhaustive(t2, n, max),
    ensures
        t1.contains_key(tt) && t1[tt].size <= max ==> t2.contains_key(tt) && t2[tt].size == t1[tt].size,
        t2.contains_key(tt) && t2[tt].size <= max ==> t1.contains_key(tt) && t1[tt].size == t2[tt].size,
{
    if t1.contains_key(tt) && t1[tt].size <= max {
        assert(formula_within(tt, n, t1[tt].size as nat));
        assert(t2.contains_key(tt) && t2[tt].size <= t1[tt].size);
        assert(formula_within(tt, n, t2[tt].size as nat));
    }
    if t2.contains_key(tt) && t2[tt].size <= max {
        assert(formula_within(tt, n, t2[tt].size as nat));
        assert(t1.contains_key(tt) && t1[tt].size <= t2[tt].size);
        assert(formula_within(tt, n, t1[tt].size as nat));
    }
}

/// The state of a local search about to search `size`: the literals are
/// recorded with size zero, every entry is smaller than `size` and sound,
/// list `k` holds exactly the entries of size `k`, and every function with
/// a formula of fewer than `size` gates is recorded no larger.
pub open spec fn search_state(
    table: Map<TruthTable, FunctionInfo>,
    avail: Seq<Vec<TruthTable>>,
    n: nat,
    size: nat,
) -> bool {
    &&& forall|var: nat, neg: bool| var < n ==> #[trigger] table.contains_key(literal_spec(var, neg, n))
        && table[literal_spec(var, neg, n)].size == 0
    &&& sound(table, n)
    &&& forall|tt: TruthTable| #[trigger] table.contains_key(tt) ==> table[tt].size < size
    &&& size <= avail.len()
    &&& forall|k: int, j: int| #![trigger avail[k]@[j]] 0 <= k < avail.len() && 0 <= j < avail[k]@.len()
        ==> table.contains_key(avail[k]@[j]) && table[avail[k]@[j]].size == k
    &&& forall|tt: TruthTable| #[trigger] table.contains_key(tt) && table[tt].size < size
        ==> avail[table[tt].size as int]@.contains(tt)
    &&& forall|tt: TruthTable, s: nat| s < size && #[trigger] formula_within(tt, n, s)
        ==> table.contains_key(tt) && table[tt].size <= s
}

proof fn lemma_member_sound(
    table: Map<TruthTable, FunctionInfo>,
    avail: Seq<Vec<TruthTable>>,
    n: nat,
    size: nat,
    k: int,
    x: TruthTable,
)
    requires
        search_state(table, avail, n, size),
        0 <= k < avail.len(),
        avail[k]@.contains(x),
    ensures
        table.contains_key(x),
        table[x].size == k,
        formula_within(x, n, k as nat),
{
    let j = avail[k]@.index_of(x);
    assert(avail[k]@[j] == x);
}

/// Sealing `size` after searching it carries the search state on to
/// `size + 1`.
pub proof fn lemma_seal_step(
    p: Map<TruthTable, FunctionInfo>,
    t: Map<TruthTable, FunctionInfo>,
    pa: Seq<Vec<TruthTable>>,
    a: Seq<Vec<TruthTable>>,
    n: nat,
    size: nat,
)
    requires
        search_state(p, pa, n, size),
        1 <= size < pa.len(),
        a.len() == pa.len(),
        forall|k: int| 0 <= k < a.len() && k != size ==> #[trigger] a[k] == pa[k],
        forall|tt: TruthTable| #[trigger] a[size as int]@.contains(tt) <==> (t.contains_key(tt) && !p.contains_key(tt)),
        forall|tt: TruthTable| #[trigger] p.contains_key(tt) ==> t.contains_key(tt) && t[tt] == p[tt],
        forall|tt: TruthTable| #[trigger] t.contains_key(tt) && !p.contains_key(tt)
            ==> synthesized(p, pa, size, tt, t[tt]),
        pairs_done(t, pa, size),
    ensures
        search_state(t, a, n, size + 1),
{
    assert forall|tt: TruthTable| #[trigger] t.contains_key(tt) && !p.contains_key(tt)
        implies t[tt].size == size && formula_within(tt, n, size) by {
        let info = t[tt];
        assert(synthesized(p, pa, size, tt, info));
        match info.circuit {
            CircuitNode::Literal { .. } => {},
            CircuitNode::And { left, right } => {
                let k = choose|k: int| 0 <= k < size && #[trigger] pa[k]@.contains(left) && pa[size - 1 - k]@.contains(right);
                lemma_member_sound(p, pa, n, size, k, left);
                lemma_member_sound(p, pa, n, size, size - 1 - k, right);
                let s1 = k as nat;
                let s2 = (size - 1 - k) as nat;
                lemma_within_gate(left, right, n, s1, s2, true);
                assert(s1 + s2 + 1 == size);
            },
            CircuitNode::Or { left, right } => {
                let k = choose|k: int| 0 <= k < size && #[trigger] pa[k]@.contains(left) && pa[size - 1 - k]@.contains(right);
                lemma_member_sound(p, pa, n, size, k, left);
                lemma_member_sound(p, pa, n, size, size - 1 - k, right);
                let s1 = k as nat;
                let s2 = (size - 1 - k) as nat;
                lemma_within_gate(left, right, n, s1, s2, false);
                assert(s1 + s2 + 1 == size);
            },
        }
    }
    assert(sound(t, n));
    assert forall|tt: TruthTable| #[trigger] t.contains_key(tt) implies t[tt].size < size + 1 by {
        if p.contains_key(tt) {
            assert(p[tt].size < size);
        }
    }
    assert forall|var: nat, neg: bool| var < n implies #[trigger] t.contains_key(literal_spec(var, neg, n))
        && t[literal_spec(var, neg, n)].size == 0 by {
        assert(p.contains_key(literal_spec(var, neg, n)));
    }
    assert forall|k: int, j: int| #![trigger a[k]@[j]] 0 <= k < a.len() && 0 <= j < a[k]@.len()
        implies t.contains_key(a[k]@[j]) && t[a[k]@[j]].size == k by {
        let x = a[k]@[j];
        if k == size {
            assert(a[k]@.contains(x));
        } else {
            assert(a[k] == pa[k]);
            assert(pa[k]@[j] == x);
        }
    }
    assert forall|tt: TruthTable| #[trigger] t.contains_key(tt) && t[tt].size < size + 1
        implies a[t[tt].size as int]@.contains(tt) by {
        if !p.contains_key(tt) {
            assert(a[size as int]@.contains(tt));
        } else {
            let k = p[tt].size as int;
            assert(pa[k]@.contains(tt));
            assert(a[k] == pa[k]);
        }
    }
    assert forall|tt: TruthTable, s: nat| s < size + 1 && #[trigger] formula_within(tt, n, s)
        implies t.contains_key(tt) && t[tt].size <= s by {
        if s < size {
            assert(p.contains_key(tt) && p[tt].size <= s);
        } else {
            assert(s == size);
            let f = choose|f: Formula| #[trigger] uses_vars(f, n) && eval(f, n) == tt && gates(f) <= s;
            match f {
                Formula::Lit { var, neg } => {
                    assert(p.contains_key(literal_spec(var, neg, n)));
                },
                Formula::And { left, right } | Formula::Or { left, right } => {
                    let x = eval(*left, n);
                    let y = eval(*right, n);
                    let s1 = gates(*left);
                    let s2 = gates(*right);
                    assert(uses_vars(*left, n) && uses_vars(*right, n));
                    assert(formula_within(x, n, s1));
                    assert(formula_within(y, n, s2));
                    assert(p.contains_key(x) && p[x].size <= s1);
                    assert(p.contains_key(y) && p[y].size <= s2);
                    let k1 = p[x].size as nat;
                    let k2 = p[y].size as nat;
                    let is_and = f is And;
                    assert(tt == if is_and { x & y } else { x | y });
                    lemma_within_gate(x, y, n, k1, k2, is_and);
                    if k1 + k2 + 1 < size {
                        assert(p.contains_key(tt) && p[tt].size <= k1 + k2 + 1);
                    } else {
                        assert(pa[k1 as int]@.contains(x));
                        assert(pa[k2 as int]@.contains(y));
                        let i = pa[k1 as int]@.index_of(x);
                        let j = pa[k2 as int]@.index_of(y);
                        assert(k2 == size - 1 - k1);
                        assert(pair_done(t, pa[k1 as int]@[i], pa[size - 1 - k1]@[j]));
                        assert(t.contains_key(tt));
                        if !p.contains_key(tt) {
                            assert(t[tt].size == size);
                        }
                    }
                },
            }
        }
    }
}

} // verus!
