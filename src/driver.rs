//! The size-by-size search driver: availability lists, where a search
//! resumes, and the queue of discoveries for the catalog.
use vstd::prelude::*;
use crate::circuit::{CircuitNode, FunctionInfo};
use crate::minimal::{
    eval, exhaustive, formula_within, gates, lemma_seal_step, lemma_within_literal, search_state, sound,
    uses_vars, Formula,
};
use crate::table::table_get;
use crate::truth_table::{literal_spec, TruthTable};
use crate::worker::{
    merge_all, available_ok, is_literal_entry, pairs_done, synthesized, DistributedWorker, SIZE_LIMIT,
};

verus! {

/// The largest index `s` in `1..=hi` whose list is not empty, or 0.
pub open spec fn last_nonempty(avail: Seq<Vec<TruthTable>>, hi: int) -> int
    decreases hi,
{
    if hi < 1 {
        0
    } else if avail[hi]@.len() > 0 {
        hi
    } else {
        last_nonempty(avail, hi - 1)
    }
}

/// The size after the largest one that already has members, at most
/// `max_size`.
pub open spec fn resume_size(avail: Seq<Vec<TruthTable>>, max_size: int) -> int {
    let s = last_nonempty(avail, max_size) + 1;
    if s > max_size { max_size } else { s }
}

/// Where a search resumes: one past the largest size whose list has
/// members, at most `max_size`. Sizes up to there count as done.
pub fn start_size(avail: &Vec<Vec<TruthTable>>, max_size: usize) -> (s: usize)
    requires
        max_size < avail@.len(),
    ensures
        s == resume_size(avail@, max_size as int),
{
    let len: usize = avail.len();
    let mut start: usize = 1;
    let mut size: usize = 1;
    while size <= max_size
        invariant
            max_size < len,
            len == avail@.len(),
            1 <= size <= max_size + 1,
            start == last_nonempty(avail@, size - 1) + 1,
        decreases max_size + 1 - size,
    {
        if avail[size].len() > 0 {
            start = size + 1;
        }
        size = size + 1;
    }
    if start > max_size {
        start = max_size;
    }
    start
}

/// Whether the catalog is pulled again after searching `size`.
pub fn pulls_after(size: usize) -> (r: bool)
    ensures
        r == (size % 3 == 0),
{
    size % 3 == 0
}

/// What the search driver does next.
#[derive(Clone, Copy, Debug, PartialEq, Eq, Structural)]
pub enum Step {
    /// Search this size and seal its list.
    Search(usize),
    /// Pull the catalog and merge what it holds.
    Pull,
    /// Stop searching and push what is still queued.
    Flush,
}

/// The driver's decision after searching `last` (0: before the first size),
/// where `pulled` says whether the catalog was pulled since.
pub open spec fn step_spec(
    avail: Seq<Vec<TruthTable>>,
    max_size: nat,
    all_found: bool,
    last: nat,
    pulled: bool,
) -> Step {
    if last == 0 {
        let first = if resume_size(avail, max_size as int) < 1 { 1 } else { resume_size(avail, max_size as int) };
        if all_found || first > max_size {
            Step::Flush
        } else {
            Step::Search(first as usize)
        }
    } else if last % 3 == 0 && !pulled {
        Step::Pull
    } else if all_found || last >= max_size {
        Step::Flush
    } else {
        Step::Search((last + 1) as usize)
    }
}

impl DistributedWorker {
    /// Lists the recorded truth tables of each size up to `max_size`.
    pub fn available_by_size(&self, max_size: usize) -> (avail: Vec<Vec<TruthTable>>)
        requires
            self.wf(),
            max_size < usize::MAX,
        ensures
            avail@.len() == max_size + 1,
            forall|k: int, j: int| #![trigger avail@[k]@[j]] 0 <= k < avail@.len() && 0 <= j < avail@[k]@.len()
                ==> self.table().contains_key(avail@[k]@[j]) && self.table()[avail@[k]@[j]].size == k,
            forall|tt: TruthTable| #[trigger] self.table().contains_key(tt) && self.table()[tt].size <= max_size
                ==> avail@[self.table()[tt].size as int]@.contains(tt),
    {
        let mut avail: Vec<Vec<TruthTable>> = Vec::new();
        let mut k: usize = 0;
        while k <= max_size
            invariant
                k <= max_size + 1,
                max_size < usize::MAX,
                avail@.len() == k,
                forall|i: int| 0 <= i < k ==> (#[trigger] avail@[i])@.len() == 0,
            decreases max_size + 1 - k,
        {
            avail.push(Vec::new());
            k = k + 1;
        }
        let mut i: usize = 0;
        while i < self.keys.len()
            invariant
                self.wf(),
                i <= self.keys@.len(),
                avail@.len() == max_size + 1,
                forall|k: int, j: int| #![trigger avail@[k]@[j]] 0 <= k < avail@.len() && 0 <= j < avail@[k]@.len()
                    ==> self.table().contains_key(avail@[k]@[j]) && self.table()[avail@[k]@[j]].size == k,
                forall|m: int| 0 <= m < i && self.table()[#[trigger] self.keys@[m]].size <= max_size
                    ==> avail@[self.table()[self.keys@[m]].size as int]@.contains(self.keys@[m]),
            decreases self.keys@.len() - i,
        {
            let tt = self.keys[i];
            proof {
                assert(self.keys@.to_set().contains(tt));
            }
            let size: usize = match table_get(&self.functions, tt) {
                Some(info) => info.size,
                None => max_size + 1,
            };
            if size <= max_size {
                let ghost prev = avail@;
                avail[size].push(tt);
                proof {
                    assert forall|k: int, j: int| #![trigger avail@[k]@[j]] 0 <= k < avail@.len() && 0 <= j < avail@[k]@.len()
                        implies self.table().contains_key(avail@[k]@[j]) && self.table()[avail@[k]@[j]].size == k by {
                        if k != size || j < prev[k]@.len() {
                            assert(avail@[k]@[j] == prev[k]@[j]);
                        }
                    }
                    assert forall|m: int| 0 <= m < i + 1 && self.table()[#[trigger] self.keys@[m]].size <= max_size
                        implies avail@[self.table()[self.keys@[m]].size as int]@.contains(self.keys@[m]) by {
                        let km = self.table()[self.keys@[m]].size as int;
                        if m < i {
                            let j = prev[km]@.index_of(self.keys@[m]);
                            assert(avail@[km]@[j] == self.keys@[m]);
                        } else {
                            assert(avail@[km]@[avail@[km]@.len() - 1] == tt);
                        }
                    }
                }
            }
            i = i + 1;
        }
        proof {
            assert forall|tt: TruthTable| #[trigger] self.table().contains_key(tt) && self.table()[tt].size <= max_size
                implies avail@[self.table()[tt].size as int]@.contains(tt) by {
                assert(self.keys@.to_set().contains(tt));
                let m = self.keys@.index_of(tt);
                assert(self.keys@[m] == tt);
            }
        }
        avail
    }

    /// Searches `size` and seals its list: the truth tables found new are
    /// appended to it. Returns how many there were.
    pub fn search_and_seal(&mut self, avail: &mut Vec<Vec<TruthTable>>, size: usize) -> (count: usize)
        requires
            old(self).wf(),
            1 <= size <= SIZE_LIMIT,
            size < old(avail)@.len(),
            available_ok(old(self).table(), old(avail)@, size as nat + 1),
        ensures
            final(self).wf(),
            final(self).same_settings(old(self)),
            final(avail)@.len() == old(avail)@.len(),
            forall|k: int| 0 <= k < final(avail)@.len() && k != size ==> #[trigger] final(avail)@[k] == old(avail)@[k],
            count == final(avail)@[size as int]@.len() - old(avail)@[size as int]@.len(),
            final(avail)@[size as int]@.subrange(0, old(avail)@[size as int]@.len() as int) == old(avail)@[size as int]@,
            forall|i: int| old(avail)@[size as int]@.len() <= i < final(avail)@[size as int]@.len() ==>
                !old(self).table().contains_key(#[trigger] final(avail)@[size as int]@[i]),
            forall|tt: TruthTable| #[trigger] final(avail)@[size as int]@.contains(tt)
                <==> (old(avail)@[size as int]@.contains(tt)
                    || (final(self).table().contains_key(tt) && !old(self).table().contains_key(tt))),
            forall|tt: TruthTable| #[trigger] old(self).table().contains_key(tt)
                ==> final(self).table().contains_key(tt) && final(self).table()[tt] == old(self).table()[tt],
            forall|tt: TruthTable| #[trigger] final(self).table().contains_key(tt) && !old(self).table().contains_key(tt)
                ==> synthesized(old(self).table(), old(avail)@, size as nat, tt, final(self).table()[tt]),
            available_ok(final(self).table(), final(avail)@, size as nat + 1),
            pairs_done(final(self).table(), old(avail)@, size as nat),
            final(self).found_count == old(self).found_count + count,
    {
        let mut found = self.search_size(size, avail);
        let count = found.len();
        let ghost before = avail@;
        let ghost fnd = found@;
        avail[size].append(&mut found);
        proof {
            let t = self.table();
            let old_list = before[size as int]@;
            assert(avail@[size as int]@ == old_list + fnd);
            assert forall|k: int| 0 <= k < avail@.len() && k != size implies #[trigger] avail@[k] == before[k] by {}
            assert forall|i: int| old_list.len() <= i < avail@[size as int]@.len()
                implies !old(self).table().contains_key(#[trigger] avail@[size as int]@[i]) by {
                assert(avail@[size as int]@[i] == fnd[i - old_list.len()]);
                assert(fnd.contains(fnd[i - old_list.len()]));
            }
            assert forall|tt: TruthTable| #[trigger] avail@[size as int]@.contains(tt)
                <==> (old_list.contains(tt) || (t.contains_key(tt) && !old(self).table().contains_key(tt))) by {
                if avail@[size as int]@.contains(tt) {
                    let i = avail@[size as int]@.index_of(tt);
                    if i >= old_list.len() {
                        assert(fnd[i - old_list.len()] == tt);
                        assert(fnd.contains(tt));
                    } else {
                        assert(old_list[i] == tt);
                    }
                }
                if old_list.contains(tt) {
                    let i = old_list.index_of(tt);
                    assert(avail@[size as int]@[i] == tt);
                }
                if t.contains_key(tt) && !old(self).table().contains_key(tt) {
                    assert(fnd.contains(tt));
                    let i = fnd.index_of(tt);
                    assert(avail@[size as int]@[old_list.len() + i] == tt);
                }
            }
            assert(avail@[size as int]@.subrange(0, old_list.len() as int) =~= old_list);
            assert forall|k: int, j: int| #![trigger avail@[k]@[j]] 0 <= k < size + 1 && 0 <= j < avail@[k]@.len()
                implies t.contains_key(avail@[k]@[j]) && t[avail@[k]@[j]].size <= k by {
                if k < size || j < old_list.len() {
                    assert(avail@[k]@[j] == before[k]@[j]);
                    assert(old(self).table().contains_key(before[k]@[j]));
                } else {
                    let tt = avail@[k]@[j];
                    assert(fnd[j - old_list.len()] == tt);
                    assert(fnd.contains(tt));
                }
            }
            let d = t.dom().difference(old(self).table().dom());
            assert(d =~= fnd.to_set());
            fnd.unique_seq_to_set();
            self.lemma_found_count_is_cardinality();
            old(self).lemma_found_count_is_cardinality();
            assert(t.dom() =~= old(self).table().dom().union(d));
            vstd::set_lib::lemma_set_disjoint_lens(old(self).table().dom(), d);
        }
        count
    }

    /// Merges the records of a pull made after searching `size`, then lists
    /// every recorded truth table under its size again, so that merged
    /// records take part in later gates.
    pub fn merge_pull(
        &mut self,
        avail: &mut Vec<Vec<TruthTable>>,
        size: usize,
        records: &Vec<(TruthTable, FunctionInfo)>,
    ) -> (loaded: usize)
        requires
            old(self).wf(),
            size < old(avail)@.len(),
        ensures
            final(self).wf(),
            final(self).same_settings(old(self)),
            final(self).table() == merge_all(old(self).table(), records@),
            forall|tt: TruthTable| #[trigger] old(self).table().contains_key(tt)
                ==> final(self).table().contains_key(tt) && final(self).table()[tt].size <= old(self).table()[tt].size,
            loaded == final(self).found_count - old(self).found_count,
            final(self).pending_writes@ == old(self).pending_writes@,
            final(avail)@.len() == old(avail)@.len(),
            available_ok(final(self).table(), final(avail)@, final(avail)@.len() as nat),
            available_ok(final(self).table(), final(avail)@, size as nat + 1),
            forall|tt: TruthTable| #[trigger] final(self).table().contains_key(tt) && final(self).table()[tt].size <= size
                ==> final(avail)@[final(self).table()[tt].size as int]@.contains(tt),
    {
        let loaded = self.load_records(records);
        let last: usize = avail.len() - 1;
        *avail = self.available_by_size(last);
        loaded
    }

    /// Whether every function of `n` variables has been found.
    pub fn all_found(&self) -> (r: bool)
        requires
            self.wf(),
        ensures
            r == (self.found_count >= self.num_functions),
    {
        self.found_count >= self.num_functions
    }

    /// Takes every queued discovery out of the queue, oldest first.
    pub fn take_pending(&mut self) -> (batch: Vec<(TruthTable, FunctionInfo)>)
        requires
            old(self).wf(),
        ensures
            final(self).wf(),
            final(self).same_settings(old(self)),
            final(self).table() == old(self).table(),
            final(self).found_count == old(self).found_count,
            batch@ == old(self).pending_writes@,
            final(self).pending_writes@.len() == 0,
    {
        let mut batch: Vec<(TruthTable, FunctionInfo)> = Vec::new();
        std::mem::swap(&mut batch, &mut self.pending_writes);
        batch
    }

    /// Puts back a batch whose push to the catalog failed, ahead of what was
    /// queued since.
    pub fn requeue(&mut self, batch: Vec<(TruthTable, FunctionInfo)>)
        requires
            old(self).wf(),
        ensures
            final(self).wf(),
            final(self).same_settings(old(self)),
            final(self).table() == old(self).table(),
            final(self).found_count == old(self).found_count,
            final(self).pending_writes@ == batch@ + old(self).pending_writes@,
    {
        let mut queue = batch;
        let mut rest: Vec<(TruthTable, FunctionInfo)> = Vec::new();
        std::mem::swap(&mut rest, &mut self.pending_writes);
        queue.append(&mut rest);
        self.pending_writes = queue;
    }
}

/// How many of `keys` are recorded in `table` with size `s`.
pub open spec fn count_of_size(keys: Seq<TruthTable>, table: Map<TruthTable, FunctionInfo>, s: nat) -> nat
    decreases keys.len(),
{
    if keys.len() == 0 {
        0
    } else {
        count_of_size(keys.drop_last(), table, s) + (if table[keys.last()].size == s { 1nat } else { 0nat })
    }
}

proof fn lemma_count_bounded(keys: Seq<TruthTable>, table: Map<TruthTable, FunctionInfo>, s: nat)
    ensures
        count_of_size(keys, table, s) <= keys.len(),
    decreases keys.len(),
{
    if keys.len() > 0 {
        lemma_count_bounded(keys.drop_last(), table, s);
    }
}

impl DistributedWorker {
    /// How many recorded functions have each size from 0 to `max_size`.
    pub fn size_counts(&self, max_size: usize) -> (counts: Vec<usize>)
        requires
            self.wf(),
            max_size < usize::MAX,
        ensures
            counts@.len() == max_size + 1,
            forall|s: int| 0 <= s <= max_size ==> #[trigger] counts@[s] == count_of_size(self.keys@, self.table(), s as nat),
    {
        let mut counts: Vec<usize> = Vec::new();
        let mut s: usize = 0;
        while s <= max_size
            invariant
                self.wf(),
                s <= max_size + 1,
                max_size < usize::MAX,
                counts@.len() == s,
                forall|k: int| 0 <= k < s ==> #[trigger] counts@[k] == count_of_size(self.keys@, self.table(), k as nat),
            decreases max_size + 1 - s,
        {
            let mut c: usize = 0;
            let mut i: usize = 0;
            while i < self.keys.len()
                invariant
                    self.wf(),
                    i <= self.keys@.len(),
                    c == count_of_size(self.keys@.subrange(0, i as int), self.table(), s as nat),
                decreases self.keys@.len() - i,
            {
                let tt = self.keys[i];
                proof {
                    assert(self.keys@.subrange(0, i + 1).drop_last() =~= self.keys@.subrange(0, i as int));
                    lemma_count_bounded(self.keys@.subrange(0, i as int), self.table(), s as nat);
                    assert(self.keys@.to_set().contains(tt));
                }
                let size: usize = match table_get(&self.functions, tt) {
                    Some(info) => info.size,
                    None => 0,
                };
                if size == s {
                    c = c + 1;
                }
                i = i + 1;
            }
            proof {
                assert(self.keys@.subrange(0, self.keys@.len() as int) =~= self.keys@);
            }
            counts.push(c);
            s = s + 1;
        }
        counts
    }

    /// Searches sizes 1 to `max_size` in turn without a catalog, starting
    /// from the literals alone, and stops once every function is found.
    /// Returns the list of each size and the last size searched. Each
    /// recorded size is then achieved by a formula, and every function with
    /// a formula of at most that last size is recorded with its least size.
    pub fn run_local(&mut self) -> (r: (Vec<Vec<TruthTable>>, usize))
        requires
            old(self).wf(),
            old(self).max_size <= SIZE_LIMIT,
            forall|var: nat, neg: bool| var < old(self).n ==>
                #[trigger] old(self).table().contains_key(literal_spec(var, neg, old(self).n as nat)),
            forall|tt: TruthTable| #[trigger] old(self).table().contains_key(tt)
                ==> is_literal_entry(tt, old(self).table()[tt], old(self).n as nat),
        ensures
            final(self).wf(),
            final(self).same_settings(old(self)),
            forall|tt: TruthTable| #[trigger] old(self).table().contains_key(tt)
                ==> final(self).table().contains_key(tt) && final(self).table()[tt] == old(self).table()[tt],
            r.0@.len() == old(self).max_size + 1,
            available_ok(final(self).table(), r.0@, r.0@.len() as nat),
            r.1 <= old(self).max_size,
            r.1 == old(self).max_size || final(self).found_count >= final(self).num_functions,
            forall|tt: TruthTable| #[trigger] final(self).table().contains_key(tt) ==> final(self).table()[tt].size <= r.1,
            sound(final(self).table(), old(self).n as nat),
            exhaustive(final(self).table(), old(self).n as nat, r.1 as nat),
    {
        let max_size = self.max_size;
        let ghost n = self.n as nat;
        let mut avail = self.available_by_size(max_size);
        proof {
            let t = self.table();
            assert forall|tt: TruthTable| #[trigger] t.contains_key(tt) implies formula_within(tt, n, t[tt].size as nat) by {
                assert(is_literal_entry(tt, t[tt], n));
                match t[tt].circuit {
                    CircuitNode::Literal { var, neg } => lemma_within_literal(var as nat, neg, n),
                    _ => {},
                }
            }
            assert forall|tt: TruthTable, s: nat| s < 1 && #[trigger] formula_within(tt, n, s)
                implies t.contains_key(tt) && t[tt].size <= s by {
                let f = choose|f: Formula| #[trigger] uses_vars(f, n) && eval(f, n) == tt && gates(f) <= s;
                match f {
                    Formula::Lit { var, neg } => {
                        assert(t.contains_key(literal_spec(var, neg, n)));
                        assert(is_literal_entry(tt, t[tt], n));
                    },
                    _ => {},
                }
            }
            assert forall|tt: TruthTable| #[trigger] t.contains_key(tt) && t[tt].size < 1
                implies avail@[t[tt].size as int]@.contains(tt) by {
                assert(is_literal_entry(tt, t[tt], n));
            }
            assert forall|var: nat, neg: bool| var < n implies #[trigger] t.contains_key(literal_spec(var, neg, n))
                && t[literal_spec(var, neg, n)].size == 0 by {
                assert(old(self).table().contains_key(literal_spec(var, neg, old(self).n as nat)));
                assert(is_literal_entry(literal_spec(var, neg, n), t[literal_spec(var, neg, n)], n));
            }
            assert forall|tt: TruthTable| #[trigger] t.contains_key(tt) implies t[tt].size < 1 by {
                assert(is_literal_entry(tt, t[tt], n));
            }
            assert(search_state(t, avail@, n, 1));
        }
        let mut size: usize = 1;
        let mut done = false;
        while size <= max_size && !done
            invariant
                self.wf(),
                self.same_settings(old(self)),
                n == self.n as nat,
                max_size == self.max_size,
                max_size <= SIZE_LIMIT,
                1 <= size <= max_size + 1,
                avail@.len() == max_size + 1,
                search_state(self.table(), avail@, n, size as nat),
                forall|tt: TruthTable| #[trigger] old(self).table().contains_key(tt)
                    ==> self.table().contains_key(tt) && self.table()[tt] == old(self).table()[tt],
                done ==> self.found_count >= self.num_functions,
            decreases max_size + 1 - size,
        {
            let ghost prev = self.table();
            let ghost prev_avail = avail@;
            self.search_and_seal(&mut avail, size);
            proof {
                lemma_seal_step(prev, self.table(), prev_avail, avail@, n, size as nat);
            }
            if self.all_found() {
                done = true;
            }
            size = size + 1;
        }
        (avail, size - 1)
    }
}

impl DistributedWorker {
    /// The next step of a search that last searched `last` (0: none yet).
    /// Sizes are searched from where the lists show earlier work ended, one
    /// after another; the catalog is pulled after every third size; the
    /// search stops once every function is found or `max_size` is done.
    pub fn next_step(&self, avail: &Vec<Vec<TruthTable>>, last: usize, pulled: bool) -> (a: Step)
        requires
            self.wf(),
            avail@.len() == self.max_size + 1,
            last <= self.max_size,
        ensures
            a == step_spec(avail@, self.max_size as nat, self.found_count >= self.num_functions, last as nat, pulled),
            a matches Step::Search(s) ==> 1 <= s <= self.max_size,
    {
        let max_size = self.max_size;
        if last == 0 {
            let resume = start_size(avail, max_size);
            let first: usize = if resume < 1 { 1 } else { resume };
            if self.all_found() || first > max_size {
                Step::Flush
            } else {
                Step::Search(first)
            }
        } else if pulls_after(last) && !pulled {
            Step::Pull
        } else if self.all_found() || last >= max_size {
            Step::Flush
        } else {
            Step::Search(last + 1)
        }
    }

    /// The recorded entry of `tt`, if any.
    pub fn info(&self, tt: TruthTable) -> (r: Option<FunctionInfo>)
        ensures
            r == (if self.table().contains_key(tt) { Some(self.table()[tt]) } else { None }),
    {
        table_get(&self.functions, tt)
    }

    /// Every recorded truth table with its entry, in the order first
    /// recorded.
    pub fn records(&self) -> (r: Vec<(TruthTable, FunctionInfo)>)
        requires
            self.wf(),
        ensures
            r@.len() == self.keys@.len(),
            forall|i: int| 0 <= i < r@.len() ==> #[trigger] r@[i] == (self.keys@[i], self.table()[self.keys@[i]]),
    {
        let mut r: Vec<(TruthTable, FunctionInfo)> = Vec::new();
        let mut i: usize = 0;
        while i < self.keys.len()
            invariant
                self.wf(),
                i <= self.keys@.len(),
                r@.len() == i,
                forall|m: int| 0 <= m < i ==> #[trigger] r@[m] == (self.keys@[m], self.table()[self.keys@[m]]),
            decreases self.keys@.len() - i,
        {
            let tt = self.keys[i];
            proof {
                assert(self.keys@.to_set().contains(tt));
            }
            match table_get(&self.functions, tt) {
                Some(info) => r.push((tt, info)),
                None => {},
            }
            i = i + 1;
        }
        r
    }
}

} // verus!
