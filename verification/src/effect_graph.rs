//! The graph of effect sets: one node for each set of at most `K` of `N`
//! effects, and from each node one edge for each substance, to the set that
//! the substance turns the node's set into.

use crate::combinatorial::binomial::size_offset;
use crate::combinatorial::{in_domain, in_universe, spec_encode, CombinatorialEncoder};
use crate::flat_storage::{lemma_total_len_push, rows_of, total_len, FlatStorage};
use crate::mixing::effects::{popcount, Effects, ALL_EFFECTS, NUM_EFFECTS};
use crate::mixing::{MixtureRules, Substance, NUM_SUBSTANCES};
use vstd::prelude::*;

verus! {

/// Version of the stored form of the graph.
pub const GRAPH_VERSION: u32 = 1;

/// Successors and predecessors fit each other: every successor is a node;
/// the predecessors of a node are nodes other than itself, each once, and
/// exactly those from which an edge leads to it.
pub open spec fn links_consistent(successors: Seq<[u32; 16]>, preds: Seq<Seq<u32>>) -> bool {
    &&& preds.len() == successors.len()
    &&& forall|u: int, s: int|
        0 <= u < successors.len() && 0 <= s < 16 ==> (#[trigger] successors[u][s])
            < successors.len()
    &&& forall|u: int, j: int|
        0 <= u < preds.len() && 0 <= j < preds[u].len() ==> {
            let v = #[trigger] preds[u][j];
            v < successors.len() && v != u && exists|s: int|
                0 <= s < 16 && #[trigger] successors[v as int][s] == u
        }
    &&& forall|u: int| 0 <= u < preds.len() ==> (#[trigger] preds[u]).no_duplicates()
    &&& forall|v: int, s: int|
        0 <= v < successors.len() && 0 <= s < 16 && (#[trigger] successors[v][s]) != v
            ==> preds[successors[v][s] as int].contains(v as u32)
}

/// `w` is the node that substance `s` leads to from node `u`: the number of
/// the set that `s` turns the set with number `u` into.
pub open spec fn is_successor(
    rules: MixtureRules,
    n: nat,
    k: nat,
    u: nat,
    s: Substance,
    w: nat,
) -> bool {
    exists|mask: u64|
        in_domain(n, k, mask) && #[trigger] spec_encode(n, mask) == u && in_domain(
            n,
            k,
            rules.apply_spec(s, mask),
        ) && w == spec_encode(n, rules.apply_spec(s, mask))
}

/// Some substance turns some set of the domain into a set outside of it.
pub open spec fn leaves_domain(rules: MixtureRules, n: nat, k: nat) -> bool {
    exists|mask: u64, s: Substance|
        in_domain(n, k, mask) && !in_domain(n, k, #[trigger] rules.apply_spec(s, mask))
}

proof fn lemma_universe_mask(mask: u64, n: u64)
    by (bit_vector)
    requires
        n <= 34,
        mask >> n == 0,
    ensures
        mask <= 0x3_ffff_ffffu64,
{
}

/// What holds while the graph is built, with the rows of the nodes below
/// `successors.len()` done and `row` holding the first entries of the next.
spec fn building(successors: Seq<[u32; 16]>, preds: Seq<Seq<u32>>, m: int, row: Seq<u32>) -> bool {
    let idx = successors.len() as int;
    &&& idx <= m <= u32::MAX
    &&& row.len() <= 16
    &&& row.len() > 0 ==> idx < m
    &&& preds.len() == m
    &&& forall|u: int, s: int| 0 <= u < idx && 0 <= s < 16 ==> (#[trigger] successors[u][s]) < m
    &&& forall|s: int| 0 <= s < row.len() ==> (#[trigger] row[s]) < m
    &&& forall|u: int, j: int|
        0 <= u < m && 0 <= j < preds[u].len() ==> {
            let v = #[trigger] preds[u][j];
            &&& v <= idx
            &&& v != u
            &&& v < idx ==> exists|s: int| 0 <= s < 16 && #[trigger] successors[v as int][s] == u
            &&& v == idx ==> exists|s: int| 0 <= s < row.len() && #[trigger] row[s] == u
        }
    &&& forall|u: int| 0 <= u < m ==> (#[trigger] preds[u]).no_duplicates()
    &&& forall|u: int| 0 <= u < m ==> nodes_rise(#[trigger] preds[u])
    &&& forall|v: int, s: int|
        0 <= v < idx && 0 <= s < 16 && (#[trigger] successors[v][s]) != v ==> preds[successors[v][s] as int].contains(
            v as u32,
        )
    &&& forall|s: int|
        0 <= s < row.len() && (#[trigger] row[s]) != idx ==> preds[row[s] as int].contains(
            idx as u32,
        )
    &&& total_len(preds) <= 16 * idx + row.len()
}

/// From one node to the next the list rises.
pub open spec fn nodes_rise(list: Seq<u32>) -> bool {
    forall|i: int, j: int| 0 <= i < j < list.len() ==> list[i] < list[j]
}

proof fn lemma_total_len_empty<T>(rows: Seq<Seq<T>>)
    requires
        forall|i: int| 0 <= i < rows.len() ==> (#[trigger] rows[i]).len() == 0,
    ensures
        total_len(rows) == 0,
    decreases rows.len(),
{
    if rows.len() > 0 {
        lemma_total_len_empty(rows.drop_last());
    }
}

/// One more entry of the current row, with no new predecessor to record.
proof fn lemma_building_keep(
    successors: Seq<[u32; 16]>,
    preds: Seq<Seq<u32>>,
    m: int,
    row: Seq<u32>,
    w: u32,
)
    requires
        building(successors, preds, m, row),
        row.len() < 16,
        successors.len() < m,
        w < m,
        w == successors.len() || preds[w as int].contains(successors.len() as u32),
    ensures
        building(successors, preds, m, row.push(w)),
{
    let idx = successors.len() as int;
    let row2 = row.push(w);
    assert forall|u: int, j: int| 0 <= u < m && 0 <= j < preds[u].len() implies {
        let v = #[trigger] preds[u][j];
        &&& v <= idx
        &&& v != u
        &&& v < idx ==> exists|s: int| 0 <= s < 16 && #[trigger] successors[v as int][s] == u
        &&& v == idx ==> exists|s: int| 0 <= s < row2.len() && #[trigger] row2[s] == u
    } by {
        let v = preds[u][j];
        if v == idx {
            let s = choose|s: int| 0 <= s < row.len() && #[trigger] row[s] == u;
            assert(row2[s] == u);
        }
    }
    assert forall|s: int| 0 <= s < row2.len() && (#[trigger] row2[s]) != idx implies preds[row2[s] as int].contains(
        idx as u32,
    ) by {
        if s < row.len() {
            assert(row2[s] == row[s]);
        }
    }
    assert forall|s: int| 0 <= s < row2.len() implies (#[trigger] row2[s]) < m by {
        if s < row.len() {
            assert(row2[s] == row[s]);
        }
    }
}

/// One more entry of the current row, and the current node recorded as a new
/// predecessor of the node it leads to.
proof fn lemma_building_link(
    successors: Seq<[u32; 16]>,
    preds: Seq<Seq<u32>>,
    m: int,
    row: Seq<u32>,
    w: u32,
)
    requires
        building(successors, preds, m, row),
        row.len() < 16,
        successors.len() < m,
        w < m,
        w != successors.len(),
        !preds[w as int].contains(successors.len() as u32),
    ensures
        building(
            successors,
            preds.update(w as int, preds[w as int].push(successors.len() as u32)),
            m,
            row.push(w),
        ),
{
    let idx = successors.len() as int;
    let row2 = row.push(w);
    let list2 = preds[w as int].push(idx as u32);
    let preds2 = preds.update(w as int, list2);
    assert(row2[row.len() as int] == w);
    assert forall|u: int, j: int| 0 <= u < m && 0 <= j < preds2[u].len() implies {
        let v = #[trigger] preds2[u][j];
        &&& v <= idx
        &&& v != u
        &&& v < idx ==> exists|s: int| 0 <= s < 16 && #[trigger] successors[v as int][s] == u
        &&& v == idx ==> exists|s: int| 0 <= s < row2.len() && #[trigger] row2[s] == u
    } by {
        let v = preds2[u][j];
        if u == w && j == preds[w as int].len() {
            assert(v == idx);
        } else {
            assert(v == preds[u][j]);
            if v == idx {
                let s = choose|s: int| 0 <= s < row.len() && #[trigger] row[s] == u;
                assert(row2[s] == u);
            }
        }
    }
    assert forall|u: int| 0 <= u < m implies (#[trigger] preds2[u]).no_duplicates() by {
        if u == w {
            assert(preds[u].no_duplicates());
            assert forall|a: int, b: int|
                0 <= a < list2.len() && 0 <= b < list2.len() && a != b implies list2[a]
                != list2[b] by {
                if a < preds[w as int].len() && b < preds[w as int].len() {
                } else if a < preds[w as int].len() {
                    assert(preds[w as int][a] == list2[a]);
                    assert(preds[w as int].contains(list2[a]));
                } else {
                    assert(preds[w as int][b] == list2[b]);
                    assert(preds[w as int].contains(list2[b]));
                }
            }
        } else {
            assert(preds2[u] == preds[u]);
        }
    }
    assert forall|u: int| 0 <= u < m implies nodes_rise(#[trigger] preds2[u]) by {
        if u == w {
            assert(nodes_rise(preds[u]));
            assert forall|a: int, b: int| 0 <= a < b < list2.len() implies list2[a] < list2[b] by {
                if b < preds[w as int].len() {
                } else {
                    assert(preds[w as int][a] == list2[a]);
                    assert(preds[w as int].contains(list2[a]));
                }
            }
        } else {
            assert(preds2[u] == preds[u]);
        }
    }
    assert forall|v: int, s: int|
        0 <= v < idx && 0 <= s < 16 && (#[trigger] successors[v][s]) != v implies preds2[successors[v][s] as int].contains(
        v as u32,
    ) by {
        let t = successors[v][s] as int;
        assert(preds[t].contains(v as u32));
        let j = choose|j: int| 0 <= j < preds[t].len() && preds[t][j] == v as u32;
        if t == w {
            assert(list2[j] == v as u32);
        }
    }
    assert forall|s: int| 0 <= s < row2.len() && (#[trigger] row2[s]) != idx implies preds2[row2[s] as int].contains(
        idx as u32,
    ) by {
        let t = row2[s] as int;
        if t == w {
            assert(list2[preds[w as int].len() as int] == idx as u32);
        } else {
            assert(row2[s] == row[s]);
            assert(preds2[t] == preds[t]);
        }
    }
    assert forall|s: int| 0 <= s < row2.len() implies (#[trigger] row2[s]) < m by {
        if s < row.len() {
            assert(row2[s] == row[s]);
        }
    }
    lemma_total_len_push(preds, w as int, idx as u32);
}

/// The current row is full: its node is done.
proof fn lemma_building_row_done(
    successors: Seq<[u32; 16]>,
    preds: Seq<Seq<u32>>,
    m: int,
    row: [u32; 16],
)
    requires
        building(successors, preds, m, row@),
    ensures
        building(successors.push(row), preds, m, Seq::<u32>::empty()),
{
    let idx = successors.len() as int;
    let succ2 = successors.push(row);
    assert(row@.len() == 16);
    assert forall|u: int, s: int| 0 <= u < idx + 1 && 0 <= s < 16 implies (#[trigger] succ2[u][s])
        < m by {
        if u < idx {
            assert(succ2[u] == successors[u]);
            assert(successors[u][s] < m);
        } else {
            assert(succ2[u][s] == row@[s]);
        }
    }
    assert forall|u: int, j: int| 0 <= u < m && 0 <= j < preds[u].len() implies {
        let v = #[trigger] preds[u][j];
        &&& v <= idx + 1
        &&& v != u
        &&& v < idx + 1 ==> exists|s: int| 0 <= s < 16 && #[trigger] succ2[v as int][s] == u
        &&& v == idx + 1 ==> exists|s: int| 0 <= s < 0 && #[trigger] Seq::<u32>::empty()[s] == u
    } by {
        let v = preds[u][j];
        if v < idx {
            let s = choose|s: int| 0 <= s < 16 && #[trigger] successors[v as int][s] == u;
            assert(succ2[v as int] == successors[v as int]);
            assert(succ2[v as int][s] == u);
        } else {
            let s = choose|s: int| 0 <= s < row@.len() && #[trigger] row@[s] == u;
            assert(succ2[v as int][s] == u);
        }
    }
    assert forall|v: int, s: int|
        0 <= v < idx + 1 && 0 <= s < 16 && (#[trigger] succ2[v][s]) != v implies preds[succ2[v][s] as int].contains(
        v as u32,
    ) by {
        if v < idx {
            assert(succ2[v] == successors[v]);
            assert(successors[v][s] != v);
        } else {
            assert(succ2[v][s] == row@[s]);
        }
    }
}

/// When every node is done, successors and predecessors fit each other.
proof fn lemma_building_done(successors: Seq<[u32; 16]>, preds: Seq<Seq<u32>>, m: int)
    requires
        building(successors, preds, m, Seq::<u32>::empty()),
        successors.len() == m,
    ensures
        links_consistent(successors, preds),
        total_len(preds) <= 16 * m,
        forall|u: int| 0 <= u < preds.len() ==> nodes_rise(#[trigger] preds[u]),
{
}

/// The effect graph: for each node its successors, one for each substance,
/// and its predecessors.
pub struct EffectGraph<const N: u8, const K: u8> {
    successors: Vec<[u32; 16]>,
    predecessors: FlatStorage<u32>,
    encoder: CombinatorialEncoder<N, K>,
}

impl<const N: u8, const K: u8> EffectGraph<N, K> {
    #[verifier::type_invariant]
    spec fn well_formed(self) -> bool {
        &&& K <= N <= NUM_EFFECTS
        &&& self.successors@.len() == size_offset(N as nat, (K + 1) as nat)
        &&& self.successors@.len() <= u32::MAX
        &&& links_consistent(self.successors@, self.predecessors@)
    }

    /// The successors of every node, one for each substance.
    pub closed spec fn spec_successor_rows(self) -> Seq<[u32; 16]> {
        self.successors@
    }

    /// The predecessors of every node.
    pub closed spec fn spec_predecessor_rows(self) -> Seq<Seq<u32>> {
        self.predecessors@
    }

    /// Number of nodes.
    pub open spec fn spec_num_nodes(self) -> nat {
        self.spec_successor_rows().len()
    }

    /// The successors of node `u`, one for each substance.
    pub open spec fn spec_successors(self, u: int) -> [u32; 16] {
        self.spec_successor_rows()[u]
    }

    /// The predecessors of node `u`.
    pub open spec fn spec_predecessors(self, u: int) -> Seq<u32> {
        self.spec_predecessor_rows()[u]
    }

    /// There is one node for each set of the domain; every successor is a
    /// node; the predecessors of a node are nodes other than itself, each
    /// once, and exactly those from which an edge leads to it.
    pub open spec fn consistent(self) -> bool {
        &&& self.spec_num_nodes() == size_offset(N as nat, (K + 1) as nat)
        &&& self.spec_num_nodes() <= u32::MAX
        &&& links_consistent(self.spec_successor_rows(), self.spec_predecessor_rows())
    }

    /// Builds the graph of a rule table: from each node, each substance leads
    /// to the set that it turns the node's set into, and a node that leads to
    /// another is one of its predecessors; the predecessors of a node are
    /// listed in rising order. `None` where a substance turns a set of the
    /// domain into a set outside of it.
    pub fn new(rules: &MixtureRules, encoder: CombinatorialEncoder<N, K>) -> (r: Option<Self>)
        requires
            K <= N <= NUM_EFFECTS,
            16 * size_offset(N as nat, (K + 1) as nat) <= u32::MAX,
        ensures
            r is None <==> leaves_domain(*rules, N as nat, K as nat),
            r matches Some(g) ==> forall|u: int|
                0 <= u < g.spec_num_nodes() ==> nodes_rise(#[trigger] g.spec_predecessors(u)),
            r matches Some(g) ==> g.consistent() && forall|u: int, s: Substance|
                0 <= u < g.spec_num_nodes() ==> is_successor(
                    *rules,
                    N as nat,
                    K as nat,
                    u as nat,
                    s,
                    #[trigger] g.spec_successors(u)[s.spec_index() as int] as nat,
                ),
    {
        let n_combinations = encoder.maximum_index();
        let mut successors: Vec<[u32; 16]> = Vec::new();
        let mut predecessors: Vec<Vec<u32>> = Vec::new();
        let mut filled: u32 = 0;
        while filled < n_combinations
            invariant
                filled <= n_combinations,
                predecessors@.len() == filled,
                forall|i: int| 0 <= i < filled ==> (#[trigger] predecessors@[i])@.len() == 0,
            decreases n_combinations - filled,
        {
            predecessors.push(Vec::new());
            filled += 1;
        }
        proof {
            lemma_total_len_empty(rows_of(predecessors@));
        }

        let mut idx: u32 = 0;
        while idx < n_combinations
            invariant
                idx <= n_combinations,
                K <= N <= NUM_EFFECTS,
                n_combinations == size_offset(N as nat, (K + 1) as nat),
                successors@.len() == idx,
                building(
                    successors@,
                    rows_of(predecessors@),
                    n_combinations as int,
                    Seq::<u32>::empty(),
                ),
                forall|u: int, s: Substance|
                    0 <= u < idx ==> is_successor(
                        *rules,
                        N as nat,
                        K as nat,
                        u as nat,
                        s,
                        #[trigger] successors@[u][s.spec_index() as int] as nat,
                    ),
            decreases n_combinations - idx,
        {
            let mask = encoder.decode(idx);
            proof {
                if N < 64 {
                    lemma_universe_mask(mask, N as u64);
                }
            }
            let effects = Effects::from_mask(mask);
            let mut row = [0u32;16];
            let mut s_idx: u8 = 0;
            while s_idx < 16
                invariant
                    s_idx <= 16,
                    idx < n_combinations,
                    K <= N <= NUM_EFFECTS,
                    n_combinations == size_offset(N as nat, (K + 1) as nat),
                    successors@.len() == idx,
                    effects@ == mask,
                    in_domain(N as nat, K as nat, mask),
                    spec_encode(N as nat, mask) == idx,
                    building(
                        successors@,
                        rows_of(predecessors@),
                        n_combinations as int,
                        row@.subrange(0, s_idx as int),
                    ),
                    forall|s: Substance|
                        s.spec_index() < s_idx ==> is_successor(
                            *rules,
                            N as nat,
                            K as nat,
                            idx as nat,
                            s,
                            #[trigger] row@[s.spec_index() as int] as nat,
                        ),
                decreases 16 - s_idx,
            {
                let substance = match Substance::from_index(s_idx) {
                    Some(substance) => substance,
                    None => {
                        assert(false);
                        return None;
                    },
                };
                // Add a link to the effects after applying the substance
                let new_effects = rules.apply(substance, effects);
                let new_bits = new_effects.bits();
                if new_effects.len() > K as u32 || !(N >= 64 || new_bits >> N == 0) {
                    return None;
                }
                let new_idx = encoder.encode(new_bits);
                let ghost row_before = row@;
                let ghost preds_before = rows_of(predecessors@);
                row[s_idx as usize] = new_idx;
                proof {
                    assert(row@.subrange(0, s_idx + 1) == row_before.subrange(0, s_idx as int).push(
                        new_idx,
                    ));
                }

                // If we don't loop back to ourselves, add a backlink to the predecessors.
                if new_idx == idx {
                    proof {
                        lemma_building_keep(
                            successors@,
                            preds_before,
                            n_combinations as int,
                            row_before.subrange(0, s_idx as int),
                            new_idx,
                        );
                    }
                } else if slice_contains(predecessors[new_idx as usize].as_slice(), idx) {
                    proof {
                        lemma_building_keep(
                            successors@,
                            preds_before,
                            n_combinations as int,
                            row_before.subrange(0, s_idx as int),
                            new_idx,
                        );
                    }
                } else {
                    predecessors[new_idx as usize].push(idx);
                    proof {
                        lemma_building_link(
                            successors@,
                            preds_before,
                            n_combinations as int,
                            row_before.subrange(0, s_idx as int),
                            new_idx,
                        );
                        assert(rows_of(predecessors@) =~= preds_before.update(
                            new_idx as int,
                            preds_before[new_idx as int].push(idx),
                        ));
                    }
                }
                proof {
                    assert forall|s: Substance| s.spec_index() < s_idx + 1 implies is_successor(
                        *rules,
                        N as nat,
                        K as nat,
                        idx as nat,
                        s,
                        #[trigger] row@[s.spec_index() as int] as nat,
                    ) by {
                        if s.spec_index() == s_idx {
                            crate::mixing::lemma_substance_index_round_trip(s);
                            assert(s == substance);
                            assert(spec_encode(N as nat, mask) == idx);
                        } else {
                            assert(row@[s.spec_index() as int] == row_before[s.spec_index() as int]);
                        }
                    }
                }
                s_idx += 1;
            }
            proof {
                assert(row@.subrange(0, 16) == row@);
                lemma_building_row_done(
                    successors@,
                    rows_of(predecessors@),
                    n_combinations as int,
                    row,
                );
            }
            let ghost succ_before = successors@;
            successors.push(row);
            proof {
                assert forall|u: int, s: Substance| 0 <= u < idx + 1 implies is_successor(
                    *rules,
                    N as nat,
                    K as nat,
                    u as nat,
                    s,
                    #[trigger] successors@[u][s.spec_index() as int] as nat,
                ) by {
                    if u < idx {
                        assert(successors@[u] == succ_before[u]);
                    }
                }
            }
            idx += 1;
        }
        proof {
            lemma_building_done(successors@, rows_of(predecessors@), n_combinations as int);
            lemma_no_leak(*rules, N as nat, K as nat, successors@);
        }
        let predecessors = FlatStorage::from(predecessors);

        Some(Self { successors, predecessors, encoder })
    }
}

impl<const N: u8, const K: u8> EffectGraph<N, K> {
    /// Number of nodes.
    pub fn num_nodes(&self) -> (r: usize)
        ensures
            r == self.spec_num_nodes(),
            self.consistent(),
    {
        proof {
            use_type_invariant(self);
        }
        self.successors.len()
    }

    /// The node of an effect set.
    pub fn encode(&self, effects: Effects) -> (r: u32)
        requires
            in_domain(N as nat, K as nat, effects@),
        ensures
            r == spec_encode(N as nat, effects@),
            r < self.spec_num_nodes(),
    {
        proof {
            use_type_invariant(self);
        }
        self.encoder.encode(effects.bits())
    }

    /// The effect set of a node.
    pub fn decode(&self, id: u32) -> (r: Option<Effects>)
        requires
            id < self.spec_num_nodes(),
        ensures
            r matches Some(e) && in_domain(N as nat, K as nat, e@) && spec_encode(N as nat, e@)
                == id,
    {
        proof {
            use_type_invariant(self);
        }
        let mask = self.encoder.decode(id);
        proof {
            if N < 64 {
                lemma_universe_mask(mask, N as u64);
            }
        }
        Effects::from_bits(mask)
    }

    /// The nodes that the substances lead to from node `id`, by substance.
    pub fn successors(&self, id: u32) -> (r: &[u32; 16])
        requires
            id < self.spec_num_nodes(),
        ensures
            *r == self.spec_successors(id as int),
            forall|s: int| 0 <= s < 16 ==> (#[trigger] r[s]) < self.spec_num_nodes(),
    {
        proof {
            use_type_invariant(self);
        }
        &self.successors[id as usize]
    }

    /// The nodes other than `id` from which a substance leads to node `id`.
    pub fn predecessors(&self, id: u32) -> (r: &[u32])
        requires
            id < self.spec_num_nodes(),
        ensures
            r@ == self.spec_predecessors(id as int),
    {
        proof {
            use_type_invariant(self);
        }
        self.predecessors.get(id as usize)
    }

    /// The substance that connects `from` to `to`: the first by which `from`
    /// leads to `to`.
    pub open spec fn linking_substance(self, from: int, to: int, s: Substance) -> bool {
        &&& self.spec_successors(from)[s.spec_index() as int] == to
        &&& forall|t: int| 0 <= t < s.spec_index() ==> self.spec_successors(from)[t] != to
    }

    /// The predecessors of node `id`, each with the substance that connects it
    /// to `id`.
    pub fn predecessors_with_substances(&self, id: u32) -> (r: Vec<(u32, Substance)>)
        requires
            id < self.spec_num_nodes(),
        ensures
            r@.len() == self.spec_predecessors(id as int).len(),
            forall|j: int|
                0 <= j < r@.len() ==> (#[trigger] r@[j]).0 == self.spec_predecessors(id as int)[j]
                    && r@[j].0 < self.spec_num_nodes() && self.linking_substance(
                    r@[j].0 as int,
                    id as int,
                    r@[j].1,
                ),
    {
        proof {
            use_type_invariant(self);
        }
        let preds = self.predecessors.get(id as usize);
        let mut out: Vec<(u32, Substance)> = Vec::new();
        let mut j: usize = 0;
        while j < preds.len()
            invariant
                j <= preds@.len(),
                id < self.spec_num_nodes(),
                preds@ == self.spec_predecessors(id as int),
                links_consistent(self.successors@, self.predecessors@),
                out@.len() == j,
                forall|i: int|
                    0 <= i < j ==> (#[trigger] out@[i]).0 == preds@[i] && out@[i].0
                        < self.spec_num_nodes() && self.linking_substance(
                        out@[i].0 as int,
                        id as int,
                        out@[i].1,
                    ),
            decreases preds@.len() - j,
        {
            let v = preds[j];
            assert(self.predecessors@[id as int][j as int] == v);
            let row = &self.successors[v as usize];
            let mut s: u8 = 0;
            while s < 16 && row[s as usize] != id
                invariant
                    s <= 16,
                    *row == self.successors@[v as int],
                    exists|t: int| 0 <= t < 16 && #[trigger] self.successors@[v as int][t] == id,
                    forall|t: int| 0 <= t < s ==> row[t] != id,
                decreases 16 - s,
            {
                s += 1;
            }
            match Substance::from_index(s) {
                Some(substance) => {
                    out.push((v, substance));
                },
                None => {
                    assert(false);
                },
            }
            j += 1;
        }
        out
    }

    /// The encoder that numbers the nodes.
    pub closed spec fn spec_encoder(self) -> CombinatorialEncoder<N, K> {
        self.encoder
    }

    /// The encoder that numbers the nodes.
    pub fn encoder(&self) -> (r: &CombinatorialEncoder<N, K>)
        ensures
            *r == self.spec_encoder(),
    {
        &self.encoder
    }

    /// The successors of every node.
    pub fn successor_rows(&self) -> (r: &Vec<[u32; 16]>)
        ensures
            r@ == self.spec_successor_rows(),
    {
        &self.successors
    }

    /// The predecessors of every node.
    pub fn predecessor_rows(&self) -> (r: &FlatStorage<u32>)
        ensures
            r@ == self.spec_predecessor_rows(),
    {
        &self.predecessors
    }
}

/// Whether every successor is a node.
fn successors_are_nodes(successors: &Vec<[u32; 16]>) -> (ok: bool)
    ensures
        ok == forall|u: int, s: int|
            0 <= u < successors@.len() && 0 <= s < 16 ==> (#[trigger] successors@[u][s])
                < successors@.len(),
{
    let n = successors.len();
    let mut u: usize = 0;
    while u < n
        invariant
            u <= n,
            n == successors@.len(),
            forall|a: int, s: int|
                0 <= a < u && 0 <= s < 16 ==> (#[trigger] successors@[a][s]) < successors@.len(),
        decreases n - u,
    {
        let row = &successors[u];
        let mut s: usize = 0;
        while s < 16
            invariant
                s <= 16,
                u < n,
                n == successors@.len(),
                *row == successors@[u as int],
                forall|t: int| 0 <= t < s ==> (#[trigger] row[t]) < n,
            decreases 16 - s,
        {
            if row[s] as usize >= n {
                assert(!(successors@[u as int][s as int] < successors@.len()));
                return false;
            }
            s += 1;
        }
        u += 1;
    }
    true
}

/// Whether a substance leads from node `v` to node `u`.
fn leads_to(successors: &Vec<[u32; 16]>, v: u32, u: u32) -> (ok: bool)
    requires
        v < successors@.len(),
    ensures
        ok == exists|s: int| 0 <= s < 16 && #[trigger] successors@[v as int][s] == u,
{
    let row = &successors[v as usize];
    let mut s: usize = 0;
    while s < 16
        invariant
            s <= 16,
            *row == successors@[v as int],
            forall|t: int| 0 <= t < s ==> #[trigger] row[t] != u,
        decreases 16 - s,
    {
        if row[s] == u {
            return true;
        }
        s += 1;
    }
    false
}

/// Whether the list of predecessors of node `u` holds only other nodes that
/// lead to `u`, each once.
fn predecessors_lead_back(successors: &Vec<[u32; 16]>, row: &[u32], u: u32) -> (ok: bool)
    ensures
        ok == (row@.no_duplicates() && forall|j: int|
            0 <= j < row@.len() ==> {
                let v = #[trigger] row@[j];
                v < successors@.len() && v != u && exists|s: int|
                    0 <= s < 16 && #[trigger] successors@[v as int][s] == u
            }),
{
    let mut j: usize = 0;
    while j < row.len()
        invariant
            j <= row@.len(),
            forall|a: int, b: int| 0 <= a < b < j ==> row@[a] != row@[b],
            forall|i: int|
                0 <= i < j ==> {
                    let v = #[trigger] row@[i];
                    v < successors@.len() && v != u && exists|s: int|
                        0 <= s < 16 && #[trigger] successors@[v as int][s] == u
                },
        decreases row@.len() - j,
    {
        let v = row[j];
        if v as usize >= successors.len() || v == u {
            return false;
        }
        if !leads_to(successors, v, u) {
            return false;
        }
        let mut i: usize = 0;
        while i < j
            invariant
                i <= j < row@.len(),
                v == row@[j as int],
                forall|a: int| 0 <= a < i ==> row@[a] != v,
            decreases j - i,
        {
            if row[i] == v {
                return false;
            }
            i += 1;
        }
        j += 1;
    }
    true
}

/// Whether every node that leads to another is among its predecessors.
fn edges_are_recorded(successors: &Vec<[u32; 16]>, predecessors: &FlatStorage<u32>) -> (ok: bool)
    requires
        predecessors@.len() == successors@.len(),
        successors@.len() <= u32::MAX,
        forall|u: int, s: int|
            0 <= u < successors@.len() && 0 <= s < 16 ==> (#[trigger] successors@[u][s])
                < successors@.len(),
    ensures
        ok == forall|v: int, s: int|
            0 <= v < successors@.len() && 0 <= s < 16 && (#[trigger] successors@[v][s]) != v
                ==> predecessors@[successors@[v][s] as int].contains(v as u32),
{
    let n = successors.len();
    let mut v: usize = 0;
    while v < n
        invariant
            v <= n,
            n == successors@.len(),
            n <= u32::MAX,
            predecessors@.len() == n,
            forall|u: int, s: int|
                0 <= u < successors@.len() && 0 <= s < 16 ==> (#[trigger] successors@[u][s])
                    < successors@.len(),
            forall|a: int, s: int|
                0 <= a < v && 0 <= s < 16 && (#[trigger] successors@[a][s]) != a
                    ==> predecessors@[successors@[a][s] as int].contains(a as u32),
        decreases n - v,
    {
        let row = &successors[v];
        let mut s: usize = 0;
        while s < 16
            invariant
                s <= 16,
                v < n,
                n == successors@.len(),
                n <= u32::MAX,
                predecessors@.len() == n,
                *row == successors@[v as int],
                forall|t: int| 0 <= t < 16 ==> (#[trigger] row[t]) < n,
                forall|t: int|
                    0 <= t < s && (#[trigger] row[t]) != v ==> predecessors@[row[t] as int].contains(
                        v as u32,
                    ),
            decreases 16 - s,
        {
            let w = row[s];
            assert(successors@[v as int][s as int] < successors@.len());
            if w as usize != v {
                if !slice_contains(predecessors.get(w as usize), v as u32) {
                    assert(successors@[v as int][s as int] != v);
                    return false;
                }
            }
            s += 1;
        }
        v += 1;
    }
    true
}

/// Whether `value` is among `list`.
fn slice_contains(list: &[u32], value: u32) -> (r: bool)
    ensures
        r == list@.contains(value),
{
    let mut i: usize = 0;
    while i < list.len()
        invariant
            i <= list@.len(),
            forall|j: int| 0 <= j < i ==> list@[j] != value,
        decreases list@.len() - i,
    {
        if list[i] == value {
            return true;
        }
        i += 1;
    }
    false
}

impl<const N: u8, const K: u8> EffectGraph<N, K> {
    /// Takes successors and predecessors as they are, where there is one node
    /// for each set of the domain and successors and predecessors fit each
    /// other; `None` otherwise.
    pub fn from_parts(
        successors: Vec<[u32; 16]>,
        predecessors: FlatStorage<u32>,
        encoder: CombinatorialEncoder<N, K>,
    ) -> (r: Option<Self>)
        ensures
            r is Some <==> K <= N <= NUM_EFFECTS && successors@.len() == size_offset(
                N as nat,
                (K + 1) as nat,
            ) && links_consistent(successors@, predecessors@),
            r matches Some(g) ==> g.spec_successor_rows() == successors@
                && g.spec_predecessor_rows() == predecessors@,
    {
        if K > N || N > NUM_EFFECTS {
            return None;
        }
        let n = successors.len();
        if n != encoder.maximum_index() as usize || predecessors.len() != n {
            return None;
        }
        if !successors_are_nodes(&successors) {
            return None;
        }
        let mut u: usize = 0;
        while u < n
            invariant
                u <= n,
                n == successors@.len(),
                n <= u32::MAX,
                predecessors@.len() == n,
                forall|a: int|
                    0 <= a < u ==> (#[trigger] predecessors@[a]).no_duplicates() && forall|j: int|
                        0 <= j < predecessors@[a].len() ==> {
                            let v = #[trigger] predecessors@[a][j];
                            v < successors@.len() && v != a && exists|s: int|
                                0 <= s < 16 && #[trigger] successors@[v as int][s] == a
                        },
            decreases n - u,
        {
            if !predecessors_lead_back(&successors, predecessors.get(u), u as u32) {
                proof {
                    let row = predecessors@[u as int];
                    if row.no_duplicates() {
                        let j = choose|j: int|
                            0 <= j < row.len() && !({
                                let v = #[trigger] row[j];
                                v < successors@.len() && v != u as u32 && exists|s: int|
                                    0 <= s < 16 && #[trigger] successors@[v as int][s] == u as u32
                            });
                        assert(predecessors@[u as int][j] == row[j]);
                    }
                }
                return None;
            }
            u += 1;
        }
        if !edges_are_recorded(&successors, &predecessors) {
            return None;
        }
        Some(Self { successors, predecessors, encoder })
    }
}

/// Where every node has its successors, no substance leaves the domain.
proof fn lemma_no_leak(rules: MixtureRules, n: nat, k: nat, successors: Seq<[u32; 16]>)
    requires
        n <= 64,
        successors.len() == size_offset(n, k + 1),
        forall|u: int, s: Substance|
            0 <= u < successors.len() ==> is_successor(
                rules,
                n,
                k,
                u as nat,
                s,
                #[trigger] successors[u][s.spec_index() as int] as nat,
            ),
    ensures
        !leaves_domain(rules, n, k),
{
    assert forall|mask: u64, s: Substance| in_domain(n, k, mask) implies in_domain(
        n,
        k,
        #[trigger] rules.apply_spec(s, mask),
    ) by {
        crate::combinatorial::laws::lemma_encode_in_range(n, k, mask);
        let u = spec_encode(n, mask) as int;
        assert(is_successor(rules, n, k, u as nat, s, successors[u][s.spec_index() as int] as nat));
        let other = choose|other: u64|
            in_domain(n, k, other) && #[trigger] spec_encode(n, other) == u && in_domain(
                n,
                k,
                rules.apply_spec(s, other),
            ) && successors[u][s.spec_index() as int] as nat == spec_encode(
                n,
                rules.apply_spec(s, other),
            );
        crate::combinatorial::laws::lemma_encode_injective(n, other, mask);
    }
}

} // verus!
