use crate::error::AnalysisError;
use crate::extract::{extract_references, spec_references};
use crate::instruction::Instruction;
use crate::memory::{mem_at, FieldElement, Memory};
use crate::trace::{RegisterFrame, Trace};
use vstd::prelude::*;

verus! {

broadcast use vstd::seq_lib::lemma_seq_contains_after_push;

/// Identifies one executed instruction occurrence by its 0-based position in
/// the trace.
#[derive(Clone, Copy, Debug, PartialEq, Eq, Structural, Hash)]
pub struct StepId(pub usize);

/// Identifies one memory cell by its absolute address.
#[derive(Clone, Copy, Debug, PartialEq, Eq, Structural, Hash)]
pub struct ValueId(pub usize);

/// Which end of the address range a candidate lookup picks among the
/// matching addresses.
#[derive(Clone, Copy, Debug, PartialEq, Eq, Structural)]
pub enum CandidateEnd {
    /// The lowest matching address, the convention for a source value.
    Earliest,
    /// The highest matching address, the convention for a target value.
    Latest,
}

/// Whether an association list holds `x` under key `k`.
pub open spec fn assoc_has<K, X>(m: Seq<(K, Vec<X>)>, k: K, x: X) -> bool {
    exists|i: int| 0 <= i < m.len() && m[i].0 == k && m[i].1@.contains(x)
}

/// No two entries of the association list share a key.
pub open spec fn assoc_unique_keys<K, X>(m: Seq<(K, Vec<X>)>) -> bool {
    forall|i: int, j: int| 0 <= i < j < m.len() ==> m[i].0 != m[j].0
}

/// Every entry's list is non-empty and free of duplicates.
pub open spec fn assoc_lists_ok<K, X>(m: Seq<(K, Vec<X>)>) -> bool {
    forall|i: int| 0 <= i < m.len() ==> (#[trigger] m[i]).1@.len() > 0 && m[i].1@.no_duplicates()
}

/// Whether the instruction executed at step `s` references address `v`:
/// the reference-edge relation the graph records.
pub open spec fn spec_edge(
    mem: Seq<Option<FieldElement>>,
    trace: Seq<RegisterFrame>,
    instrs: Seq<Instruction>,
    s: usize,
    v: usize,
) -> bool {
    &&& (s as int) < trace.len()
    &&& spec_references(instrs[s as int], trace[s as int], mem) matches Ok(refs) && refs.contains(
        v,
    )
}

/// The bidirectional association between step indices and the memory
/// addresses their instructions reference, built once per (memory, trace)
/// pair and read-only afterwards.
///
/// Both directions are association lists with unique keys and duplicate-free
/// neighbor lists; lookups scan linearly.
pub struct GraphMappings {
    step2value: Vec<(StepId, Vec<ValueId>)>,
    value2step: Vec<(ValueId, Vec<StepId>)>,
}

impl GraphMappings {
    /// Whether the step-to-value direction records address `v` under step
    /// `s`.
    pub closed spec fn step_has_value(&self, s: usize, v: usize) -> bool {
        assoc_has(self.step2value@, StepId(s), ValueId(v))
    }

    /// Whether the value-to-step direction records step `s` under address
    /// `v`.
    pub closed spec fn value_has_step(&self, v: usize, s: usize) -> bool {
        assoc_has(self.value2step@, ValueId(v), StepId(s))
    }

    /// The graph's edge relation: step `s` touched address `v`.
    pub open spec fn edge(&self, s: usize, v: usize) -> bool {
        self.step_has_value(s, v)
    }

    /// Whether step `s` has at least one recorded edge.
    pub open spec fn has_step(&self, s: usize) -> bool {
        exists|v: usize| self.step_has_value(s, v)
    }

    /// Whether address `v` has at least one recorded edge.
    pub open spec fn has_value(&self, v: usize) -> bool {
        exists|s: usize| self.value_has_step(v, s)
    }

    /// Well-formedness: both directions have unique keys and non-empty,
    /// duplicate-free lists, and they record the same edges.
    pub closed spec fn wf(&self) -> bool {
        &&& assoc_unique_keys(self.step2value@)
        &&& assoc_lists_ok(self.step2value@)
        &&& assoc_unique_keys(self.value2step@)
        &&& assoc_lists_ok(self.value2step@)
        &&& forall|s: usize, v: usize| self.step_has_value(s, v) <==> self.value_has_step(v, s)
    }

    /// Build the graph for one recorded run: for every step in order,
    /// extract the addresses its instruction references and record the
    /// association in both directions. Construction is all-or-nothing: the
    /// error of the first failing step is returned and no partial graph is
    /// kept.
    ///
    /// The instruction decoder is an external collaborator, so the caller
    /// hands in each step's decoded instruction alongside the trace.
    pub fn new(memory: &Memory, trace: &Trace, instructions: &Vec<Instruction>) -> (r: Result<
        GraphMappings,
        AnalysisError,
    >)
        requires
            instructions@.len() == trace@.len(),
        ensures
            match r {
                Ok(g) => {
                    &&& g.wf()
                    &&& forall|s: usize, v: usize|
                        g.edge(s, v) <==> spec_edge(memory@, trace@, instructions@, s, v)
                    &&& forall|s: int|
                        0 <= s < trace@.len() ==> spec_references(
                            instructions@[s],
                            trace@[s],
                            memory@,
                        ) is Ok
                },
                Err(e) => exists|s: int|
                    0 <= s < trace@.len() && #[trigger] spec_references(
                        instructions@[s],
                        trace@[s],
                        memory@,
                    ) == Err::<Seq<usize>, AnalysisError>(e) && (forall|t: int|
                        0 <= t < s ==> spec_references(instructions@[t], trace@[t], memory@) is Ok),
            },
    {
        let mut step2value: Vec<(StepId, Vec<ValueId>)> = Vec::new();
        let mut value2step: Vec<(ValueId, Vec<StepId>)> = Vec::new();
        let n = trace.len();
        let mut s: usize = 0;
        while s < n
            invariant
                n == trace@.len(),
                instructions@.len() == trace@.len(),
                s <= n,
                forall|t: int|
                    0 <= t < s ==> spec_references(instructions@[t], trace@[t], memory@) is Ok,
                assoc_unique_keys(step2value@),
                assoc_lists_ok(step2value@),
                assoc_unique_keys(value2step@),
                assoc_lists_ok(value2step@),
                forall|i: int| 0 <= i < step2value@.len() ==> (#[trigger] step2value@[i]).0.0 < s,
                forall|t: usize, v: usize|
                    #[trigger] assoc_has(step2value@, StepId(t), ValueId(v)) <==> (t < s
                        && spec_edge(
                        memory@,
                        trace@,
                        instructions@,
                        t,
                        v,
                    )),
                forall|v: usize, t: usize|
                    #[trigger] assoc_has(value2step@, ValueId(v), StepId(t)) <==> (t < s
                        && spec_edge(
                        memory@,
                        trace@,
                        instructions@,
                        t,
                        v,
                    )),
            decreases n - s,
        {
            let frame = trace.frame(s);
            let instr = instructions[s];
            let refs = match extract_references(&instr, &frame, memory) {
                Ok(refs) => refs,
                Err(e) => {
                    proof {
                        assert(0 <= (s as int) < trace@.len() && spec_references(
                            instructions@[s as int],
                            trace@[s as int],
                            memory@,
                        ) == Err::<Seq<usize>, AnalysisError>(e) && (forall|t: int|
                            0 <= t < s as int ==> spec_references(
                                instructions@[t],
                                trace@[t],
                                memory@,
                            ) is Ok));
                    }
                    return Err(e);
                },
            };
            let uniq = dedup_values(&refs);
            let mut j: usize = 0;
            while j < uniq.len()
                invariant
                    j <= uniq@.len(),
                    n == trace@.len(),
                    instructions@.len() == trace@.len(),
                    s < n,
                    uniq@.no_duplicates(),
                    forall|v: usize| uniq@.contains(ValueId(v)) <==> refs@.contains(v),
                    spec_references(instructions@[s as int], trace@[s as int], memory@) == Ok::<
                        Seq<usize>,
                        AnalysisError,
                    >(refs@),
                    assoc_unique_keys(value2step@),
                    assoc_lists_ok(value2step@),
                    forall|v: usize, t: usize|
                        #[trigger] assoc_has(value2step@, ValueId(v), StepId(t)) <==> ((t < s
                            && spec_edge(
                            memory@,
                            trace@,
                            instructions@,
                            t,
                            v,
                        )) || (t == s && exists|k: int|
                            0 <= k < j && #[trigger] uniq@[k] == ValueId(v))),
                decreases uniq@.len() - j,
            {
                let u = uniq[j];
                proof {
                    assert(u == ValueId(u.0));
                    if assoc_has(value2step@, u, StepId(s)) {
                        assert(assoc_has(value2step@, ValueId(u.0), StepId(s)));
                        assert(exists|k: int| 0 <= k < j && #[trigger] uniq@[k] == ValueId(u.0));
                        let k = choose|k: int| 0 <= k < j && #[trigger] uniq@[k] == ValueId(u.0);
                        assert(uniq@[k] == uniq@[j as int]);
                        assert(false);
                    }
                }
                let ghost v2s_before = value2step@;
                insert_value_step(&mut value2step, u, StepId(s));
                proof {
                    assert forall|v: usize, t: usize|
                        #[trigger] assoc_has(value2step@, ValueId(v), StepId(t)) <==> ((t < s
                            && spec_edge(
                            memory@,
                            trace@,
                            instructions@,
                            t,
                            v,
                        )) || (t == s && exists|k: int|
                            0 <= k < j + 1 && #[trigger] uniq@[k] == ValueId(v))) by {
                        if assoc_has(value2step@, ValueId(v), StepId(t)) {
                            if assoc_has(v2s_before, ValueId(v), StepId(t)) {
                                if t == s {
                                    let k = choose|k: int|
                                        0 <= k < j && #[trigger] uniq@[k] == ValueId(v);
                                    assert(0 <= k < j + 1 && uniq@[k] == ValueId(v));
                                }
                            } else {
                                assert(ValueId(v) == u && StepId(t) == StepId(s));
                                assert(t == s);
                                assert(uniq@[j as int] == ValueId(v));
                            }
                        }
                        if t < s && spec_edge(memory@, trace@, instructions@, t, v) {
                            assert(assoc_has(v2s_before, ValueId(v), StepId(t)));
                            assert(assoc_has(value2step@, ValueId(v), StepId(t)));
                        }
                        if t == s && (exists|k: int|
                            0 <= k < j + 1 && #[trigger] uniq@[k] == ValueId(v)) {
                            let k = choose|k: int|
                                0 <= k < j + 1 && #[trigger] uniq@[k] == ValueId(v);
                            if k < j {
                                assert(assoc_has(v2s_before, ValueId(v), StepId(t)));
                                assert(assoc_has(value2step@, ValueId(v), StepId(t)));
                            } else {
                                assert(uniq@[j as int] == ValueId(v));
                                assert(ValueId(v) == u);
                                assert(assoc_has(value2step@, ValueId(v), StepId(t)));
                            }
                        }
                    }
                }
                j += 1;
            }
            proof {
                assert forall|v: usize, t: usize|
                    #[trigger] assoc_has(value2step@, ValueId(v), StepId(t)) <==> (t < s + 1
                        && spec_edge(
                        memory@,
                        trace@,
                        instructions@,
                        t,
                        v,
                    )) by {
                    assert((exists|k: int| 0 <= k < uniq@.len() && #[trigger] uniq@[k] == ValueId(
                        v,
                    )) == uniq@.contains(ValueId(v)));
                    if t == s {
                        assert(spec_edge(memory@, trace@, instructions@, s, v) == refs@.contains(
                            v,
                        ));
                    }
                }
            }
            let ghost s2v_before = step2value@;
            let ghost uniqv = uniq@;
            if uniq.len() > 0 {
                step2value.push((StepId(s), uniq));
                proof {
                    let m1 = step2value@;
                    assert(m1.len() == s2v_before.len() + 1);
                    assert(m1[s2v_before.len() as int].0 == StepId(s));
                    assert(m1[s2v_before.len() as int].1@ == uniqv);
                    assert(forall|i: int| 0 <= i < s2v_before.len() ==> m1[i] == s2v_before[i]);
                    assert forall|i2: int, j2: int|
                        0 <= i2 < j2 < m1.len() implies (#[trigger] m1[i2]).0 != (
                    #[trigger] m1[j2]).0 by {
                        if j2 == s2v_before.len() {
                            assert(s2v_before[i2].0.0 < s);
                        }
                    }
                    assert forall|i2: int|
                        0 <= i2 < m1.len() implies (#[trigger] m1[i2]).1@.len() > 0
                        && m1[i2].1@.no_duplicates() by {
                        if i2 < s2v_before.len() {
                            assert(m1[i2] == s2v_before[i2]);
                        }
                    }
                    assert forall|t: usize, v: usize|
                        #[trigger] assoc_has(m1, StepId(t), ValueId(v)) <==> (t < s + 1
                            && spec_edge(
                            memory@,
                            trace@,
                            instructions@,
                            t,
                            v,
                        )) by {
                        if assoc_has(m1, StepId(t), ValueId(v)) {
                            let k = choose|k: int|
                                0 <= k < m1.len() && (#[trigger] m1[k]).0 == StepId(t)
                                    && m1[k].1@.contains(ValueId(v));
                            if k == s2v_before.len() {
                                assert(t == s);
                                assert(uniqv.contains(ValueId(v)));
                                assert(refs@.contains(v));
                                assert(spec_edge(memory@, trace@, instructions@, s, v));
                            } else {
                                assert(m1[k] == s2v_before[k]);
                                assert(assoc_has(s2v_before, StepId(t), ValueId(v)));
                            }
                        }
                        if t < s && spec_edge(memory@, trace@, instructions@, t, v) {
                            assert(assoc_has(s2v_before, StepId(t), ValueId(v)));
                            let k = choose|k: int|
                                0 <= k < s2v_before.len() && (#[trigger] s2v_before[k]).0 == StepId(
                                    t,
                                ) && s2v_before[k].1@.contains(ValueId(v));
                            assert(m1[k] == s2v_before[k]);
                            assert(assoc_has(m1, StepId(t), ValueId(v)));
                        }
                        if t == s && spec_edge(memory@, trace@, instructions@, t, v) {
                            assert(refs@.contains(v));
                            assert(uniqv.contains(ValueId(v)));
                            assert(m1[s2v_before.len() as int].0 == StepId(t) && m1[s2v_before.len() as int].1@.contains(ValueId(v)));
                            assert(assoc_has(m1, StepId(t), ValueId(v)));
                        }
                    }
                }
            } else {
                proof {
                    assert forall|v: usize| !refs@.contains(v) by {
                        if refs@.contains(v) {
                            assert(uniq@.contains(ValueId(v)));
                        }
                    }
                    assert forall|t: usize, v: usize|
                        #[trigger] assoc_has(step2value@, StepId(t), ValueId(v)) <==> (t < s + 1
                            && spec_edge(
                            memory@,
                            trace@,
                            instructions@,
                            t,
                            v,
                        )) by {
                        if t == s {
                            assert(!spec_edge(memory@, trace@, instructions@, s, v));
                        }
                    }
                }
            }
            s += 1;
        }
        let g = GraphMappings { step2value, value2step };
        proof {
            assert forall|s2: usize, v: usize|
                g.step_has_value(s2, v) <==> spec_edge(memory@, trace@, instructions@, s2, v) by {
                if spec_edge(memory@, trace@, instructions@, s2, v) {
                    assert((s2 as int) < trace@.len());
                }
            }
            assert forall|s2: usize, v: usize|
                g.value_has_step(v, s2) <==> spec_edge(memory@, trace@, instructions@, s2, v) by {
                if spec_edge(memory@, trace@, instructions@, s2, v) {
                    assert((s2 as int) < trace@.len());
                }
            }
            assert(g.wf());
        }
        Ok(g)
    }
}

impl GraphMappings {
    /// The step-to-value direction: one entry per step with at least one
    /// edge, listing the addresses that step's instruction referenced.
    pub fn step2value(&self) -> (r: &Vec<(StepId, Vec<ValueId>)>)
        requires
            self.wf(),
        ensures
            forall|i: int, j: int| 0 <= i < j < r@.len() ==> (#[trigger] r@[i]).0 != (
            #[trigger] r@[j]).0,
            forall|i: int|
                0 <= i < r@.len() ==> (#[trigger] r@[i]).1@.len() > 0
                    && r@[i].1@.no_duplicates(),
            forall|i: int, j: int|
                0 <= i < r@.len() && 0 <= j < r@[i].1@.len() ==> #[trigger] self.step_has_value(
                    r@[i].0.0,
                    r@[i].1@[j].0,
                ),
            forall|s: usize, v: usize|
                #[trigger] self.step_has_value(s, v) ==> exists|i: int|
                    0 <= i < r@.len() && (#[trigger] r@[i]).0 == StepId(s) && r@[i].1@.contains(
                        ValueId(v),
                    ),
    {
        proof {
            let m = self.step2value@;
            assert forall|i: int, j: int|
                0 <= i < m.len() && 0 <= j < m[i].1@.len() implies #[trigger] self.step_has_value(
                m[i].0.0,
                m[i].1@[j].0,
            ) by {
                assert(m[i].0 == StepId(m[i].0.0));
                assert(m[i].1@[j] == ValueId(m[i].1@[j].0));
                assert(m[i].1@.contains(m[i].1@[j]));
                assert(assoc_has(m, StepId(m[i].0.0), ValueId(m[i].1@[j].0)));
            }
        }
        &self.step2value
    }

    /// The value-to-step direction: one entry per referenced address,
    /// listing the steps whose instructions referenced it.
    pub fn value2step(&self) -> (r: &Vec<(ValueId, Vec<StepId>)>)
        requires
            self.wf(),
        ensures
            forall|i: int, j: int| 0 <= i < j < r@.len() ==> (#[trigger] r@[i]).0 != (
            #[trigger] r@[j]).0,
            forall|i: int|
                0 <= i < r@.len() ==> (#[trigger] r@[i]).1@.len() > 0
                    && r@[i].1@.no_duplicates(),
            forall|i: int, j: int|
                0 <= i < r@.len() && 0 <= j < r@[i].1@.len() ==> #[trigger] self.value_has_step(
                    r@[i].0.0,
                    r@[i].1@[j].0,
                ),
            forall|v: usize, s: usize|
                #[trigger] self.value_has_step(v, s) ==> exists|i: int|
                    0 <= i < r@.len() && (#[trigger] r@[i]).0 == ValueId(v) && r@[i].1@.contains(
                        StepId(s),
                    ),
    {
        proof {
            let m = self.value2step@;
            assert forall|i: int, j: int|
                0 <= i < m.len() && 0 <= j < m[i].1@.len() implies #[trigger] self.value_has_step(
                m[i].0.0,
                m[i].1@[j].0,
            ) by {
                assert(m[i].0 == ValueId(m[i].0.0));
                assert(m[i].1@[j] == StepId(m[i].1@[j].0));
                assert(m[i].1@.contains(m[i].1@[j]));
                assert(assoc_has(m, ValueId(m[i].0.0), StepId(m[i].1@[j].0)));
            }
        }
        &self.value2step
    }

    /// The addresses the given step's instruction referenced. The step must
    /// have at least one recorded edge: querying an unknown id is a usage
    /// error.
    pub fn step_neighbors(&self, s: StepId) -> (r: &Vec<ValueId>)
        requires
            self.wf(),
            self.has_step(s.0),
        ensures
            r@.len() > 0,
            r@.no_duplicates(),
            r@.len() <= self.size_bound(),
            forall|j: int| 0 <= j < r@.len() ==> #[trigger] self.step_has_value(s.0, r@[j].0),
            forall|v: usize| #[trigger] self.step_has_value(s.0, v) ==> r@.contains(ValueId(v)),
    {
        let ghost m = self.step2value@;
        let mut i: usize = 0;
        while i < self.step2value.len()
            invariant
                self.wf(),
                self.has_step(s.0),
                m == self.step2value@,
                i <= m.len(),
                forall|k: int| 0 <= k < i ==> (#[trigger] m[k]).0 != StepId(s.0),
            decreases m.len() - i,
        {
            let found = self.step2value[i].0 == s;
            if found {
                proof {
                    assert(m[i as int].0 == StepId(s.0));
                    let list = m[i as int].1@;
                    assert(list.len() > 0 && list.no_duplicates());
                    assert forall|j: int| 0 <= j < list.len() implies #[trigger] self
                        .step_has_value(s.0, list[j].0) by {
                        assert(list[j] == ValueId(list[j].0));
                        assert(list.contains(list[j]));
                        assert(assoc_has(m, StepId(s.0), ValueId(list[j].0)));
                    }
                    assert forall|v: usize| #[trigger] self.step_has_value(s.0, v) implies list
                        .contains(ValueId(v)) by {
                        let k = choose|k: int|
                            0 <= k < m.len() && (#[trigger] m[k]).0 == StepId(s.0)
                                && m[k].1@.contains(ValueId(v));
                        assert(k == i as int);
                    }
                    let u = Seq::new(list.len(), |j: int| list[j].0);
                    assert(u.no_duplicates()) by {
                        assert forall|a: int, b: int|
                            0 <= a < u.len() && 0 <= b < u.len() && a != b implies u[a] != u[b] by {
                            assert(list[a] == ValueId(list[a].0));
                            assert(list[b] == ValueId(list[b].0));
                        }
                    }
                    self.lemma_key_sets_finite();
                    assert forall|j: int|
                        0 <= j < u.len() implies self.value_key_set().contains(
                        #[trigger] u[j],
                    ) by {
                        assert(self.step_has_value(s.0, list[j].0));
                        assert(self.value_has_step(list[j].0, s.0));
                        assert(self.has_value(list[j].0));
                    }
                    lemma_distinct_len_bound(u, self.value_key_set());
                    assert(list.len() <= self.size_bound());
                }
                return &self.step2value[i].1;
            }
            i += 1;
        }
        proof {
            let v0 = choose|v: usize| self.step_has_value(s.0, v);
            let k = choose|k: int|
                0 <= k < m.len() && (#[trigger] m[k]).0 == StepId(s.0) && m[k].1@.contains(
                    ValueId(v0),
                );
            assert(false);
        }
        vstd::pervasive::unreached()
    }

    /// The steps whose instructions referenced the given address. The
    /// address must have at least one recorded edge: querying an unknown id
    /// is a usage error.
    pub fn value_neighbors(&self, v: ValueId) -> (r: &Vec<StepId>)
        requires
            self.wf(),
            self.has_value(v.0),
        ensures
            r@.len() > 0,
            r@.no_duplicates(),
            r@.len() <= self.size_bound(),
            forall|j: int| 0 <= j < r@.len() ==> #[trigger] self.value_has_step(v.0, r@[j].0),
            forall|s: usize| #[trigger] self.value_has_step(v.0, s) ==> r@.contains(StepId(s)),
    {
        let ghost m = self.value2step@;
        let mut i: usize = 0;
        while i < self.value2step.len()
            invariant
                self.wf(),
                self.has_value(v.0),
                m == self.value2step@,
                i <= m.len(),
                forall|k: int| 0 <= k < i ==> (#[trigger] m[k]).0 != ValueId(v.0),
            decreases m.len() - i,
        {
            let found = self.value2step[i].0 == v;
            if found {
                proof {
                    assert(m[i as int].0 == ValueId(v.0));
                    let list = m[i as int].1@;
                    assert(list.len() > 0 && list.no_duplicates());
                    assert forall|j: int| 0 <= j < list.len() implies #[trigger] self
                        .value_has_step(v.0, list[j].0) by {
                        assert(list[j] == StepId(list[j].0));
                        assert(list.contains(list[j]));
                        assert(assoc_has(m, ValueId(v.0), StepId(list[j].0)));
                    }
                    assert forall|s: usize| #[trigger] self.value_has_step(v.0, s) implies list
                        .contains(StepId(s)) by {
                        let k = choose|k: int|
                            0 <= k < m.len() && (#[trigger] m[k]).0 == ValueId(v.0)
                                && m[k].1@.contains(StepId(s));
                        assert(k == i as int);
                    }
                    let u = Seq::new(list.len(), |j: int| list[j].0);
                    assert(u.no_duplicates()) by {
                        assert forall|a: int, b: int|
                            0 <= a < u.len() && 0 <= b < u.len() && a != b implies u[a] != u[b] by {
                            assert(list[a] == StepId(list[a].0));
                            assert(list[b] == StepId(list[b].0));
                        }
                    }
                    self.lemma_key_sets_finite();
                    assert forall|j: int|
                        0 <= j < u.len() implies self.step_key_set().contains(
                        #[trigger] u[j],
                    ) by {
                        assert(self.value_has_step(v.0, list[j].0));
                        assert(self.step_has_value(list[j].0, v.0));
                        assert(self.has_step(list[j].0));
                    }
                    lemma_distinct_len_bound(u, self.step_key_set());
                    assert(list.len() <= self.size_bound());
                }
                return &self.value2step[i].1;
            }
            i += 1;
        }
        proof {
            let s0 = choose|s: usize| self.value_has_step(v.0, s);
            let k = choose|k: int|
                0 <= k < m.len() && (#[trigger] m[k]).0 == ValueId(v.0) && m[k].1@.contains(
                    StepId(s0),
                );
            assert(false);
        }
        vstd::pervasive::unreached()
    }
}

/// Whether address `v` is a candidate for a literal: it has at least one
/// recorded edge and the memory snapshot holds the literal there.
pub open spec fn is_candidate(
    g: GraphMappings,
    mem: Seq<Option<FieldElement>>,
    literal: FieldElement,
    v: usize,
) -> bool {
    g.has_value(v) && mem_at(mem, v as int) == Some(literal)
}

impl GraphMappings {
    /// Among the addresses with recorded edges whose memory value equals the
    /// literal, pick the lowest or the highest address, per the caller's
    /// convention. Fails exactly when no recorded address holds the literal.
    pub fn select_candidates(
        &self,
        memory: &Memory,
        literal: FieldElement,
        end: CandidateEnd,
    ) -> (r: Result<ValueId, AnalysisError>)
        requires
            self.wf(),
        ensures
            match r {
                Ok(v) => {
                    &&& is_candidate(*self, memory@, literal, v.0)
                    &&& end == CandidateEnd::Earliest ==> forall|w: usize|
                        #[trigger] is_candidate(*self, memory@, literal, w) ==> v.0 <= w
                    &&& end == CandidateEnd::Latest ==> forall|w: usize|
                        #[trigger] is_candidate(*self, memory@, literal, w) ==> w <= v.0
                },
                Err(e) => {
                    &&& e == AnalysisError::ValueNotFound
                    &&& forall|w: usize| !#[trigger] is_candidate(*self, memory@, literal, w)
                },
            },
    {
        let ghost m = self.value2step@;
        let mut best: Option<usize> = None;
        let mut i: usize = 0;
        while i < self.value2step.len()
            invariant
                self.wf(),
                m == self.value2step@,
                i <= m.len(),
                match best {
                    Some(b) => {
                        &&& is_candidate(*self, memory@, literal, b)
                        &&& forall|j: int|
                            0 <= j < i && mem_at(memory@, (#[trigger] m[j]).0.0 as int) == Some(
                                literal,
                            ) ==> (end == CandidateEnd::Earliest ==> b <= m[j].0.0) && (end
                                == CandidateEnd::Latest ==> m[j].0.0 <= b)
                    },
                    None => forall|j: int|
                        0 <= j < i ==> mem_at(memory@, (#[trigger] m[j]).0.0 as int) != Some(
                            literal,
                        ),
                },
            decreases m.len() - i,
        {
            let key = self.value2step[i].0;
            proof {
                let list = m[i as int].1@;
                assert(list.len() > 0);
                assert(list.contains(list[0]));
                assert(list[0] == StepId(list[0].0));
                assert(assoc_has(m, ValueId(key.0), StepId(list[0].0)));
                assert(self.value_has_step(key.0, list[0].0));
                assert(self.has_value(key.0));
            }
            match memory.get(key.0) {
                Some(held) => {
                    if held == literal {
                        match best {
                            None => { best = Some(key.0) },
                            Some(b) => {
                                let better = match end {
                                    CandidateEnd::Earliest => key.0 < b,
                                    CandidateEnd::Latest => key.0 > b,
                                };
                                if better {
                                    best = Some(key.0);
                                }
                            },
                        }
                    }
                },
                None => {},
            }
            i += 1;
        }
        match best {
            Some(b) => {
                proof {
                    assert forall|w: usize|
                        #[trigger] is_candidate(*self, memory@, literal, w) implies ((end
                        == CandidateEnd::Earliest ==> b <= w) && (end == CandidateEnd::Latest ==> w
                        <= b)) by {
                        let s0 = choose|s: usize| self.value_has_step(w, s);
                        let k = choose|k: int|
                            0 <= k < m.len() && (#[trigger] m[k]).0 == ValueId(w)
                                && m[k].1@.contains(StepId(s0));
                        assert(m[k].0.0 == w);
                        assert(mem_at(memory@, m[k].0.0 as int) == Some(literal));
                    }
                }
                Ok(ValueId(b))
            },
            None => {
                proof {
                    assert forall|w: usize| !#[trigger] is_candidate(
                        *self,
                        memory@,
                        literal,
                        w,
                    ) by {
                        if is_candidate(*self, memory@, literal, w) {
                            let s0 = choose|s: usize| self.value_has_step(w, s);
                            let k = choose|k: int|
                                0 <= k < m.len() && (#[trigger] m[k]).0 == ValueId(w)
                                    && m[k].1@.contains(StepId(s0));
                            assert(mem_at(memory@, m[k].0.0 as int) == Some(literal));
                        }
                    }
                }
                Err(AnalysisError::ValueNotFound)
            },
        }
    }
}

impl GraphMappings {
    /// The step indices with at least one recorded edge.
    pub open spec fn step_key_set(&self) -> Set<usize> {
        Set::new(|s: usize| self.has_step(s))
    }

    /// The addresses with at least one recorded edge.
    pub open spec fn value_key_set(&self) -> Set<usize> {
        Set::new(|v: usize| self.has_value(v))
    }

    /// An upper bound on how many distinct steps and addresses the graph
    /// records: one entry per key in each direction.
    pub closed spec fn size_bound(&self) -> nat {
        self.step2value@.len() + self.value2step@.len()
    }

    /// Both key sets are finite, and together they have no more members
    /// than the graph's size bound.
    pub proof fn lemma_key_sets_finite(&self)
        requires
            self.wf(),
        ensures
            self.step_key_set().finite(),
            self.value_key_set().finite(),
            self.step_key_set().len() + self.value_key_set().len() <= self.size_bound(),
    {
        let ms = self.step2value@;
        let sidx = vstd::set_lib::set_int_range(0, ms.len() as int);
        vstd::set_lib::lemma_int_range(0, ms.len() as int);
        let fs = |i: int| ms[i].0.0;
        let simg = sidx.map(fs);
        vstd::set_lib::lemma_map_size_bound(sidx, simg, fs);
        assert forall|s: usize| self.step_key_set().contains(s) implies simg.contains(s) by {
            let v = choose|v: usize| self.step_has_value(s, v);
            let k = choose|k: int|
                0 <= k < ms.len() && (#[trigger] ms[k]).0 == StepId(s) && ms[k].1@.contains(
                    ValueId(v),
                );
            assert(sidx.contains(k));
            assert(fs(k) == s);
        }
        vstd::set_lib::lemma_len_subset(self.step_key_set(), simg);

        let mv = self.value2step@;
        let vidx = vstd::set_lib::set_int_range(0, mv.len() as int);
        vstd::set_lib::lemma_int_range(0, mv.len() as int);
        let fv = |i: int| mv[i].0.0;
        let vimg = vidx.map(fv);
        vstd::set_lib::lemma_map_size_bound(vidx, vimg, fv);
        assert forall|v: usize| self.value_key_set().contains(v) implies vimg.contains(v) by {
            let s = choose|s: usize| self.value_has_step(v, s);
            let k = choose|k: int|
                0 <= k < mv.len() && (#[trigger] mv[k]).0 == ValueId(v) && mv[k].1@.contains(
                    StepId(s),
                );
            assert(vidx.contains(k));
            assert(fv(k) == v);
        }
        vstd::set_lib::lemma_len_subset(self.value_key_set(), vimg);
    }
}

/// A duplicate-free sequence whose members all lie in a finite set is no
/// longer than that set.
pub proof fn lemma_distinct_len_bound<A>(s: Seq<A>, keys: Set<A>)
    requires
        s.no_duplicates(),
        forall|i: int| 0 <= i < s.len() ==> keys.contains(#[trigger] s[i]),
        keys.finite(),
    ensures
        s.len() <= keys.len(),
{
    s.unique_seq_to_set();
    assert forall|x: A| s.to_set().contains(x) implies keys.contains(x) by {
        assert(s.contains(x));
        let i = choose|i: int| 0 <= i < s.len() && s[i] == x;
        assert(keys.contains(s[i]));
    }
    vstd::set_lib::lemma_len_subset(s.to_set(), keys);
}

/// Symmetry invariant: an address stands among a step's values exactly when
/// that step stands among the address's steps.
pub proof fn lemma_symmetry(g: &GraphMappings, s: usize, v: usize)
    requires
        g.wf(),
    ensures
        g.step_has_value(s, v) <==> g.value_has_step(v, s),
{
}

/// Determinism: two graphs whose edges both match the reference relation of
/// the same memory, trace and instruction inputs record identical edges.
pub proof fn lemma_determinism(
    g1: &GraphMappings,
    g2: &GraphMappings,
    mem: Seq<Option<FieldElement>>,
    trace: Seq<RegisterFrame>,
    instrs: Seq<Instruction>,
)
    requires
        forall|s: usize, v: usize| g1.edge(s, v) <==> spec_edge(mem, trace, instrs, s, v),
        forall|s: usize, v: usize| g2.edge(s, v) <==> spec_edge(mem, trace, instrs, s, v),
    ensures
        forall|s: usize, v: usize| g1.edge(s, v) <==> g2.edge(s, v),
{
}

/// Whether a vector of value ids contains `x`.
fn vec_contains_value(v: &Vec<ValueId>, x: ValueId) -> (r: bool)
    ensures
        r == v@.contains(x),
{
    let mut i: usize = 0;
    while i < v.len()
        invariant
            i <= v@.len(),
            forall|j: int| 0 <= j < i ==> v@[j] != x,
        decreases v@.len() - i,
    {
        if v[i] == x {
            assert(v@.contains(x)) by {
                assert(v@[i as int] == x);
            }
            return true;
        }
        i += 1;
    }
    false
}

/// Collapse a step's raw reference list to a duplicate-free list of value
/// ids with the same membership.
fn dedup_values(refs: &Vec<usize>) -> (r: Vec<ValueId>)
    ensures
        r@.no_duplicates(),
        forall|v: usize| r@.contains(ValueId(v)) <==> refs@.contains(v),
{
    let mut uniq: Vec<ValueId> = Vec::new();
    let mut i: usize = 0;
    while i < refs.len()
        invariant
            i <= refs@.len(),
            uniq@.no_duplicates(),
            forall|v: usize|
                uniq@.contains(ValueId(v)) <==> exists|j: int|
                    0 <= j < i && #[trigger] refs@[j] == v,
        decreases refs@.len() - i,
    {
        let x = refs[i];
        if !vec_contains_value(&uniq, ValueId(x)) {
            uniq.push(ValueId(x));
        }
        proof {
            assert(refs@[i as int] == x);
            assert forall|v: usize|
                uniq@.contains(ValueId(v)) <==> exists|j: int|
                    0 <= j < i + 1 && #[trigger] refs@[j] == v by {
                if uniq@.contains(ValueId(v)) {
                    if v == x {
                        assert(refs@[i as int] == v);
                    }
                }
                if exists|j: int| 0 <= j < i + 1 && #[trigger] refs@[j] == v {
                    let j = choose|j: int| 0 <= j < i + 1 && #[trigger] refs@[j] == v;
                    if j == i {
                        assert(v == x);
                        assert(uniq@.contains(ValueId(x)));
                    }
                }
            }
        }
        i += 1;
    }
    proof {
        assert forall|v: usize| uniq@.contains(ValueId(v)) <==> refs@.contains(v) by {
            assert((exists|j: int| 0 <= j < refs@.len() && #[trigger] refs@[j] == v)
                == refs@.contains(v));
        }
    }
    uniq
}

/// Pushing a fresh element keeps a sequence duplicate-free.
pub proof fn lemma_push_no_duplicates<A>(s: Seq<A>, x: A)
    requires
        s.no_duplicates(),
        !s.contains(x),
    ensures
        s.push(x).no_duplicates(),
{
    assert forall|i: int, j: int|
        0 <= i < s.push(x).len() && 0 <= j < s.push(x).len() && i != j implies s.push(x)[i]
        != s.push(x)[j] by {
        if i < s.len() && j < s.len() {
        } else if j == s.len() {
            if s[i] == x {
                assert(s.contains(x));
            }
        } else {
            if s[j] == x {
                assert(s.contains(x));
            }
        }
    }
}

/// Record step `s` under address key `v` in the value-to-step direction,
/// creating the key's entry if it is new.
fn insert_value_step(v2s: &mut Vec<(ValueId, Vec<StepId>)>, v: ValueId, s: StepId)
    requires
        assoc_unique_keys(old(v2s)@),
        assoc_lists_ok(old(v2s)@),
        !assoc_has(old(v2s)@, v, s),
    ensures
        assoc_unique_keys(final(v2s)@),
        assoc_lists_ok(final(v2s)@),
        forall|w: ValueId, t: StepId|
            #[trigger] assoc_has(final(v2s)@, w, t) <==> assoc_has(old(v2s)@, w, t) || (w == v && t
                == s),
{
    let ghost m0 = v2s@;
    let mut i: usize = 0;
    while i < v2s.len()
        invariant
            i <= v2s@.len(),
            v2s@ == m0,
            m0 == old(v2s)@,
            assoc_unique_keys(m0),
            assoc_lists_ok(m0),
            !assoc_has(m0, v, s),
            forall|j: int| 0 <= j < i ==> (#[trigger] m0[j]).0 != v,
        decreases v2s@.len() - i,
    {
        let found = v2s[i].0 == v;
        if found {
            let mut entry = v2s.remove(i);
            proof {
                assert(m0 == old(v2s)@);
                assert(0 <= i < m0.len());
                assert(m0[i as int].1@.no_duplicates() && m0[i as int].1@.len() > 0);
                assert(entry == m0[i as int]);
                if entry.1@.contains(s) {
                    assert(assoc_has(m0, v, s));
                }
                lemma_push_no_duplicates(entry.1@, s);
            }
            entry.1.push(s);
            let ghost newentry = entry;
            v2s.insert(i, entry);
            proof {
                let m1 = v2s@;
                assert(m1 =~= m0.update(i as int, newentry));
                assert(newentry.0 == v);
                assert(newentry.1@ == m0[i as int].1@.push(s));
                assert(forall|j: int| 0 <= j < m1.len() ==> (#[trigger] m1[j]).0 == m0[j].0);
                assert(assoc_unique_keys(m1));
                assert forall|j: int|
                    0 <= j < m1.len() implies (#[trigger] m1[j]).1@.len() > 0
                    && m1[j].1@.no_duplicates() by {
                    if j == i {
                        assert(m1[j] == newentry);
                    } else {
                        assert(m1[j] == m0[j]);
                    }
                }
                assert(assoc_lists_ok(m1));
                assert forall|w: ValueId, t: StepId|
                    assoc_has(m1, w, t) <==> (assoc_has(m0, w, t) || (w == v && t
                        == s)) by {
                    if assoc_has(m1, w, t) {
                        let k = choose|k: int|
                            0 <= k < m1.len() && (#[trigger] m1[k]).0 == w && m1[k].1@.contains(t);
                        if k == i {
                            if t != s {
                                assert(m0[i as int].0 == w && m0[i as int].1@.contains(t));
                                assert(assoc_has(m0, w, t));
                            }
                        } else {
                            assert(m0[k].0 == w && m0[k].1@.contains(t));
                            assert(assoc_has(m0, w, t));
                        }
                    }
                    if assoc_has(m0, w, t) {
                        let k = choose|k: int|
                            0 <= k < m0.len() && (#[trigger] m0[k]).0 == w && m0[k].1@.contains(t);
                        if k == i {
                            assert(m1[k].0 == w && m1[k].1@.contains(t));
                        } else {
                            assert(m1[k].0 == w && m1[k].1@.contains(t));
                        }
                        assert(assoc_has(m1, w, t));
                    }
                    if w == v && t == s {
                        assert(m1[i as int].0 == w && m1[i as int].1@.contains(t));
                        assert(assoc_has(m1, w, t));
                    }
                }
            }
            return ;
        }
        i += 1;
    }
    let mut list: Vec<StepId> = Vec::new();
    list.push(s);
    let ghost thelist = list;
    v2s.push((v, list));
    proof {
        let m1 = v2s@;
        assert(m1 =~= m0.push((v, thelist)));
        assert(m1[m0.len() as int].0 == v && m1[m0.len() as int].1@ == seq![s]);
        assert forall|i2: int, j2: int| 0 <= i2 < j2 < m1.len() implies m1[i2].0 != m1[j2].0 by {
            if j2 == m0.len() {
                assert(m0[i2].0 != v);
            }
        }
        assert forall|w: ValueId, t: StepId|
            assoc_has(m1, w, t) <==> (assoc_has(m0, w, t) || (w == v && t == s)) by {
            if assoc_has(m1, w, t) {
                let k = choose|k: int|
                    0 <= k < m1.len() && (#[trigger] m1[k]).0 == w && m1[k].1@.contains(t);
                if k == m0.len() {
                    assert(seq![s].contains(t) ==> t == s);
                } else {
                    assert(m0[k].0 == w && m0[k].1@.contains(t));
                    assert(assoc_has(m0, w, t));
                }
            }
            if assoc_has(m0, w, t) {
                let k = choose|k: int|
                    0 <= k < m0.len() && (#[trigger] m0[k]).0 == w && m0[k].1@.contains(t);
                assert(m1[k].0 == w && m1[k].1@.contains(t));
                assert(assoc_has(m1, w, t));
            }
            if w == v && t == s {
                assert(seq![s][0] == s && seq![s].contains(s));
                assert(assoc_has(m1, w, t));
            }
        }
    }
}

} // verus!
