use sierra2casm_dbg::{
    extract::extract_references, run_search_algorithm, AnalysisError, BfsQueue, CandidateEnd,
    CellRef, DerefOrImmediate, DfsQueue, FieldElement, GraphMappings, Instruction, Memory, NodeId,
    Register, RegisterFrame, ResOperand, StepId, Trace, ValueId,
};

fn felt(v: u64) -> FieldElement {
    FieldElement {
        d0: v,
        d1: 0,
        d2: 0,
        d3: 0,
    }
}

fn fp_cell(offset: i16) -> CellRef {
    CellRef {
        register: Register::Fp,
        offset,
    }
}

fn zero_frames(n: usize) -> Trace {
    Trace::new(vec![
        RegisterFrame {
            pc: 0,
            ap: 0,
            fp: 0
        };
        n
    ])
}

/// The three-step scenario: step 0 assigns X to address 10, step 1 copies
/// address 10 into address 11, step 2 asserts address 11 equals Y.
fn scenario() -> (Memory, Trace, Vec<Instruction>) {
    let x = felt(1234);
    let y = felt(5678);
    let mut cells: Vec<Option<FieldElement>> = vec![None; 12];
    cells[10] = Some(x);
    cells[11] = Some(y);
    let memory = Memory::new(cells);
    let trace = zero_frames(3);
    let instructions = vec![
        Instruction::AssertEq {
            a: fp_cell(10),
            b: ResOperand::Immediate(x),
        },
        Instruction::AssertEq {
            a: fp_cell(11),
            b: ResOperand::Deref(fp_cell(10)),
        },
        Instruction::AssertEq {
            a: fp_cell(11),
            b: ResOperand::Immediate(y),
        },
    ];
    (memory, trace, instructions)
}

#[test]
fn scenario_breadth_first_path() {
    let (memory, trace, instructions) = scenario();
    let mappings = GraphMappings::new(&memory, &trace, &instructions).unwrap();
    let source = mappings
        .select_candidates(&memory, felt(1234), CandidateEnd::Earliest)
        .unwrap();
    let target = mappings
        .select_candidates(&memory, felt(5678), CandidateEnd::Latest)
        .unwrap();
    assert_eq!(source, ValueId(10));
    assert_eq!(target, ValueId(11));
    let mut iter = run_search_algorithm::<BfsQueue<Vec<NodeId>>>(&mappings, source, target);
    let path = iter.next().unwrap();
    assert_eq!(
        path,
        vec![
            NodeId::Value(ValueId(10)),
            NodeId::Step(StepId(1)),
            NodeId::Value(ValueId(11)),
        ]
    );
}

#[test]
fn symmetry_of_both_directions() {
    let (memory, trace, instructions) = scenario();
    let mappings = GraphMappings::new(&memory, &trace, &instructions).unwrap();
    let s2v = mappings.step2value();
    let v2s = mappings.value2step();
    for (step, values) in s2v {
        for value in values {
            let entry = v2s.iter().find(|(v, _)| v == value).unwrap();
            assert!(entry.1.contains(step));
        }
    }
    for (value, steps) in v2s {
        for step in steps {
            let entry = s2v.iter().find(|(s, _)| s == step).unwrap();
            assert!(entry.1.contains(value));
        }
    }
}

#[test]
fn determinism_of_construction() {
    let (memory, trace, instructions) = scenario();
    let first = GraphMappings::new(&memory, &trace, &instructions).unwrap();
    let second = GraphMappings::new(&memory, &trace, &instructions).unwrap();
    assert_eq!(first.step2value(), second.step2value());
    assert_eq!(first.value2step(), second.value2step());
}

#[test]
fn expected_edges_of_scenario() {
    let (memory, trace, instructions) = scenario();
    let mappings = GraphMappings::new(&memory, &trace, &instructions).unwrap();
    let s2v = mappings.step2value();
    assert_eq!(s2v.len(), 3);
    assert_eq!(s2v[0], (StepId(0), vec![ValueId(10)]));
    assert_eq!(s2v[1], (StepId(1), vec![ValueId(11), ValueId(10)]));
    assert_eq!(s2v[2], (StepId(2), vec![ValueId(11)]));
    let v2s = mappings.value2step();
    assert_eq!(v2s.len(), 2);
    assert_eq!(v2s[0], (ValueId(10), vec![StepId(0), StepId(1)]));
    assert_eq!(v2s[1], (ValueId(11), vec![StepId(1), StepId(2)]));
}

#[test]
fn causality_round_trip() {
    // step 0 writes address 10; step 1 reads address 10 through a
    // binary-op operand while writing address 11
    let x = felt(7);
    let mut cells: Vec<Option<FieldElement>> = vec![None; 12];
    cells[10] = Some(x);
    let memory = Memory::new(cells);
    let trace = zero_frames(2);
    let instructions = vec![
        Instruction::AssertEq {
            a: fp_cell(10),
            b: ResOperand::Immediate(x),
        },
        Instruction::AssertEq {
            a: fp_cell(11),
            b: ResOperand::BinOp(sierra2casm_dbg::BinOpOperand {
                a: fp_cell(10),
                b: DerefOrImmediate::Immediate(felt(1)),
            }),
        },
    ];
    let mappings = GraphMappings::new(&memory, &trace, &instructions).unwrap();
    let v2s = mappings.value2step();
    let entry = v2s.iter().find(|(v, _)| *v == ValueId(10)).unwrap();
    assert!(entry.1.contains(&StepId(0)));
    assert!(entry.1.contains(&StepId(1)));
    // one hop from Value(10) reaches Step(1)
    let mut iter = run_search_algorithm::<BfsQueue<Vec<NodeId>>>(
        &mappings,
        ValueId(10),
        ValueId(11),
    );
    let path = iter.next().unwrap();
    assert_eq!(path[0], NodeId::Value(ValueId(10)));
    assert_eq!(path[1], NodeId::Step(StepId(1)));
}

#[test]
fn breadth_first_no_longer_than_depth_first() {
    // a short route (one step) and a long route (two steps) between the
    // same endpoints
    let mut cells: Vec<Option<FieldElement>> = vec![None; 8];
    for a in 1..4 {
        cells[a] = Some(felt(a as u64));
    }
    let memory = Memory::new(cells);
    let trace = zero_frames(3);
    let instructions = vec![
        Instruction::AssertEq {
            a: fp_cell(1),
            b: ResOperand::Deref(fp_cell(2)),
        },
        Instruction::AssertEq {
            a: fp_cell(2),
            b: ResOperand::Deref(fp_cell(3)),
        },
        Instruction::AssertEq {
            a: fp_cell(1),
            b: ResOperand::Deref(fp_cell(3)),
        },
    ];
    let mappings = GraphMappings::new(&memory, &trace, &instructions).unwrap();
    let mut bfs = run_search_algorithm::<BfsQueue<Vec<NodeId>>>(&mappings, ValueId(1), ValueId(3));
    let mut dfs = run_search_algorithm::<DfsQueue<Vec<NodeId>>>(&mappings, ValueId(1), ValueId(3));
    let bfs_path = bfs.next().unwrap();
    let dfs_path = dfs.next().unwrap();
    assert!(bfs_path.len() <= dfs_path.len());
    assert_eq!(bfs_path.len(), 3);
}

#[test]
fn unsupported_call_target() {
    let memory = Memory::new(Vec::new());
    let frame = RegisterFrame { pc: 0, ap: 0, fp: 0 };
    let r = extract_references(
        &Instruction::Call {
            target: DerefOrImmediate::Deref(fp_cell(0)),
        },
        &frame,
        &memory,
    );
    assert_eq!(r, Err(AnalysisError::UnsupportedOperand));
}

#[test]
fn unsupported_operands_abort_construction() {
    let memory = Memory::new(Vec::new());
    let trace = zero_frames(1);
    for instruction in [
        Instruction::AddAp {
            operand: ResOperand::Deref(fp_cell(0)),
        },
        Instruction::AddAp {
            operand: ResOperand::BinOp(sierra2casm_dbg::BinOpOperand {
                a: fp_cell(0),
                b: DerefOrImmediate::Immediate(felt(1)),
            }),
        },
        Instruction::Call {
            target: DerefOrImmediate::Deref(fp_cell(0)),
        },
        Instruction::Jnz {
            condition: fp_cell(0),
            jump_offset: DerefOrImmediate::Deref(fp_cell(1)),
        },
    ] {
        let r = GraphMappings::new(&memory, &trace, &vec![instruction]);
        assert_eq!(r.err(), Some(AnalysisError::UnsupportedOperand));
    }
}

#[test]
fn supported_shapes_without_references() {
    let memory = Memory::new(Vec::new());
    let frame = RegisterFrame { pc: 0, ap: 0, fp: 0 };
    for instruction in [
        Instruction::Ret,
        Instruction::AddAp {
            operand: ResOperand::Immediate(felt(3)),
        },
        Instruction::Call {
            target: DerefOrImmediate::Immediate(felt(3)),
        },
        Instruction::Jump {
            target: DerefOrImmediate::Immediate(felt(3)),
        },
    ] {
        assert_eq!(extract_references(&instruction, &frame, &memory), Ok(Vec::new()));
    }
}

#[test]
fn double_dereference_references() {
    // the pointer cell at address 3 holds 7, so the instruction references
    // its own left cell, the pointer cell, and address 7
    let mut cells: Vec<Option<FieldElement>> = vec![None; 8];
    cells[3] = Some(felt(7));
    let memory = Memory::new(cells);
    let frame = RegisterFrame { pc: 0, ap: 0, fp: 0 };
    let r = extract_references(
        &Instruction::AssertEq {
            a: fp_cell(5),
            b: ResOperand::DoubleDeref(fp_cell(3), 0),
        },
        &frame,
        &memory,
    );
    assert_eq!(r, Ok(vec![5, 3, 7]));
}

#[test]
fn double_dereference_unset_cell() {
    let memory = Memory::new(vec![None; 8]);
    let frame = RegisterFrame { pc: 0, ap: 0, fp: 0 };
    let r = extract_references(
        &Instruction::AssertEq {
            a: fp_cell(5),
            b: ResOperand::DoubleDeref(fp_cell(3), 0),
        },
        &frame,
        &memory,
    );
    assert_eq!(r, Err(AnalysisError::UnresolvedMemoryCell));
}

#[test]
fn double_dereference_non_addressable_value() {
    let mut cells: Vec<Option<FieldElement>> = vec![None; 8];
    cells[3] = Some(FieldElement {
        d0: 7,
        d1: 1,
        d2: 0,
        d3: 0,
    });
    let memory = Memory::new(cells);
    let frame = RegisterFrame { pc: 0, ap: 0, fp: 0 };
    let r = extract_references(
        &Instruction::AssertEq {
            a: fp_cell(5),
            b: ResOperand::DoubleDeref(fp_cell(3), 0),
        },
        &frame,
        &memory,
    );
    assert_eq!(r, Err(AnalysisError::UnresolvedMemoryCell));
}

#[test]
fn address_resolution_wraps_around() {
    let memory = Memory::new(Vec::new());
    let up = RegisterFrame {
        pc: 0,
        ap: usize::MAX,
        fp: 0,
    };
    let r = extract_references(
        &Instruction::Jump {
            target: DerefOrImmediate::Deref(CellRef {
                register: Register::Ap,
                offset: 1,
            }),
        },
        &up,
        &memory,
    );
    assert_eq!(r, Ok(vec![0]));
    let down = RegisterFrame { pc: 0, ap: 0, fp: 0 };
    let r = extract_references(
        &Instruction::Jump {
            target: DerefOrImmediate::Deref(CellRef {
                register: Register::Ap,
                offset: -1,
            }),
        },
        &down,
        &memory,
    );
    assert_eq!(r, Ok(vec![usize::MAX]));
}

#[test]
fn conditional_jump_references_condition() {
    let memory = Memory::new(Vec::new());
    let frame = RegisterFrame { pc: 0, ap: 20, fp: 0 };
    let r = extract_references(
        &Instruction::Jnz {
            condition: CellRef {
                register: Register::Ap,
                offset: 2,
            },
            jump_offset: DerefOrImmediate::Immediate(felt(9)),
        },
        &frame,
        &memory,
    );
    assert_eq!(r, Ok(vec![22]));
}

#[test]
fn candidate_selection_picks_requested_end() {
    // addresses 1 and 3 hold the same literal
    let mut cells: Vec<Option<FieldElement>> = vec![None; 8];
    cells[1] = Some(felt(42));
    cells[2] = Some(felt(9));
    cells[3] = Some(felt(42));
    let memory = Memory::new(cells);
    let trace = zero_frames(2);
    let instructions = vec![
        Instruction::AssertEq {
            a: fp_cell(1),
            b: ResOperand::Deref(fp_cell(2)),
        },
        Instruction::AssertEq {
            a: fp_cell(3),
            b: ResOperand::Deref(fp_cell(2)),
        },
    ];
    let mappings = GraphMappings::new(&memory, &trace, &instructions).unwrap();
    let earliest = mappings
        .select_candidates(&memory, felt(42), CandidateEnd::Earliest)
        .unwrap();
    let latest = mappings
        .select_candidates(&memory, felt(42), CandidateEnd::Latest)
        .unwrap();
    assert_eq!(earliest, ValueId(1));
    assert_eq!(latest, ValueId(3));
    let missing = mappings.select_candidates(&memory, felt(100), CandidateEnd::Earliest);
    assert_eq!(missing, Err(AnalysisError::ValueNotFound));
}

#[test]
fn disconnected_search_exhausts() {
    // two components sharing no step
    let mut cells: Vec<Option<FieldElement>> = vec![None; 8];
    for a in 1..5 {
        cells[a] = Some(felt(a as u64));
    }
    let memory = Memory::new(cells);
    let trace = zero_frames(2);
    let instructions = vec![
        Instruction::AssertEq {
            a: fp_cell(1),
            b: ResOperand::Deref(fp_cell(2)),
        },
        Instruction::AssertEq {
            a: fp_cell(3),
            b: ResOperand::Deref(fp_cell(4)),
        },
    ];
    let mappings = GraphMappings::new(&memory, &trace, &instructions).unwrap();
    let mut iter = run_search_algorithm::<BfsQueue<Vec<NodeId>>>(&mappings, ValueId(1), ValueId(3));
    assert_eq!(iter.next(), None);
    assert_eq!(iter.next(), None);
}

#[test]
fn source_equals_target_yields_single_node_path() {
    let (memory, trace, instructions) = scenario();
    let mappings = GraphMappings::new(&memory, &trace, &instructions).unwrap();
    let mut iter =
        run_search_algorithm::<DfsQueue<Vec<NodeId>>>(&mappings, ValueId(10), ValueId(10));
    let path = iter.next().unwrap();
    assert_eq!(path, vec![NodeId::Value(ValueId(10))]);
    assert_eq!(iter.queue().current_step(), 1);
}

#[test]
fn search_resumes_for_further_paths() {
    // two disjoint routes between the endpoints: both are enumerated
    let mut cells: Vec<Option<FieldElement>> = vec![None; 8];
    for a in 1..4 {
        cells[a] = Some(felt(a as u64));
    }
    let memory = Memory::new(cells);
    let trace = zero_frames(2);
    let instructions = vec![
        Instruction::AssertEq {
            a: fp_cell(1),
            b: ResOperand::Deref(fp_cell(2)),
        },
        Instruction::AssertEq {
            a: fp_cell(1),
            b: ResOperand::Deref(fp_cell(2)),
        },
    ];
    let mappings = GraphMappings::new(&memory, &trace, &instructions).unwrap();
    let mut iter = run_search_algorithm::<BfsQueue<Vec<NodeId>>>(&mappings, ValueId(1), ValueId(2));
    let first = iter.next().unwrap();
    let second = iter.next().unwrap();
    assert_eq!(first.len(), 3);
    assert_eq!(second.len(), 3);
    assert_ne!(first, second);
    assert_eq!(iter.next(), None);
}

#[test]
fn field_element_address_interpretation() {
    assert_eq!(felt(25).to_address(), Some(25));
    let too_wide = FieldElement {
        d0: 1,
        d1: 0,
        d2: 1,
        d3: 0,
    };
    assert_eq!(too_wide.to_address(), None);
    assert_eq!(FieldElement::from_u64(9), felt(9));
}

#[test]
fn source_equals_target_on_empty_graph() {
    // the single-node path is yielded before any graph lookup, so a source
    // with no recorded edge is fine when it already is the target
    let memory = Memory::new(Vec::new());
    let trace = zero_frames(0);
    let mappings = GraphMappings::new(&memory, &trace, &Vec::new()).unwrap();
    let mut iter =
        run_search_algorithm::<BfsQueue<Vec<NodeId>>>(&mappings, ValueId(10), ValueId(10));
    let path = iter.next().unwrap();
    assert_eq!(path, vec![NodeId::Value(ValueId(10))]);
    assert_eq!(iter.queue().current_step(), 1);
    assert_eq!(iter.next(), None);
}
