use solstice::debugger::tracer::{
    is_call_op_code, is_forge_variable, make_map, FunctionCallKind, IcPcMap, PcIcMap, StepKind,
    VariableLocation, CALL, CREATE, REVERT,
};

#[test]
fn push_data_is_skipped_in_instruction_numbers() {
    // PUSH1 0x80, PUSH2 0x01 0x02, ADD, STOP
    let code = [0x60u8, 0x80, 0x61, 0x01, 0x02, 0x01, 0x00];
    let pc_ic = PcIcMap::new(&code);
    assert_eq!(pc_ic.get(0), Some(0));
    assert_eq!(pc_ic.get(2), Some(1));
    assert_eq!(pc_ic.get(5), Some(2));
    assert_eq!(pc_ic.get(6), Some(3));
    assert_eq!(pc_ic.get(1), None);
    assert_eq!(pc_ic.get(3), None);

    let by_pc = IcPcMap::new(&code);
    assert_eq!(by_pc.get(0), Some(0));
    assert_eq!(by_pc.get(2), Some(1));
    assert_eq!(by_pc.get(5), Some(2));
    assert_eq!(by_pc.get(6), Some(3));
    assert_eq!(by_pc.get(1), None);

    let ic_pc = make_map::<false>(&code);
    assert_eq!(ic_pc.get(&0), Some(&0));
    assert_eq!(ic_pc.get(&1), Some(&2));
    assert_eq!(ic_pc.get(&2), Some(&5));
    assert_eq!(ic_pc.get(&3), Some(&6));
    assert_eq!(ic_pc.get(&4), None);
}

#[test]
fn maps_are_inverse_on_a_push32() {
    let mut code = vec![0x7fu8];
    code.extend(vec![0xaa; 32]);
    code.push(0x00);
    let forward = make_map::<true>(&code);
    let backward = make_map::<false>(&code);
    assert_eq!(forward.len(), 2);
    assert_eq!(forward.get(&33), Some(&1));
    assert_eq!(backward.get(&1), Some(&33));
    for (pc, ic) in forward.iter() {
        assert_eq!(backward.get(ic), Some(pc));
    }
}

#[test]
fn truncated_push_at_the_end() {
    let code = [0x00u8, 0x62, 0x01];
    let map = make_map::<true>(&code);
    assert_eq!(map.len(), 2);
    assert_eq!(map.get(&1), Some(&1));
}

#[test]
fn call_opcodes() {
    assert!(is_call_op_code(CALL));
    assert!(is_call_op_code(CREATE));
    assert!(!is_call_op_code(REVERT));
    assert!(!is_call_op_code(0x01));
}

#[test]
fn forge_variables_are_recognised() {
    assert!(is_forge_variable("vm"));
    assert!(is_forge_variable("IS_TEST"));
    assert!(is_forge_variable("_targetedSelectors"));
    assert!(!is_forge_variable("balance"));
    assert!(!is_forge_variable("VM"));
}

#[test]
fn variable_locations_from_text() {
    assert!(matches!(
        VariableLocation::from_str("storage", VariableLocation::Stack),
        Ok(VariableLocation::Storage)
    ));
    assert!(matches!(
        VariableLocation::from_str("calldata", VariableLocation::Stack),
        Ok(VariableLocation::Calldata)
    ));
    assert!(matches!(
        VariableLocation::from_str("default", VariableLocation::Memory),
        Ok(VariableLocation::Memory)
    ));
    assert!(VariableLocation::from_str("heap", VariableLocation::Stack).is_err());
}

#[test]
fn call_kinds_and_steps() {
    assert_eq!(FunctionCallKind::Call.to_string(), "CALL");
    assert_eq!(FunctionCallKind::Create.to_string(), "CREATE");
    assert!(StepKind::FunctionCall(FunctionCallKind::Create).is_function_call());
    assert!(!StepKind::FunctionExit.is_function_call());
    assert!(!StepKind::Statement(true).is_function_call());
}

#[test]
fn both_instruction_maps_have_one_entry_per_instruction() {
    let code = [0x60u8, 0x01, 0x01, 0x7f, 0x00];
    let by_pc = make_map::<true>(&code);
    let by_ic = make_map::<false>(&code);
    assert_eq!(by_pc.len(), 3);
    assert_eq!(by_ic.len(), 3);
    assert_eq!(by_pc.get(&3), Some(&2));
    assert_eq!(by_ic.get(&2), Some(&3));
    assert!(by_pc.keys().all(|pc| *pc < code.len()));
}
