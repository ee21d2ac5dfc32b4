use wovenhat::interrupts::{
    cow_candidate, exception_action, fault_policy_self_test, page_fault_action, selector_is_user, FaultAction,
};

#[test]
fn user_selectors() {
    assert!(fault_policy_self_test());
    assert!(selector_is_user(0x23));
    assert!(!selector_is_user(0x10));
}

#[test]
fn page_fault_decisions() {
    assert!(cow_candidate(0x7));
    assert!(!cow_candidate(0x6));
    assert_eq!(page_fault_action(0x7, true), FaultAction::Resume);
    assert_eq!(page_fault_action(0x7, false), FaultAction::ExitProcess { vector: 14, exit_code: -11 });
    assert_eq!(page_fault_action(0x2, true), FaultAction::Halt);
    assert_eq!(exception_action(0x1b, 13, -13), FaultAction::ExitProcess { vector: 13, exit_code: -13 });
    assert_eq!(exception_action(0x08, 13, -13), FaultAction::Halt);
}
