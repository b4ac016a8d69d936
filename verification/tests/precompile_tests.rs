use parachain_staking::precompile::{precompiles, PCall};

#[test]
fn test_selector_enum() {
    assert!(PCall::get_collator_list_selectors().contains(&0xaaacb283));
    assert!(PCall::join_delegators_selectors().contains(&0xd9f511cd));
    assert!(PCall::delegate_another_candidate_selectors().contains(&0x1916fdca));
    assert!(PCall::leave_delegators_selectors().contains(&0x4b99dc38));
    assert!(PCall::revoke_delegation_selectors().contains(&0xb96f2b07));
    assert!(PCall::delegator_stake_more_selectors().contains(&0x1b3d3cdf));
    assert!(PCall::delegator_stake_less_selectors().contains(&0xb7e8947f));
    assert!(PCall::unlock_unstaked_selectors().contains(&0x0f615369));
}

#[test]
fn precompiles_answer_every_call_of_the_interface() {
    let set = precompiles();
    assert_eq!(set.selectors.len(), 8);
    assert!(set.supports(0xaaacb283));
    assert!(set.supports(0x0f615369));
    assert!(!set.supports(0));
    let call = PCall::UnlockUnstaked { target: 7 };
    assert_eq!(call.selector(), 0x0f615369);
    assert!(set.supports(call.selector()));
    assert!(!call.is_view());
    assert!(PCall::GetCollatorList.is_view());
}
