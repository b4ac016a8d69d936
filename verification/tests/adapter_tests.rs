use parachain_staking::evm::{evm_revert_code, to_bytes, CodeChange, EvmRevertCodeHandler};
use parachain_staking::inflation::{InflationConfiguration, InflationParameters, Perbill};
use parachain_staking::ledger::{CollatorInfo, Ledger, LockInstruction};
use parachain_staking::precompile::{precompiles, CallOutput, PCall};
use parachain_staking::types::{Config, StakingError, TotalStake};

#[test]
fn to_bytes_is_big_endian() {
    let mut expected = [0u8; 32];
    expected[30] = 0x01;
    expected[31] = 0x02;
    assert_eq!(to_bytes(0x0102), expected);
    assert_eq!(to_bytes(0), [0u8; 32]);
    let mut top = [0u8; 32];
    for byte in top.iter_mut().skip(16) {
        *byte = 0xff;
    }
    assert_eq!(to_bytes(u128::MAX), top);
    let mut high = [0u8; 32];
    high[16] = 0x80;
    assert_eq!(to_bytes(1u128 << 127), high);
    assert_eq!(
        primitive_types::U256::from_big_endian(&to_bytes(110)),
        primitive_types::U256::from(110u128)
    );
}

#[test]
fn revert_code_is_installed_once() {
    assert_eq!(evm_revert_code(), vec![0x60, 0x00, 0x60, 0x00, 0xfd]);
    let address = [7u8; 20];
    assert!(matches!(EvmRevertCodeHandler::created(None, false), Ok(CodeChange::Nothing)));
    assert!(matches!(EvmRevertCodeHandler::created(None, true), Ok(CodeChange::Nothing)));
    match EvmRevertCodeHandler::created(Some(address), false) {
        Ok(CodeChange::Install { address: at, code }) => {
            assert_eq!(at, address);
            assert_eq!(code, vec![0x60, 0x00, 0x60, 0x00, 0xfd]);
        },
        other => panic!("unexpected {:?}", other),
    }
    assert!(EvmRevertCodeHandler::created(Some(address), true).is_err());
    assert!(matches!(EvmRevertCodeHandler::destroyed(None), Ok(CodeChange::Nothing)));
    match EvmRevertCodeHandler::destroyed(Some(address)) {
        Ok(CodeChange::Delete { address: at }) => assert_eq!(at, address),
        other => panic!("unexpected {:?}", other),
    }
}

#[test]
fn inflation_defaults_are_zero() {
    let parameters = InflationParameters::default();
    assert_eq!(parameters.inflation_rate, Perbill { parts: 0 });
    assert_eq!(parameters.disinflation_rate, Perbill { parts: 0 });
    let configuration = InflationConfiguration::default();
    assert_eq!(configuration.inflation_parameters, parameters);
    assert_eq!(configuration.inflation_stagnation_year, 0);
    assert_eq!(Perbill::from_parts(35_000_000).parts, 35_000_000);
    assert_eq!(Perbill::from_parts(u32::MAX).parts, 1_000_000_000);
}

#[test]
fn calls_reach_the_ledger() {
    let set = precompiles();
    let mut ledger = Ledger::new(Config {
        min_collator_stake: 10,
        min_delegator_stake: 5,
        max_delegations: 2,
        max_unstake_requests: 4,
        unstaking_delay: 2,
    });
    assert!(ledger.join_candidate(1, 10).is_ok());
    assert!(ledger.join_candidate(3, 20).is_ok());
    let join = PCall::JoinDelegators { collator: 1, stake: 100 };
    match set.execute(&mut ledger, 2, join, 1) {
        Ok(CallOutput::Lock(instruction)) => {
            assert_eq!(instruction, LockInstruction::SetLock { account: 2, amount: 100 })
        },
        other => panic!("unexpected {:?}", other),
    }
    match set.execute(&mut ledger, 2, PCall::GetCollatorList, 1) {
        Ok(CallOutput::Collators(list)) => assert_eq!(
            list,
            vec![CollatorInfo { owner: 1, amount: 110 }, CollatorInfo { owner: 3, amount: 20 }]
        ),
        other => panic!("unexpected {:?}", other),
    }
    assert!(matches!(set.execute(&mut ledger, 2, join, 1), Err(StakingError::DuplicateDelegation)));
    let less = PCall::DelegatorStakeLess { collator: 1, stake: 40 };
    assert!(set.execute(&mut ledger, 2, less, 1).is_ok());
    assert_eq!(ledger.total_collator_stake(), TotalStake { collators: 30, delegators: 60 });
    match set.execute(&mut ledger, 9, PCall::UnlockUnstaked { target: 2 }, 3) {
        Ok(CallOutput::Lock(instruction)) => {
            assert_eq!(instruction, LockInstruction::SetLock { account: 2, amount: 60 })
        },
        other => panic!("unexpected {:?}", other),
    }
    assert!(matches!(
        set.execute(&mut ledger, 2, PCall::LeaveDelegators, 3),
        Ok(CallOutput::Lock(LockInstruction::SetLock { account: 2, amount: 60 }))
    ));
    assert!(matches!(
        set.execute(&mut ledger, 2, PCall::RevokeDelegation { collator: 1 }, 3),
        Err(StakingError::NotFound)
    ));
}
