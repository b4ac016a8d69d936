use vstd::prelude::*;
use vstd::arithmetic::power::pow;

verus! {

/// An address of the 160-bit address space.
pub type EvmAddress = [u8; 20];

/// The byte at index `i` of the 32-byte big-endian form of `value`.
pub open spec fn big_endian_byte(value: u128, i: int) -> u8 {
    if 16 <= i < 32 {
        ((value as int / pow(256, (31 - i) as nat)) % 256) as u8
    } else {
        0u8
    }
}

/// Calls `primitive_types::U256::from` on a `u128` and `U256::to_big_endian`
/// on the result. The 256-bit number holds `value` in its two low words, and
/// its bytes are written most significant first: sixteen zero bytes, then
/// the sixteen bytes of `value`.
#[verifier::external_body]
fn u256_big_endian(value: u128) -> (bytes: [u8; 32])
    ensures
        forall|i: int| 0 <= i < 32 ==> #[trigger] bytes@[i] == big_endian_byte(value, i),
{
    primitive_types::U256::from(value).to_big_endian()
}

/// The 32-byte big-endian word that stands for `value`.
pub fn to_bytes(value: u128) -> (bytes: [u8; 32])
    ensures
        forall|i: int| 0 <= i < 32 ==> #[trigger] bytes@[i] == big_endian_byte(value, i),
{
    u256_big_endian(value)
}

/// The code that makes an address revert every call: push 0, push 0, revert.
pub open spec fn revert_code() -> Seq<u8> {
    seq![0x60u8, 0x00u8, 0x60u8, 0x00u8, 0xfdu8]
}

/// The revert code as bytes.
pub fn evm_revert_code() -> (code: Vec<u8>)
    ensures
        code@ == revert_code(),
{
    let mut code: Vec<u8> = Vec::new();
    code.push(0x60u8);
    code.push(0x00u8);
    code.push(0x60u8);
    code.push(0x00u8);
    code.push(0xfdu8);
    proof {
        assert(code@ =~= revert_code());
    }
    code
}

/// Conversion between addresses and asset identifiers, supplied by the runtime.
pub trait EVMAddressToAssetId<AssetId> {
    /// The asset that lives at `address`, if one does.
    fn address_to_asset_id(address: EvmAddress) -> Option<AssetId>;

    /// The address at which `asset_id` lives, if it has one.
    fn asset_id_to_address(asset_id: AssetId) -> Option<EvmAddress>;
}

/// A mapping between account identifiers and addresses, supplied by the runtime.
pub trait EVMAddressMapping<AccountId> {
    /// The account that `evm` was generated from.
    fn get_account_id(evm: &EvmAddress) -> AccountId;

    /// The address associated with `account_id`, or the one that underlies it, if any.
    fn get_evm_address(account_id: &AccountId) -> Option<EvmAddress>;

    /// The address associated with `account_id`, created where there was none.
    fn get_or_create_evm_address(account_id: &AccountId) -> EvmAddress;

    /// The default address of `account_id`.
    fn get_default_evm_address(account_id: &AccountId) -> EvmAddress;

    /// Whether `account_id` is associated with `evm`.
    fn is_linked(account_id: &AccountId, evm: &EvmAddress) -> bool;
}

/// What has to happen to the code stored at an asset's address.
#[derive(Debug)]
pub enum CodeChange {
    /// The asset has no address: nothing to do.
    Nothing,
    /// Store `code` at `address`.
    Install { address: EvmAddress, code: Vec<u8> },
    /// Delete the code at `address`.
    Delete { address: EvmAddress },
}

/// Decides what the lifecycle of an asset does to the code at its address.
pub struct EvmRevertCodeHandler;

impl EvmRevertCodeHandler {
    /// An asset was created. Where it has an address, the revert code is to
    /// be installed there, unless code is already present, which is an error.
    pub fn created(address: Option<EvmAddress>, has_code: bool) -> (r: Result<CodeChange, ()>)
        ensures
            r is Err <==> address is Some && has_code,
            address is None ==> r is Ok && r->Ok_0 is Nothing,
            address is Some && !has_code ==> r is Ok && r->Ok_0 is Install && r->Ok_0->Install_address
                == address->0 && r->Ok_0->code@ == revert_code(),
    {
        match address {
            None => Ok(CodeChange::Nothing),
            Some(address) => {
                if has_code {
                    return Err(());
                }
                Ok(CodeChange::Install { address, code: evm_revert_code() })
            },
        }
    }

    /// An asset was destroyed. Where it has an address, the code there is to be deleted.
    pub fn destroyed(address: Option<EvmAddress>) -> (r: Result<CodeChange, ()>)
        ensures
            r is Ok,
            address is None ==> r->Ok_0 is Nothing,
            address is Some ==> r->Ok_0 is Delete && r->Ok_0->Delete_address == address->0,
    {
        match address {
            None => Ok(CodeChange::Nothing),
            Some(address) => Ok(CodeChange::Delete { address }),
        }
    }
}

} // verus!
