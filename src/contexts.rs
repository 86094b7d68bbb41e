use vstd::prelude::*;

use crate::types::TokenId;

verus! {

/// Lifecycle state of a trading pair.
#[derive(Clone, Copy, Debug, PartialEq, Eq, Structural)]
pub enum State {
    Inactive,
    Active,
    PartialActive,
}

/// Which kind of contract a deployer creates.
#[derive(Clone, Copy, Debug, PartialEq, Eq, Structural)]
pub enum DeployerType {
    Unset,
    FarmStaking,
    FarmWithTopUp,
}

/// The arguments of a call, as seen by an action context.
pub trait TxInputArgs {
    fn are_valid(&self) -> bool;
}

/// The payments of a call, as seen by an action context.
pub trait TxInputPayments {
    fn are_valid(&self) -> bool;
}

/// Everything a call brings in: its arguments and its payments.
pub trait TxInput {
    type Args: TxInputArgs;
    type Payments: TxInputPayments;

    fn get_args(&self) -> &Self::Args;

    fn get_payments(&self) -> &Self::Payments;

    fn is_valid(&self) -> bool;
}

/// The working state of one pair action: the pair's settings and the call's input.
pub trait Context {
    type Input: TxInput;

    fn set_contract_state(&mut self, contract_state: State);

    fn get_contract_state(&self) -> &State;

    fn set_lp_token_id(&mut self, lp_token_id: TokenId);

    fn get_lp_token_id(&self) -> &TokenId;

    fn set_first_token_id(&mut self, token_id: TokenId);

    fn get_first_token_id(&self) -> &TokenId;

    fn set_second_token_id(&mut self, token_id: TokenId);

    fn get_second_token_id(&self) -> &TokenId;

    fn get_tx_input(&self) -> &Self::Input;
}

} // verus!
