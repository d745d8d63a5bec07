//! The phases of a deploy as a state machine: payment, then session, then
//! finalization of the payment. The caller runs each phase's code and hands
//! back how it ended; the machine decides what runs next and what is kept.
use vstd::prelude::*;
use crate::engine_state::{DeployEffects, effects_kept, payment_sufficient, session_gas_for, session_gas_limit, spent, finalize_amounts};
use crate::u512::U512;

verus! {

/// Where a deploy stands.
#[derive(Clone, Copy, Debug, PartialEq, Eq, Structural)]
pub enum DeployStage {
    Payment,
    Session,
    Finalize,
    Finished,
}

/// The state of a deploy between its phases.
#[derive(Clone, Copy, Debug, PartialEq, Eq)]
pub struct DeployProgress {
    pub stage: DeployStage,
    pub gas_price: u64,
    /// The session gas that the payment must cover.
    pub max_session_gas: u64,
    /// What the payment purse held once payment ran.
    pub payment_purse_balance: U512,
    /// The gas used so far.
    pub gas_used: u64,
    /// Whether the session's effects are kept.
    pub session_succeeded: bool,
}

/// How a phase ended.
#[derive(Clone, Copy, Debug, PartialEq, Eq)]
pub enum DeployEvent {
    PaymentFinished { succeeded: bool, cost: u64, purse_balance: U512 },
    SessionFinished { succeeded: bool, cost: u64 },
    FinalizeFinished { succeeded: bool },
}

/// Why a deploy failed as a whole.
#[derive(Clone, Copy, Debug, PartialEq, Eq, Structural)]
pub enum DeployFailure {
    PaymentFailed,
    FinalizeFailed,
    /// An event that does not belong to the deploy's stage.
    UnexpectedEvent,
}

/// What the caller does next.
#[derive(Clone, Copy, Debug, PartialEq, Eq)]
pub enum DeployAction {
    /// Run the session with this gas limit.
    RunSession { gas_limit: u64 },
    /// Run the payment's finalization, which pays `amount_spent` to the
    /// rewards purse and refunds the rest. `insufficient_payment` tells that
    /// the session did not run because the payment did not cover it.
    RunFinalize { amount_spent: U512, insufficient_payment: bool },
    /// Commit the effects named.
    Commit(DeployEffects),
    /// Stop: the deploy failed.
    Abort(DeployFailure),
}

impl DeployProgress {
    /// A deploy about to run its payment.
    pub fn new(gas_price: u64, max_session_gas: u64) -> (r: DeployProgress)
        ensures
            r.stage == DeployStage::Payment,
            r.gas_price == gas_price,
            r.max_session_gas == max_session_gas,
            r.gas_used == 0,
            !r.session_succeeded,
    {
        DeployProgress {
            stage: DeployStage::Payment,
            gas_price,
            max_session_gas,
            payment_purse_balance: U512::zero(),
            gas_used: 0,
            session_succeeded: false,
        }
    }

    /// The next state, and what to do, once a phase has ended.
    pub fn next(self, event: DeployEvent) -> (r: (DeployProgress, DeployAction))
        ensures
            match (self.stage, event) {
                (DeployStage::Payment, DeployEvent::PaymentFinished { succeeded, cost, purse_balance }) =>
                    if !succeeded {
                        r.0.stage == DeployStage::Finished && r.1 == DeployAction::Abort(DeployFailure::PaymentFailed)
                    } else if !(purse_balance.value() >= self.max_session_gas * self.gas_price) {
                        r.0.stage == DeployStage::Finalize && !r.0.session_succeeded && r.0.gas_used == cost
                            && r.1 == DeployAction::RunFinalize { amount_spent: purse_balance, insufficient_payment: true }
                    } else {
                        r.0.stage == DeployStage::Session && r.0.gas_used == cost && r.0.payment_purse_balance == purse_balance
                            && r.1 == DeployAction::RunSession { gas_limit: session_gas_limit(purse_balance.value(), self.gas_price) }
                    },
                (DeployStage::Session, DeployEvent::SessionFinished { succeeded, cost }) =>
                    r.0.stage == DeployStage::Finalize && r.0.session_succeeded == succeeded
                        && r.0.gas_used == (if self.gas_used + cost > u64::MAX { u64::MAX as int } else { self.gas_used + cost })
                        && (r.1 matches DeployAction::RunFinalize { amount_spent, insufficient_payment }
                            && amount_spent.value() == spent(self.payment_purse_balance.value(), r.0.gas_used, self.gas_price)
                            && !insufficient_payment),
                (DeployStage::Finalize, DeployEvent::FinalizeFinished { succeeded }) =>
                    r.0.stage == DeployStage::Finished && r.1 == (if succeeded {
                        DeployAction::Commit(if self.session_succeeded {
                            DeployEffects::PaymentAndSession
                        } else {
                            DeployEffects::PaymentOnly
                        })
                    } else {
                        DeployAction::Abort(DeployFailure::FinalizeFailed)
                    }),
                _ => r.0 == self && r.1 == DeployAction::Abort(DeployFailure::UnexpectedEvent),
            },
    {
        match (self.stage, event) {
            (DeployStage::Payment, DeployEvent::PaymentFinished { succeeded, cost, purse_balance }) => {
                if !succeeded {
                    (DeployProgress { stage: DeployStage::Finished, ..self }, DeployAction::Abort(DeployFailure::PaymentFailed))
                } else if !payment_sufficient(&purse_balance, self.max_session_gas, self.gas_price) {
                    (
                        DeployProgress {
                            stage: DeployStage::Finalize,
                            payment_purse_balance: purse_balance,
                            gas_used: cost,
                            session_succeeded: false,
                            ..self
                        },
                        DeployAction::RunFinalize { amount_spent: purse_balance, insufficient_payment: true },
                    )
                } else {
                    let gas_limit = session_gas_for(&purse_balance, self.gas_price);
                    (
                        DeployProgress {
                            stage: DeployStage::Session,
                            payment_purse_balance: purse_balance,
                            gas_used: cost,
                            ..self
                        },
                        DeployAction::RunSession { gas_limit },
                    )
                }
            },
            (DeployStage::Session, DeployEvent::SessionFinished { succeeded, cost }) => {
                let gas_used = if cost > u64::MAX - self.gas_used {
                    u64::MAX
                } else {
                    self.gas_used + cost
                };
                let (amount_spent, _) = finalize_amounts(&self.payment_purse_balance, gas_used, self.gas_price);
                (
                    DeployProgress { stage: DeployStage::Finalize, gas_used, session_succeeded: succeeded, ..self },
                    DeployAction::RunFinalize { amount_spent, insufficient_payment: false },
                )
            },
            (DeployStage::Finalize, DeployEvent::FinalizeFinished { succeeded }) => {
                let action = if succeeded {
                    DeployAction::Commit(effects_kept(self.session_succeeded))
                } else {
                    DeployAction::Abort(DeployFailure::FinalizeFailed)
                };
                (DeployProgress { stage: DeployStage::Finished, ..self }, action)
            },
            _ => (self, DeployAction::Abort(DeployFailure::UnexpectedEvent)),
        }
    }
}

} // verus!
