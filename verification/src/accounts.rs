//! What follows the statements that change an account.
use vstd::prelude::*;

verus! {

/// Tells whether a statement changed an account, by the number of rows it changed.
pub fn account_changed(rows: u64) -> (r: bool)
    ensures
        r == (rows > 0),
{
    rows > 0
}

/// How far the activation of the premium plan has come.
#[derive(Clone, Copy, PartialEq, Eq, Structural)]
pub enum Activation {
    /// The account is being upgraded.
    Upgrading,
    /// The payment is being recorded.
    Recording,
    /// It is over; the premium plan is active or there was no such account.
    Finished(bool),
}

/// How the activation goes on when a statement has changed the given number of rows. A payment
/// is recorded only for an account that was upgraded.
pub open spec fn activation_next(stage: Activation, rows: u64) -> Activation {
    match stage {
        Activation::Upgrading => if rows == 0 {
            Activation::Finished(false)
        } else {
            Activation::Recording
        },
        Activation::Recording => Activation::Finished(true),
        Activation::Finished(b) => Activation::Finished(b),
    }
}

impl Activation {
    /// The activation before its first statement.
    pub fn start() -> (r: Activation)
        ensures
            r == Activation::Upgrading,
    {
        Activation::Upgrading
    }

    /// Goes on when the statement of this stage has changed the given number of rows.
    pub fn on_rows(self, rows: u64) -> (r: Activation)
        ensures
            r == activation_next(self, rows),
    {
        match self {
            Activation::Upgrading => if rows == 0 {
                Activation::Finished(false)
            } else {
                Activation::Recording
            },
            Activation::Recording => Activation::Finished(true),
            Activation::Finished(b) => Activation::Finished(b),
        }
    }
}

/// A payment is recorded if and only if an account was upgraded, and that is what the
/// activation reports.
pub proof fn law_payment_recorded_for_upgrade(upgraded: u64, recorded: u64)
    ensures
        activation_next(Activation::Upgrading, upgraded) == Activation::Recording <==> upgraded > 0,
        activation_next(activation_next(Activation::Upgrading, upgraded), recorded)
            == Activation::Finished(upgraded > 0),
{
}

} // verus!
