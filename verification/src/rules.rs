//! The rules that a transaction is held to before it is handed to the
//! deferred pool. They have nothing to do with readiness.
use crate::u256::decimal;
use crate::u256::U256;
use vstd::prelude::*;

verus! {

pub const DEFAULT_MIN_TRANSACTION_GAS_PRICE: u64 = 1;

pub const DEFAULT_MAX_TRANSACTION_GAS_LIMIT: u64 = 100_000_000;

pub const DEFAULT_MAX_BLOCK_GAS_LIMIT: u64 = 30_000 * 100_000;

/// A result with its error as a sequence of characters.
pub open spec fn text(r: Result<(), String>) -> Result<(), Seq<char>> {
    match r {
        Ok(()) => Ok(()),
        Err(e) => Err(e@),
    }
}

pub open spec fn gas_too_high(gas: nat) -> Seq<char> {
    "transaction gas "@ + decimal(gas) + " exceeds the maximum value "@ + decimal(
        DEFAULT_MAX_TRANSACTION_GAS_LIMIT as nat,
    )
}

pub open spec fn gas_below_intrinsic(gas: nat, intrinsic_gas: nat) -> Seq<char> {
    "transaction gas "@ + decimal(gas) + " less than intrinsic gas "@ + decimal(intrinsic_gas)
}

pub open spec fn gas_price_too_low(gas_price: nat) -> Seq<char> {
    "transaction gas price "@ + decimal(gas_price) + " less than the minimum value "@ + decimal(
        DEFAULT_MIN_TRANSACTION_GAS_PRICE as nat,
    )
}

/// Why a transaction that offers `gas` at `gas_price` is refused, as far as is
/// known: `intrinsic_gas` is what running it takes at the least, once that has
/// been worked out. The first rule that it breaks decides. The intrinsic gas is
/// compared as a machine word and printed in full.
pub open spec fn refusal(gas: nat, gas_price: nat, intrinsic_gas: Option<u64>) -> Option<
    Seq<char>,
> {
    if gas > DEFAULT_MAX_TRANSACTION_GAS_LIMIT {
        Some(gas_too_high(gas))
    } else {
        match intrinsic_gas {
            None => None,
            Some(needed) => if gas < (needed as usize) {
                Some(gas_below_intrinsic(gas, needed as nat))
            } else if gas_price < DEFAULT_MIN_TRANSACTION_GAS_PRICE {
                Some(gas_price_too_low(gas_price))
            } else {
                None
            },
        }
    }
}

/// What a transaction that offers `gas` at `gas_price` is answered, if running
/// it takes `intrinsic_gas` at the least and the checks on its form ended in
/// `basic`. The first rule that it breaks decides.
pub open spec fn verdict(
    gas: nat,
    gas_price: nat,
    intrinsic_gas: u64,
    basic: Result<(), Seq<char>>,
) -> Result<(), Seq<char>> {
    match refusal(gas, gas_price, Some(intrinsic_gas)) {
        Some(e) => Err(e),
        None => basic,
    }
}

/// How it goes on with a transaction that is being verified.
#[derive(Debug)]
pub enum NextCheck {
    /// It breaks a rule.
    Refused(String),
    /// The gas that it takes at the least has to be worked out.
    IntrinsicGas,
    /// Its form has to be checked.
    Form,
}

/// A transaction is let through if and only if it breaks no rule: its gas is at
/// most the limit and at least what it takes, its gas price is not below the
/// minimum, and its form is sound.
pub proof fn verdict_is_ok_if_no_rule_is_broken(
    gas: nat,
    gas_price: nat,
    intrinsic_gas: u64,
    basic: Result<(), Seq<char>>,
)
    ensures
        verdict(gas, gas_price, intrinsic_gas, basic) is Ok <==> {
            &&& (intrinsic_gas as usize) <= gas <= DEFAULT_MAX_TRANSACTION_GAS_LIMIT
            &&& DEFAULT_MIN_TRANSACTION_GAS_PRICE <= gas_price
            &&& basic is Ok
        },
{
}

/// What a transaction is answered, rule by rule: gas over the limit comes first,
/// then gas below what it takes, then too low a gas price, and then what the
/// checks on its form gave. The words name the numbers that were compared.
pub proof fn the_first_broken_rule_is_named(
    gas: nat,
    gas_price: nat,
    intrinsic_gas: u64,
    basic: Result<(), Seq<char>>,
)
    ensures
        100_000_000 < gas ==> verdict(gas, gas_price, intrinsic_gas, basic) == Err::<(), _>(
            "transaction gas "@ + decimal(gas) + " exceeds the maximum value "@ + decimal(
                100_000_000,
            ),
        ),
        gas <= 100_000_000 && gas < (intrinsic_gas as usize) ==> verdict(
            gas,
            gas_price,
            intrinsic_gas,
            basic,
        ) == Err::<(), _>(
            "transaction gas "@ + decimal(gas) + " less than intrinsic gas "@ + decimal(
                intrinsic_gas as nat,
            ),
        ),
        (intrinsic_gas as usize) <= gas <= 100_000_000 && gas_price < 1 ==> verdict(
            gas,
            gas_price,
            intrinsic_gas,
            basic,
        ) == Err::<(), _>(
            "transaction gas price "@ + decimal(gas_price) + " less than the minimum value "@
                + decimal(1),
        ),
        (intrinsic_gas as usize) <= gas <= 100_000_000 && 1 <= gas_price ==> verdict(
            gas,
            gas_price,
            intrinsic_gas,
            basic,
        ) == basic,
{
}

/// Before its intrinsic gas is known, a transaction is refused if and only if
/// it offers gas over the limit. What is found out later takes no refusal back:
/// the transaction is answered the same then, whatever its form.
pub proof fn a_refusal_stands(
    gas: nat,
    gas_price: nat,
    intrinsic_gas: u64,
    basic: Result<(), Seq<char>>,
)
    ensures
        refusal(gas, gas_price, None) is Some <==> 100_000_000 < gas,
        refusal(gas, gas_price, None) is Some ==> refusal(gas, gas_price, Some(intrinsic_gas))
            == refusal(gas, gas_price, None),
        refusal(gas, gas_price, Some(intrinsic_gas)) is Some <==> 100_000_000 < gas || gas < (
        intrinsic_gas as usize) || gas_price < 1,
        refusal(gas, gas_price, Some(intrinsic_gas)) is Some ==> verdict(
            gas,
            gas_price,
            intrinsic_gas,
            basic,
        ) == Err::<(), _>(refusal(gas, gas_price, Some(intrinsic_gas))->0),
{
}

/// A result keeps whether it is an error, and the words of its error.
pub proof fn a_text_keeps_the_words(r: Result<(), String>)
    ensures
        text(r) is Ok <==> r is Ok,
        r is Err ==> text(r)->Err_0 == r->Err_0@,
{
}

/// `head`, `first`, `middle` and `second` in a row, the numbers in decimal.
fn two_numbers(head: &str, first: &U256, middle: &str, second: u64) -> (r: String)
    ensures
        r@ == head@ + decimal(first@) + middle@ + decimal(second as nat),
{
    let mut out = head.to_owned();
    out.append(first.to_decimal().as_str());
    out.append(middle);
    out.append(U256::from_u64(second).to_decimal().as_str());
    out
}

/// Holds a transaction to the rules that can be judged by what is known, and
/// tells what has to be found out next.
pub(crate) fn next_check(gas: &U256, gas_price: &U256, intrinsic_gas: Option<u64>) -> (r: NextCheck)
    ensures
        match r {
            NextCheck::Refused(e) => refusal(gas@, gas_price@, intrinsic_gas) == Some(e@),
            NextCheck::IntrinsicGas => refusal(gas@, gas_price@, intrinsic_gas) is None
                && intrinsic_gas is None,
            NextCheck::Form => refusal(gas@, gas_price@, intrinsic_gas) is None
                && intrinsic_gas is Some,
        },
{
    if U256::from_u64(DEFAULT_MAX_TRANSACTION_GAS_LIMIT).less_than(gas) {
        return NextCheck::Refused(
            two_numbers(
                "transaction gas ",
                gas,
                " exceeds the maximum value ",
                DEFAULT_MAX_TRANSACTION_GAS_LIMIT,
            ),
        );
    }
    let needed: u64 = match intrinsic_gas {
        Some(needed) => needed,
        None => {
            return NextCheck::IntrinsicGas;
        },
    };
    if gas.less_than(&U256::from_usize(#[verifier::truncate] (needed as usize))) {
        return NextCheck::Refused(
            two_numbers("transaction gas ", gas, " less than intrinsic gas ", needed),
        );
    }
    if gas_price.less_than(&U256::from_u64(DEFAULT_MIN_TRANSACTION_GAS_PRICE)) {
        return NextCheck::Refused(
            two_numbers(
                "transaction gas price ",
                gas_price,
                " less than the minimum value ",
                DEFAULT_MIN_TRANSACTION_GAS_PRICE,
            ),
        );
    }
    NextCheck::Form
}

} // verus!
