//! The decisions of the gas pool around a sponsored transaction: which
//! transactions it sponsors, how much gas a transaction used, and what the gas
//! coins hold afterwards.

use vstd::prelude::*;
use crate::base_types::{GasCoin, ObjectRef, SuiAddress};
use crate::gas_usage_cap::GasUsageCap;
use crate::object_locks::{InputObjectKind, ObjectLockManager, Owner};

verus! {

/// An argument of a command of a programmable transaction.
#[derive(Clone, Copy, Debug, PartialEq, Eq, Structural)]
pub enum Argument {
    /// The gas coin of the transaction.
    GasCoin,
    /// An input of the transaction.
    Input(u16),
    /// The result of an earlier command.
    Result(u16),
    /// One of the results of an earlier command.
    NestedResult(u16, u16),
}

/// A command of a programmable transaction, with its arguments.
#[derive(Debug)]
pub enum Command {
    MoveCall { arguments: Vec<Argument> },
    TransferObjects(Vec<Argument>, Argument),
    SplitCoins(Argument, Vec<Argument>),
    MergeCoins(Argument, Vec<Argument>),
    Publish,
    MakeMoveVec(Vec<Argument>),
    Upgrade(Argument),
}

/// Whose address balance a funds withdrawal input draws on.
#[derive(Clone, Copy, Debug, PartialEq, Eq, Structural)]
pub enum WithdrawFrom {
    Sender,
    Sponsor,
}

/// What the gas pool reads of a transaction: who sends it, who pays its gas
/// and with which coins, its first signer, its commands, its input objects,
/// and whose balance each of its funds withdrawal inputs draws on.
pub struct TransactionData {
    pub sender: SuiAddress,
    pub gas_owner: SuiAddress,
    pub gas_payment: Vec<ObjectRef>,
    pub first_signer: SuiAddress,
    pub commands: Vec<Command>,
    pub input_objects: Vec<InputObjectKind>,
    pub funds_withdrawals: Vec<WithdrawFrom>,
}

/// A change of the balance of an owner, from a transaction's response.
#[derive(Clone, Copy, Debug, PartialEq, Eq, Structural)]
pub struct BalanceChange {
    pub owner: Owner,
    pub amount: i128,
}

#[derive(Clone, Copy, Debug, PartialEq, Eq, Structural)]
pub enum GasPoolError {
    /// In faucet mode, the sponsor, the sender and the first signer must be one.
    SignerNotSender,
    /// Outside faucet mode, the sender may not be the sponsor.
    SenderIsSponsor,
    /// The gas coin may only pay for gas.
    GasCoinUsedInCommand,
    /// No input may withdraw funds from the sponsor's address balance.
    SponsorFundsWithdrawal,
    /// In faucet mode, the response carried no balance changes.
    NoBalanceChanges,
    /// In faucet mode, the balance changes add up to more than an `i64` holds.
    NetUsageOverflow,
}

impl GasPoolError {
    /// What the error says.
    pub fn message(&self) -> (r: &'static str)
        ensures
            r@ == match self {
                GasPoolError::SignerNotSender => "Expected that the transaction signer is the same as the sender"@,
                GasPoolError::SenderIsSponsor => "Sender cannot match sponsor"@,
                GasPoolError::GasCoinUsedInCommand => "Gas coin can only be used to pay gas"@,
                GasPoolError::SponsorFundsWithdrawal => "Funds withdrawal from sponsor is not supported"@,
                GasPoolError::NoBalanceChanges => "No balance changes found"@,
                GasPoolError::NetUsageOverflow =>
                    "Failed to convert balance changes sum to i64 when advanced faucet mode is enabled"@,
            },
    {
        match self {
            GasPoolError::SignerNotSender => "Expected that the transaction signer is the same as the sender",
            GasPoolError::SenderIsSponsor => "Sender cannot match sponsor",
            GasPoolError::GasCoinUsedInCommand => "Gas coin can only be used to pay gas",
            GasPoolError::SponsorFundsWithdrawal => "Funds withdrawal from sponsor is not supported",
            GasPoolError::NoBalanceChanges => "No balance changes found",
            GasPoolError::NetUsageOverflow =>
                "Failed to convert balance changes sum to i64 when advanced faucet mode is enabled",
        }
    }
}

/// The arguments of a command that the gas-coin rule looks at: all of them,
/// but for the recipient of a transfer and the amounts of a split.
pub open spec fn command_args(c: Command) -> Seq<Argument> {
    match c {
        Command::MoveCall { arguments } => arguments@,
        Command::TransferObjects(args, _) => args@,
        Command::SplitCoins(arg, _) => seq![arg],
        Command::MergeCoins(arg, args) => seq![arg] + args@,
        Command::Publish => Seq::empty(),
        Command::MakeMoveVec(args) => args@,
        Command::Upgrade(_) => Seq::empty(),
    }
}

/// Some command of `commands` uses the gas coin as an argument.
pub open spec fn uses_gas_coin(commands: Seq<Command>) -> bool {
    exists|i: int, j: int| 0 <= i < commands.len() && 0 <= j < command_args(commands[i]).len()
        && #[trigger] command_args(commands[i])[j] == Argument::GasCoin
}

/// Whether a transaction may be sponsored: in faucet mode the sponsor and the
/// first signer must be the sender; otherwise the sender may not be the
/// sponsor and no command may use the gas coin; in either mode no input may
/// withdraw funds from the sponsor.
pub open spec fn validity(advanced_faucet_mode: bool, tx: TransactionData) -> Result<(), GasPoolError> {
    if advanced_faucet_mode && (tx.gas_owner != tx.sender || tx.first_signer != tx.sender) {
        Err(GasPoolError::SignerNotSender)
    } else if !advanced_faucet_mode && tx.sender == tx.gas_owner {
        Err(GasPoolError::SenderIsSponsor)
    } else if !advanced_faucet_mode && uses_gas_coin(tx.commands@) {
        Err(GasPoolError::GasCoinUsedInCommand)
    } else if tx.funds_withdrawals@.contains(WithdrawFrom::Sponsor) {
        Err(GasPoolError::SponsorFundsWithdrawal)
    } else {
        Ok(())
    }
}

/// Whether a command hands the gas coin to the transaction's logic: as an
/// argument of a Move call, as an object transferred, as the coin split, as
/// either side of a merge, or as an element of a vector made. A transfer's
/// recipient, a split's amounts, a publish and an upgrade are not looked at.
pub open spec fn gives_gas_coin(c: Command) -> bool {
    match c {
        Command::MoveCall { arguments } => arguments@.contains(Argument::GasCoin),
        Command::TransferObjects(objects, _) => objects@.contains(Argument::GasCoin),
        Command::SplitCoins(coin, _) => coin == Argument::GasCoin,
        Command::MergeCoins(target, sources) => target == Argument::GasCoin || sources@.contains(Argument::GasCoin),
        Command::Publish => false,
        Command::MakeMoveVec(elements) => elements@.contains(Argument::GasCoin),
        Command::Upgrade(_) => false,
    }
}

proof fn lemma_command_gives_gas_coin(c: Command)
    ensures
        (exists|j: int| 0 <= j < command_args(c).len() && #[trigger] command_args(c)[j] == Argument::GasCoin)
            <==> gives_gas_coin(c),
{
    match c {
        Command::MergeCoins(target, sources) => {
            let s = command_args(c);
            assert(s[0] == target);
            assert forall|j: int| 0 <= j < sources@.len() implies s[j + 1] == sources@[j] by {}
            if gives_gas_coin(c) {
                if target == Argument::GasCoin {
                    assert(s[0] == Argument::GasCoin);
                } else {
                    let j = choose|j: int| 0 <= j < sources@.len() && sources@[j] == Argument::GasCoin;
                    assert(s[j + 1] == Argument::GasCoin);
                }
            }
            if exists|j: int| 0 <= j < s.len() && #[trigger] s[j] == Argument::GasCoin {
                let j = choose|j: int| 0 <= j < s.len() && #[trigger] s[j] == Argument::GasCoin;
                if j > 0 {
                    assert(sources@[j - 1] == Argument::GasCoin);
                    assert(sources@.contains(Argument::GasCoin));
                }
            }
        },
        Command::SplitCoins(coin, _) => {
            assert(command_args(c)[0] == coin);
        },
        Command::MoveCall { arguments } => {
            if gives_gas_coin(c) {
                let j = choose|j: int| 0 <= j < arguments@.len() && arguments@[j] == Argument::GasCoin;
                assert(command_args(c)[j] == Argument::GasCoin);
            }
        },
        Command::TransferObjects(objects, _) => {
            if gives_gas_coin(c) {
                let j = choose|j: int| 0 <= j < objects@.len() && objects@[j] == Argument::GasCoin;
                assert(command_args(c)[j] == Argument::GasCoin);
            }
        },
        Command::MakeMoveVec(elements) => {
            if gives_gas_coin(c) {
                let j = choose|j: int| 0 <= j < elements@.len() && elements@[j] == Argument::GasCoin;
                assert(command_args(c)[j] == Argument::GasCoin);
            }
        },
        _ => {},
    }
}

/// Which transactions are sponsored. Outside faucet mode: the sender must not
/// be the sponsor, and a transaction with any command that hands the gas coin
/// to its logic (a Move call's argument, an object transferred, the coin
/// split, either side of a merge, an element of a vector) is refused as using
/// the gas coin. In faucet mode the sponsor and the first signer must be the
/// sender, and the gas coin may be used. In either mode a withdrawal from the
/// sponsor's balance is refused. Everything else is sponsored.
pub proof fn law_sponsored_transactions(tx: TransactionData)
    ensures
        tx.sender != tx.gas_owner ==> (validity(false, tx) == Err::<(), GasPoolError>(GasPoolError::GasCoinUsedInCommand)
            <==> exists|i: int| 0 <= i < tx.commands@.len() && #[trigger] gives_gas_coin(tx.commands@[i])),
        validity(false, tx) is Ok <==> {
            &&& tx.sender != tx.gas_owner
            &&& forall|i: int| 0 <= i < tx.commands@.len() ==> !#[trigger] gives_gas_coin(tx.commands@[i])
            &&& forall|k: int| 0 <= k < tx.funds_withdrawals@.len() ==> tx.funds_withdrawals@[k] != WithdrawFrom::Sponsor
        },
        tx.sender == tx.gas_owner ==> validity(false, tx) == Err::<(), GasPoolError>(GasPoolError::SenderIsSponsor),
        validity(true, tx) is Ok <==> {
            &&& tx.gas_owner == tx.sender
            &&& tx.first_signer == tx.sender
            &&& forall|k: int| 0 <= k < tx.funds_withdrawals@.len() ==> tx.funds_withdrawals@[k] != WithdrawFrom::Sponsor
        },
        (tx.gas_owner != tx.sender || tx.first_signer != tx.sender)
            ==> validity(true, tx) == Err::<(), GasPoolError>(GasPoolError::SignerNotSender),
{
    assert forall|i: int| 0 <= i < tx.commands@.len() implies
        ((exists|j: int| 0 <= j < command_args(tx.commands@[i]).len() && #[trigger] command_args(tx.commands@[i])[j] == Argument::GasCoin)
            <==> #[trigger] gives_gas_coin(tx.commands@[i])) by {
        lemma_command_gives_gas_coin(tx.commands@[i]);
    }
    if uses_gas_coin(tx.commands@) {
        let (i, j) = choose|i: int, j: int| 0 <= i < tx.commands@.len() && 0 <= j < command_args(tx.commands@[i]).len()
            && #[trigger] command_args(tx.commands@[i])[j] == Argument::GasCoin;
        assert(gives_gas_coin(tx.commands@[i]));
    }
    if exists|i: int| 0 <= i < tx.commands@.len() && #[trigger] gives_gas_coin(tx.commands@[i]) {
        let i = choose|i: int| 0 <= i < tx.commands@.len() && #[trigger] gives_gas_coin(tx.commands@[i]);
        lemma_command_gives_gas_coin(tx.commands@[i]);
        let j = choose|j: int| 0 <= j < command_args(tx.commands@[i]).len() && #[trigger] command_args(tx.commands@[i])[j] == Argument::GasCoin;
        assert(uses_gas_coin(tx.commands@));
    }
    if tx.funds_withdrawals@.contains(WithdrawFrom::Sponsor) {
        let k = choose|k: int| 0 <= k < tx.funds_withdrawals@.len() && tx.funds_withdrawals@[k] == WithdrawFrom::Sponsor;
    }
    if forall|k: int| 0 <= k < tx.funds_withdrawals@.len() ==> tx.funds_withdrawals@[k] != WithdrawFrom::Sponsor {
        assert(!tx.funds_withdrawals@.contains(WithdrawFrom::Sponsor));
    }
}

/// The sum of the amounts of the changes of `owner`.
pub open spec fn owner_change_sum(changes: Seq<BalanceChange>, owner: Owner) -> int
    decreases changes.len(),
{
    if changes.len() == 0 {
        0
    } else {
        owner_change_sum(changes.drop_last(), owner) + if changes.last().owner == owner {
            changes.last().amount as int
        } else {
            0
        }
    }
}

/// The change of an owner's balance adds up over the response's changes: it
/// is zero for no changes, a single change counts only for its own owner, and
/// the total of two lists is the sum of their totals, in any order.
pub proof fn law_owner_change_sum(a: Seq<BalanceChange>, b: Seq<BalanceChange>, c: BalanceChange, owner: Owner)
    ensures
        owner_change_sum(Seq::empty(), owner) == 0,
        owner_change_sum(seq![c], owner) == if c.owner == owner { c.amount as int } else { 0 },
        owner_change_sum(a + b, owner) == owner_change_sum(a, owner) + owner_change_sum(b, owner),
        owner_change_sum(a + b, owner) == owner_change_sum(b + a, owner),
{
    lemma_owner_change_sum_append(a, b, owner);
    lemma_owner_change_sum_append(b, a, owner);
    assert(seq![c].drop_last() =~= Seq::<BalanceChange>::empty());
}

proof fn lemma_owner_change_sum_append(a: Seq<BalanceChange>, b: Seq<BalanceChange>, owner: Owner)
    ensures
        owner_change_sum(a + b, owner) == owner_change_sum(a, owner) + owner_change_sum(b, owner),
    decreases b.len(),
{
    if b.len() == 0 {
        assert(a + b =~= a);
    } else {
        lemma_owner_change_sum_append(a, b.drop_last(), owner);
        assert((a + b).drop_last() =~= a + b.drop_last());
        assert((a + b).last() == b.last());
    }
}

/// The partial sums of the changes of `owner` all fit in an `i128`.
pub open spec fn partial_sums_fit(changes: Seq<BalanceChange>, owner: Owner) -> bool {
    forall|k: int| 0 <= k <= changes.len() ==>
        i128::MIN <= #[trigger] owner_change_sum(changes.take(k), owner) <= i128::MAX
}

/// The gas a transaction used, net of storage rebates. In faucet mode it is
/// how much the owner of the gas coin gained or lost, from the balance
/// changes; otherwise it is `net_gas_usage`, from the gas cost summary.
pub open spec fn spec_net_usage(
    advanced_faucet_mode: bool,
    net_gas_usage: i64,
    gas_object_owner: Owner,
    balance_changes: Option<Seq<BalanceChange>>,
) -> Result<i64, GasPoolError> {
    if !advanced_faucet_mode {
        Ok(net_gas_usage)
    } else {
        match balance_changes {
            None => Err(GasPoolError::NoBalanceChanges),
            Some(changes) => {
                let s = owner_change_sum(changes, gas_object_owner);
                let a = if s < 0 { -s } else { s };
                if a > i64::MAX {
                    Err(GasPoolError::NetUsageOverflow)
                } else {
                    Ok(a as i64)
                }
            },
        }
    }
}

/// The balance of the gas coin after a transaction: the balance the gas coins
/// held before, read as a signed number, less the net gas used, read back as
/// unsigned.
pub open spec fn spec_balance_after(total_gas_coin_balance: u64, net_usage: i64) -> u64 {
    (((total_gas_coin_balance as i64) - net_usage) as i64) as u64
}

/// The verified part of the gas pool: its mode, its daily gas cap and its
/// object locks.
pub struct GasPool {
    pub advanced_faucet_mode: bool,
    pub gas_usage_cap: GasUsageCap,
    pub object_lock_manager: ObjectLockManager,
}

/// Whether some argument of `args` is the gas coin.
fn any_gas_coin(args: &Vec<Argument>) -> (r: bool)
    ensures
        r == exists|j: int| 0 <= j < args@.len() && #[trigger] args@[j] == Argument::GasCoin,
{
    let mut j: usize = 0;
    while j < args.len()
        invariant
            j <= args@.len(),
            forall|k: int| 0 <= k < j ==> args@[k] != Argument::GasCoin,
        decreases args.len() - j,
    {
        if args[j] == Argument::GasCoin {
            return true;
        }
        j = j + 1;
    }
    false
}

/// Whether the command uses the gas coin, in the arguments the rule looks at.
fn command_uses_gas_coin(c: &Command) -> (r: bool)
    ensures
        r == exists|j: int| 0 <= j < command_args(*c).len() && #[trigger] command_args(*c)[j] == Argument::GasCoin,
{
    match c {
        Command::MoveCall { arguments } => any_gas_coin(arguments),
        Command::TransferObjects(args, _) => any_gas_coin(args),
        Command::SplitCoins(arg, _) => {
            proof {
                assert(command_args(*c)[0] == *arg);
            }
            *arg == Argument::GasCoin
        },
        Command::MergeCoins(arg, args) => {
            let first = *arg == Argument::GasCoin;
            let rest = any_gas_coin(args);
            proof {
                let s = command_args(*c);
                assert(s[0] == *arg);
                assert forall|j: int| 0 <= j < args@.len() implies s[j + 1] == args@[j] by {}
                if rest {
                    let j = choose|j: int| 0 <= j < args@.len() && #[trigger] args@[j] == Argument::GasCoin;
                    assert(s[j + 1] == Argument::GasCoin);
                }
                if exists|j: int| 0 <= j < s.len() && #[trigger] s[j] == Argument::GasCoin {
                    let j = choose|j: int| 0 <= j < s.len() && #[trigger] s[j] == Argument::GasCoin;
                    if j > 0 {
                        assert(args@[j - 1] == Argument::GasCoin);
                    }
                }
            }
            first || rest
        },
        Command::Publish => false,
        Command::MakeMoveVec(args) => any_gas_coin(args),
        Command::Upgrade(_) => false,
    }
}

impl GasPool {
    /// A pool in the given mode, with a daily cap of `gas_usage_daily_cap`
    /// starting from nothing used today, and no object locked.
    pub fn new(gas_usage_daily_cap: u64, advanced_faucet_mode: bool) -> (r: Self)
        ensures
            r.advanced_faucet_mode == advanced_faucet_mode,
            r.gas_usage_cap@.daily_cap == gas_usage_daily_cap,
            r.gas_usage_cap@.cur_daily_usage == 0,
            r.object_lock_manager.wf(),
            r.object_lock_manager@.locked == Set::<crate::base_types::ObjectID>::empty(),
    {
        GasPool {
            advanced_faucet_mode,
            gas_usage_cap: GasUsageCap::new(gas_usage_daily_cap),
            object_lock_manager: ObjectLockManager::new(),
        }
    }

    /// Whether the pool sponsors the transaction: in faucet mode the sponsor
    /// and the first signer must be the sender; otherwise the sender may not be
    /// the sponsor and no command may use the gas coin; in either mode no input
    /// may withdraw funds from the sponsor.
    pub fn check_transaction_validity(&self, tx_data: &TransactionData) -> (r: Result<(), GasPoolError>)
        ensures
            r == validity(self.advanced_faucet_mode, *tx_data),
    {
        if self.advanced_faucet_mode && (tx_data.gas_owner != tx_data.sender || tx_data.first_signer != tx_data.sender) {
            return Err(GasPoolError::SignerNotSender);
        }
        if !self.advanced_faucet_mode && tx_data.sender == tx_data.gas_owner {
            return Err(GasPoolError::SenderIsSponsor);
        }
        if !self.advanced_faucet_mode {
            let mut i: usize = 0;
            while i < tx_data.commands.len()
                invariant
                    i <= tx_data.commands@.len(),
                    !self.advanced_faucet_mode,
                    tx_data.sender != tx_data.gas_owner,
                    forall|k: int, j: int| 0 <= k < i && 0 <= j < command_args(tx_data.commands@[k]).len()
                        ==> #[trigger] command_args(tx_data.commands@[k])[j] != Argument::GasCoin,
                decreases tx_data.commands.len() - i,
            {
                if command_uses_gas_coin(&tx_data.commands[i]) {
                    proof {
                        let c = tx_data.commands@[i as int];
                        let j = choose|j: int| 0 <= j < command_args(c).len() && #[trigger] command_args(c)[j] == Argument::GasCoin;
                        assert(command_args(tx_data.commands@[i as int])[j] == Argument::GasCoin);
                    }
                    return Err(GasPoolError::GasCoinUsedInCommand);
                }
                i = i + 1;
            }
        }
        proof {
            if !self.advanced_faucet_mode && uses_gas_coin(tx_data.commands@) {
                let (i, j) = choose|i: int, j: int| 0 <= i < tx_data.commands@.len() && 0 <= j < command_args(tx_data.commands@[i]).len()
                    && #[trigger] command_args(tx_data.commands@[i])[j] == Argument::GasCoin;
                assert(command_args(tx_data.commands@[i])[j] != Argument::GasCoin);
            }
        }
        let mut k: usize = 0;
        while k < tx_data.funds_withdrawals.len()
            invariant
                k <= tx_data.funds_withdrawals@.len(),
                !(self.advanced_faucet_mode && (tx_data.gas_owner != tx_data.sender || tx_data.first_signer != tx_data.sender)),
                !self.advanced_faucet_mode ==> tx_data.sender != tx_data.gas_owner && !uses_gas_coin(tx_data.commands@),
                forall|m: int| 0 <= m < k ==> tx_data.funds_withdrawals@[m] != WithdrawFrom::Sponsor,
            decreases tx_data.funds_withdrawals.len() - k,
        {
            if tx_data.funds_withdrawals[k] == WithdrawFrom::Sponsor {
                proof {
                    assert(tx_data.funds_withdrawals@[k as int] == WithdrawFrom::Sponsor);
                }
                return Err(GasPoolError::SponsorFundsWithdrawal);
            }
            k = k + 1;
        }
        Ok(())
    }

    /// The gas a transaction used, net of storage rebates. In faucet mode it is
    /// the size of the change of the balance of the gas coin's owner, from
    /// `balance_changes`; otherwise it is `net_gas_usage`, from the effects'
    /// gas cost summary.
    pub fn net_usage(
        &self,
        net_gas_usage: i64,
        gas_object_owner: Owner,
        balance_changes: Option<&Vec<BalanceChange>>,
    ) -> (r: Result<i64, GasPoolError>)
        requires
            balance_changes matches Some(changes) ==> partial_sums_fit(changes@, gas_object_owner)
                && owner_change_sum(changes@, gas_object_owner) != i128::MIN,
        ensures
            r == spec_net_usage(self.advanced_faucet_mode, net_gas_usage, gas_object_owner,
                match balance_changes { Some(c) => Some(c@), None => None }),
    {
        if !self.advanced_faucet_mode {
            return Ok(net_gas_usage);
        }
        match balance_changes {
            None => Err(GasPoolError::NoBalanceChanges),
            Some(changes) => {
                let mut sum: i128 = 0;
                let mut i: usize = 0;
                while i < changes.len()
                    invariant
                        i <= changes@.len(),
                        partial_sums_fit(changes@, gas_object_owner),
                        sum == owner_change_sum(changes@.take(i as int), gas_object_owner),
                    decreases changes.len() - i,
                {
                    proof {
                        assert(changes@.take(i as int + 1).drop_last() =~= changes@.take(i as int));
                        assert(changes@.take(i as int + 1).last() == changes@[i as int]);
                        assert(i128::MIN <= owner_change_sum(changes@.take(i as int + 1), gas_object_owner) <= i128::MAX);
                    }
                    if changes[i].owner == gas_object_owner {
                        sum = sum + changes[i].amount;
                    }
                    i = i + 1;
                }
                proof {
                    assert(changes@.take(i as int) =~= changes@);
                }
                let a: i128 = if sum < 0 { -sum } else { sum };
                if a > i64::MAX as i128 {
                    Err(GasPoolError::NetUsageOverflow)
                } else {
                    Ok(a as i64)
                }
            },
        }
    }

    /// The gas coin after a transaction that used `net_usage`: the coin
    /// `new_gas_coin`, holding what the gas coins held before less the gas
    /// used.
    pub fn coin_after_tx(&self, total_gas_coin_balance: u64, net_usage: i64, new_gas_coin: ObjectRef) -> (r: GasCoin)
        requires
            i64::MIN <= (total_gas_coin_balance as i64) - net_usage <= i64::MAX,
        ensures
            r.object_ref == new_gas_coin,
            r.balance == spec_balance_after(total_gas_coin_balance, net_usage),
    {
        let signed: i64 = total_gas_coin_balance as i64 - net_usage;
        GasCoin { object_ref: new_gas_coin, balance: signed as u64 }
    }
}

} // verus!
