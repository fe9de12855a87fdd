//! The fungible credit ledger: balances per principal and delegated
//! allowances per owner-and-spender pair.
//!
//! One divisible token is modeled; a minted unit stands for one ton of CO2e.
//! Balances and allowances never go negative, mutation demands proof of
//! control of the acting principal, and every successful operation appends
//! its event to the in-state log.

use vstd::prelude::*;
use crate::auth::AuthContext;
use crate::auth::Principal;

verus! {

/// Failures of the fungible ledger.
#[derive(Copy, Clone, Debug, Eq, PartialEq)]
pub enum TokenError {
    /// The ledger has no admin yet, or was asked to initialize twice.
    NotInitialized,
    /// The acting principal has not proven control, or is not the admin.
    Unauthorized,
    /// The debited principal holds less than the amount.
    InsufficientBalance,
    /// The amount is outside the range the operation accepts.
    InvalidAmount,
    /// The spender's remaining allowance is less than the amount.
    InsufficientAllowance,
}

/// Emitted by a successful mint.
#[derive(Clone, Copy, Debug, PartialEq, Eq, Structural)]
pub struct MintEvent {
    pub to: Principal,
    pub amount: i128,
}

/// Emitted by a successful direct or delegated transfer.
#[derive(Clone, Copy, Debug, PartialEq, Eq, Structural)]
pub struct TransferEvent {
    pub from: Principal,
    pub to: Principal,
    pub amount: i128,
}

/// Emitted by a successful approval.
#[derive(Clone, Copy, Debug, PartialEq, Eq, Structural)]
pub struct ApprovalEvent {
    pub owner: Principal,
    pub spender: Principal,
    pub amount: i128,
}

/// One entry of the ledger's event log.
#[derive(Clone, Copy, Debug, PartialEq, Eq, Structural)]
pub enum TokenEvent {
    Mint(MintEvent),
    Transfer(TransferEvent),
    Approval(ApprovalEvent),
}

/// A stored balance.
#[derive(Clone, Copy, Debug)]
struct BalanceEntry {
    principal: Principal,
    amount: i128,
}

/// A stored allowance of `spender` over `owner`'s balance.
#[derive(Clone, Copy, Debug)]
struct AllowanceEntry {
    owner: Principal,
    spender: Principal,
    amount: i128,
}

spec fn bal_unique(s: Seq<BalanceEntry>) -> bool {
    forall|i: int, j: int| 0 <= i < j < s.len() ==> s[i].principal != s[j].principal
}

spec fn bal_nonneg(s: Seq<BalanceEntry>) -> bool {
    forall|i: int| 0 <= i < s.len() ==> s[i].amount >= 0
}

spec fn bal_has(s: Seq<BalanceEntry>, p: Principal) -> bool {
    exists|i: int| 0 <= i < s.len() && s[i].principal == p
}

spec fn bal_value(s: Seq<BalanceEntry>, p: Principal) -> int {
    if bal_has(s, p) {
        s[choose|i: int| 0 <= i < s.len() && s[i].principal == p].amount as int
    } else {
        0
    }
}

proof fn lemma_bal_value_at(s: Seq<BalanceEntry>, p: Principal, i: int)
    requires
        bal_unique(s),
        0 <= i < s.len(),
        s[i].principal == p,
    ensures
        bal_has(s, p),
        bal_value(s, p) == s[i].amount as int,
{
    assert(bal_has(s, p)) by {
        assert(s[i].principal == p);
    }
}

/// The amounts summed over a run of balance entries.
spec fn bal_total(s: Seq<BalanceEntry>) -> int
    decreases s.len(),
{
    if s.len() == 0 {
        0
    } else {
        bal_total(s.drop_last()) + s.last().amount
    }
}

/// The amounts summed over the mint events of a log.
spec fn mint_total(es: Seq<TokenEvent>) -> int
    decreases es.len(),
{
    if es.len() == 0 {
        0
    } else {
        mint_total(es.drop_last()) + match es.last() {
            TokenEvent::Mint(m) => m.amount as int,
            _ => 0,
        }
    }
}

proof fn lemma_bal_total_push(s: Seq<BalanceEntry>, e: BalanceEntry)
    ensures
        bal_total(s.push(e)) == bal_total(s) + e.amount,
{
    assert(s.push(e).drop_last() =~= s);
    assert(s.push(e).last() == e);
    assert(s.push(e).len() != 0);
}

proof fn lemma_bal_total_update(s: Seq<BalanceEntry>, i: int, e: BalanceEntry)
    requires
        0 <= i < s.len(),
    ensures
        bal_total(s.update(i, e)) == bal_total(s) - s[i].amount + e.amount,
    decreases s.len(),
{
    let t = s.update(i, e);
    if i == s.len() - 1 {
        assert(t.drop_last() =~= s.drop_last());
        assert(t.last() == e);
    } else {
        assert(t.drop_last() =~= s.drop_last().update(i, e));
        assert(t.last() == s.last());
        lemma_bal_total_update(s.drop_last(), i, e);
    }
}

proof fn lemma_mint_total_push(es: Seq<TokenEvent>, ev: TokenEvent)
    ensures
        mint_total(es.push(ev)) == mint_total(es) + match ev {
            TokenEvent::Mint(m) => m.amount as int,
            _ => 0,
        },
{
    assert(es.push(ev).drop_last() =~= es);
    assert(es.push(ev).last() == ev);
    assert(es.push(ev).len() != 0);
}

spec fn allow_unique(s: Seq<AllowanceEntry>) -> bool {
    forall|i: int, j: int|
        0 <= i < j < s.len() ==> !(s[i].owner == s[j].owner && s[i].spender == s[j].spender)
}

spec fn allow_nonneg(s: Seq<AllowanceEntry>) -> bool {
    forall|i: int| 0 <= i < s.len() ==> s[i].amount >= 0
}

spec fn allow_has(s: Seq<AllowanceEntry>, o: Principal, sp: Principal) -> bool {
    exists|i: int| 0 <= i < s.len() && s[i].owner == o && s[i].spender == sp
}

spec fn allow_value(s: Seq<AllowanceEntry>, o: Principal, sp: Principal) -> int {
    if allow_has(s, o, sp) {
        s[choose|i: int| 0 <= i < s.len() && s[i].owner == o && s[i].spender == sp].amount as int
    } else {
        0
    }
}

proof fn lemma_allow_value_at(s: Seq<AllowanceEntry>, o: Principal, sp: Principal, i: int)
    requires
        allow_unique(s),
        0 <= i < s.len(),
        s[i].owner == o,
        s[i].spender == sp,
    ensures
        allow_has(s, o, sp),
        allow_value(s, o, sp) == s[i].amount as int,
{
    assert(allow_has(s, o, sp)) by {
        assert(s[i].owner == o && s[i].spender == sp);
    }
}

/// The fungible ledger's whole state.
pub struct CarbonToken {
    admin: Option<Principal>,
    balances: Vec<BalanceEntry>,
    allowances: Vec<AllowanceEntry>,
    events: Vec<TokenEvent>,
}

impl CarbonToken {
    /// The admin, once `initialize` has set one.
    pub closed spec fn admin_of(self) -> Option<Principal> {
        self.admin
    }

    /// The balance of `p`; zero when no entry exists.
    pub closed spec fn balance_of(self, p: Principal) -> int {
        bal_value(self.balances@, p)
    }

    /// The allowance `spender` may still spend of `owner`'s balance; zero
    /// when no entry exists.
    pub closed spec fn allowance_of(self, owner: Principal, spender: Principal) -> int {
        allow_value(self.allowances@, owner, spender)
    }

    /// The events emitted so far, oldest first.
    pub closed spec fn events_log(self) -> Seq<TokenEvent> {
        self.events@
    }

    /// Whether the stored admin exists and has proven control.
    pub open spec fn admin_authorized(self, auth: AuthContext) -> bool {
        match self.admin_of() {
            Some(a) => auth.authorizes(a),
            None => false,
        }
    }

    /// Well-formedness: one entry per key, balances and allowances never
    /// negative, and the balances summing to exactly what was ever minted.
    pub closed spec fn wf(self) -> bool {
        &&& bal_unique(self.balances@)
        &&& bal_nonneg(self.balances@)
        &&& allow_unique(self.allowances@)
        &&& allow_nonneg(self.allowances@)
        &&& bal_total(self.balances@) == mint_total(self.events@)
    }

    /// The sum of all balances.
    pub closed spec fn balance_total(self) -> int {
        bal_total(self.balances@)
    }

    /// The sum of the amounts of all mint events in the log.
    pub closed spec fn minted_total(self) -> int {
        mint_total(self.events@)
    }

    /// A fresh, uninitialized ledger with no entries.
    pub fn new() -> (t: CarbonToken)
        ensures
            t.wf(),
            t.admin_of() is None,
            forall|p: Principal| #[trigger] t.balance_of(p) == 0,
            forall|o: Principal, s: Principal| #[trigger] t.allowance_of(o, s) == 0,
            t.events_log() == Seq::<TokenEvent>::empty(),
    {
        CarbonToken {
            admin: None,
            balances: Vec::new(),
            allowances: Vec::new(),
            events: Vec::new(),
        }
    }

    /// Stores the admin; fails when one is already stored.
    pub fn initialize(&mut self, admin: Principal) -> (r: Result<(), TokenError>)
        requires
            old(self).wf(),
        ensures
            final(self).wf(),
            r == Ok::<(), TokenError>(()) <==> old(self).admin_of() is None,
            r is Err ==> r == Err::<(), TokenError>(TokenError::NotInitialized)
                && *final(self) == *old(self),
            r is Ok ==> final(self).admin_of() == Some(admin),
            final(self).events_log() == old(self).events_log(),
            forall|p: Principal|
                #[trigger] final(self).balance_of(p) == old(self).balance_of(p),
            forall|o: Principal, s: Principal|
                #[trigger] final(self).allowance_of(o, s) == old(self).allowance_of(o, s),
    {
        if self.admin.is_some() {
            return Err(TokenError::NotInitialized);
        }
        self.admin = Some(admin);
        Ok(())
    }

    /// Reads the balance of `id`; zero when no entry exists.
    pub fn balance(&self, id: Principal) -> (r: i128)
        requires
            self.wf(),
        ensures
            r as int == self.balance_of(id),
            r >= 0,
    {
        Self::read_balance(&self.balances, id)
    }

    /// Reads a balance out of the raw entries.
    fn read_balance(bals: &Vec<BalanceEntry>, p: Principal) -> (r: i128)
        requires
            bal_unique(bals@),
            bal_nonneg(bals@),
        ensures
            r as int == bal_value(bals@, p),
            r >= 0,
    {
        match Self::find_balance(bals, p) {
            Some(i) => {
                let e = bals[i];
                proof {
                    lemma_bal_value_at(bals@, p, i as int);
                }
                e.amount
            },
            None => 0,
        }
    }

    /// Reads the allowance of `spender` over `from`'s balance.
    pub fn allowance(&self, from: Principal, spender: Principal) -> (r: i128)
        requires
            self.wf(),
        ensures
            r as int == self.allowance_of(from, spender),
            r >= 0,
    {
        match Self::find_allowance(&self.allowances, from, spender) {
            Some(i) => {
                let e = self.allowances[i];
                proof {
                    lemma_allow_value_at(self.allowances@, from, spender, i as int);
                }
                e.amount
            },
            None => 0,
        }
    }

    /// Mints `amount` new units onto `to`'s balance.  Demands proof of
    /// control of the stored admin; a ledger without an admin is not
    /// initialized, and a non-positive amount is invalid.
    pub fn mint(&mut self, auth: &AuthContext, to: Principal, amount: i128) -> (r: Result<
        (),
        TokenError,
    >)
        requires
            old(self).wf(),
            old(self).admin_authorized(*auth) && amount > 0 ==> old(self).balance_of(to) + amount
                <= i128::MAX,
        ensures
            final(self).wf(),
            r == Ok::<(), TokenError>(()) <==> old(self).admin_authorized(*auth) && amount > 0,
            r == Err::<(), TokenError>(TokenError::NotInitialized) <==> old(self).admin_of()
                is None,
            r == Err::<(), TokenError>(TokenError::Unauthorized) <==> (old(self).admin_of()
                is Some && !old(self).admin_authorized(*auth)),
            r == Err::<(), TokenError>(TokenError::InvalidAmount) <==> (old(
                self,
            ).admin_authorized(*auth) && amount <= 0),
            r is Err ==> *final(self) == *old(self),
            r is Ok ==> final(self).balance_of(to) == old(self).balance_of(to) + amount,
            r is Ok ==> forall|p: Principal|
                p != to ==> #[trigger] final(self).balance_of(p) == old(self).balance_of(p),
            r is Ok ==> forall|o: Principal, s: Principal|
                #[trigger] final(self).allowance_of(o, s) == old(self).allowance_of(o, s),
            r is Ok ==> final(self).admin_of() == old(self).admin_of(),
            r is Ok ==> final(self).events_log() == old(self).events_log().push(
                TokenEvent::Mint(MintEvent { to, amount }),
            ),
    {
        let admin = match self.admin {
            Some(a) => a,
            None => {
                return Err(TokenError::NotInitialized);
            },
        };
        if !auth.allows(admin) {
            return Err(TokenError::Unauthorized);
        }
        if amount <= 0 {
            return Err(TokenError::InvalidAmount);
        }
        let current = self.balance(to);
        let updated = current + amount;
        Self::write_balance(&mut self.balances, to, updated);
        let ghost log = self.events@;
        self.events.push(TokenEvent::Mint(MintEvent { to, amount }));
        proof {
            lemma_mint_total_push(log, TokenEvent::Mint(MintEvent { to, amount }));
        }
        Ok(())
    }

    /// Moves `amount` from `from` to `to`.  Demands proof of control of
    /// `from`; a non-positive amount is invalid, and `from` must hold at
    /// least `amount`.
    pub fn transfer(&mut self, auth: &AuthContext, from: Principal, to: Principal, amount: i128)
        -> (r: Result<(), TokenError>)
        requires
            old(self).wf(),
            auth.authorizes(from) && amount > 0 && old(self).balance_of(from) >= amount && from
                != to ==> old(self).balance_of(to) + amount <= i128::MAX,
        ensures
            final(self).wf(),
            r == Ok::<(), TokenError>(()) <==> auth.authorizes(from) && amount > 0 && old(
                self,
            ).balance_of(from) >= amount,
            r == Err::<(), TokenError>(TokenError::Unauthorized) <==> !auth.authorizes(from),
            r == Err::<(), TokenError>(TokenError::InvalidAmount) <==> (auth.authorizes(from)
                && amount <= 0),
            r == Err::<(), TokenError>(TokenError::InsufficientBalance) <==> (auth.authorizes(
                from,
            ) && amount > 0 && old(self).balance_of(from) < amount),
            r is Err ==> *final(self) == *old(self),
            r is Ok && from != to ==> final(self).balance_of(from) == old(self).balance_of(from)
                - amount && final(self).balance_of(to) == old(self).balance_of(to) + amount,
            r is Ok && from == to ==> final(self).balance_of(from) == old(self).balance_of(from),
            r is Ok ==> forall|p: Principal|
                p != from && p != to ==> #[trigger] final(self).balance_of(p) == old(
                    self,
                ).balance_of(p),
            r is Ok ==> forall|o: Principal, s: Principal|
                #[trigger] final(self).allowance_of(o, s) == old(self).allowance_of(o, s),
            r is Ok ==> final(self).admin_of() == old(self).admin_of(),
            r is Ok ==> final(self).events_log() == old(self).events_log().push(
                TokenEvent::Transfer(TransferEvent { from, to, amount }),
            ),
    {
        if !auth.allows(from) {
            return Err(TokenError::Unauthorized);
        }
        if amount <= 0 {
            return Err(TokenError::InvalidAmount);
        }
        let from_balance = self.balance(from);
        if from_balance < amount {
            return Err(TokenError::InsufficientBalance);
        }
        Self::write_balance(&mut self.balances, from, from_balance - amount);
        let to_balance = Self::read_balance(&self.balances, to);
        Self::write_balance(&mut self.balances, to, to_balance + amount);
        let ghost log = self.events@;
        self.events.push(TokenEvent::Transfer(TransferEvent { from, to, amount }));
        proof {
            lemma_mint_total_push(log, TokenEvent::Transfer(TransferEvent { from, to, amount }));
        }
        Ok(())
    }

    /// Overwrites the allowance of `spender` over `from`'s balance.  Demands
    /// proof of control of `from`; a negative amount is invalid, zero is a
    /// valid revocation.
    pub fn approve(&mut self, auth: &AuthContext, from: Principal, spender: Principal,
        amount: i128) -> (r: Result<(), TokenError>)
        requires
            old(self).wf(),
        ensures
            final(self).wf(),
            r == Ok::<(), TokenError>(()) <==> auth.authorizes(from) && amount >= 0,
            r == Err::<(), TokenError>(TokenError::Unauthorized) <==> !auth.authorizes(from),
            r == Err::<(), TokenError>(TokenError::InvalidAmount) <==> (auth.authorizes(from)
                && amount < 0),
            r is Err ==> *final(self) == *old(self),
            r is Ok ==> final(self).allowance_of(from, spender) == amount,
            r is Ok ==> forall|o: Principal, s: Principal|
                !(o == from && s == spender) ==> #[trigger] final(self).allowance_of(o, s) == old(
                    self,
                ).allowance_of(o, s),
            r is Ok ==> forall|p: Principal|
                #[trigger] final(self).balance_of(p) == old(self).balance_of(p),
            r is Ok ==> final(self).admin_of() == old(self).admin_of(),
            r is Ok ==> final(self).events_log() == old(self).events_log().push(
                TokenEvent::Approval(ApprovalEvent { owner: from, spender, amount }),
            ),
    {
        if !auth.allows(from) {
            return Err(TokenError::Unauthorized);
        }
        if amount < 0 {
            return Err(TokenError::InvalidAmount);
        }
        Self::write_allowance(&mut self.allowances, from, spender, amount);
        let ghost log = self.events@;
        self.events.push(TokenEvent::Approval(ApprovalEvent { owner: from, spender, amount }));
        proof {
            lemma_mint_total_push(
                log,
                TokenEvent::Approval(ApprovalEvent { owner: from, spender, amount }),
            );
        }
        Ok(())
    }

    /// Moves `amount` from `from` to `to` on behalf of `from`, spending the
    /// allowance `from` granted `spender`.  Demands proof of control of
    /// `spender`; the allowance is decremented by exactly `amount`.
    pub fn transfer_from(&mut self, auth: &AuthContext, spender: Principal, from: Principal,
        to: Principal, amount: i128) -> (r: Result<(), TokenError>)
        requires
            old(self).wf(),
            auth.authorizes(spender) && amount > 0 && old(self).balance_of(from) >= amount && old(
                self,
            ).allowance_of(from, spender) >= amount && from != to ==> old(self).balance_of(to)
                + amount <= i128::MAX,
        ensures
            final(self).wf(),
            r == Ok::<(), TokenError>(()) <==> auth.authorizes(spender) && amount > 0 && old(
                self,
            ).balance_of(from) >= amount && old(self).allowance_of(from, spender) >= amount,
            r == Err::<(), TokenError>(TokenError::Unauthorized) <==> !auth.authorizes(spender),
            r == Err::<(), TokenError>(TokenError::InvalidAmount) <==> (auth.authorizes(spender)
                && amount <= 0),
            r == Err::<(), TokenError>(TokenError::InsufficientBalance) <==> (auth.authorizes(
                spender,
            ) && amount > 0 && old(self).balance_of(from) < amount),
            r == Err::<(), TokenError>(TokenError::InsufficientAllowance) <==> (auth.authorizes(
                spender,
            ) && amount > 0 && old(self).balance_of(from) >= amount && old(self).allowance_of(
                from,
                spender,
            ) < amount),
            r is Err ==> *final(self) == *old(self),
            r is Ok && from != to ==> final(self).balance_of(from) == old(self).balance_of(from)
                - amount && final(self).balance_of(to) == old(self).balance_of(to) + amount,
            r is Ok && from == to ==> final(self).balance_of(from) == old(self).balance_of(from),
            r is Ok ==> forall|p: Principal|
                p != from && p != to ==> #[trigger] final(self).balance_of(p) == old(
                    self,
                ).balance_of(p),
            r is Ok ==> final(self).allowance_of(from, spender) == old(self).allowance_of(
                from,
                spender,
            ) - amount,
            r is Ok ==> forall|o: Principal, s: Principal|
                !(o == from && s == spender) ==> #[trigger] final(self).allowance_of(o, s) == old(
                    self,
                ).allowance_of(o, s),
            r is Ok ==> final(self).admin_of() == old(self).admin_of(),
            r is Ok ==> final(self).events_log() == old(self).events_log().push(
                TokenEvent::Transfer(TransferEvent { from, to, amount }),
            ),
    {
        if !auth.allows(spender) {
            return Err(TokenError::Unauthorized);
        }
        if amount <= 0 {
            return Err(TokenError::InvalidAmount);
        }
        let from_balance = self.balance(from);
        if from_balance < amount {
            return Err(TokenError::InsufficientBalance);
        }
        let current_allowance = self.allowance(from, spender);
        if current_allowance < amount {
            return Err(TokenError::InsufficientAllowance);
        }
        Self::write_balance(&mut self.balances, from, from_balance - amount);
        let to_balance = Self::read_balance(&self.balances, to);
        Self::write_balance(&mut self.balances, to, to_balance + amount);
        Self::write_allowance(&mut self.allowances, from, spender, current_allowance - amount);
        let ghost log = self.events@;
        self.events.push(TokenEvent::Transfer(TransferEvent { from, to, amount }));
        proof {
            lemma_mint_total_push(log, TokenEvent::Transfer(TransferEvent { from, to, amount }));
        }
        Ok(())
    }

    /// The events emitted so far, oldest first.
    pub fn events(&self) -> (r: &Vec<TokenEvent>)
        ensures
            r@ == self.events_log(),
    {
        &self.events
    }

    fn find_balance(bals: &Vec<BalanceEntry>, p: Principal) -> (r: Option<usize>)
        ensures
            match r {
                Some(i) => i < bals@.len() && bals@[i as int].principal == p,
                None => !bal_has(bals@, p),
            },
    {
        let mut i: usize = 0;
        while i < bals.len()
            invariant
                i <= bals@.len(),
                forall|k: int| 0 <= k < i ==> bals@[k].principal != p,
            decreases bals@.len() - i,
        {
            if bals[i].principal == p {
                return Some(i);
            }
            i += 1;
        }
        None
    }

    fn find_allowance(allows: &Vec<AllowanceEntry>, o: Principal, sp: Principal) -> (r: Option<
        usize,
    >)
        ensures
            match r {
                Some(i) => i < allows@.len() && allows@[i as int].owner == o && allows@[
                    i as int
                ].spender == sp,
                None => !allow_has(allows@, o, sp),
            },
    {
        let mut i: usize = 0;
        while i < allows.len()
            invariant
                i <= allows@.len(),
                forall|k: int|
                    0 <= k < i ==> !(allows@[k].owner == o && allows@[k].spender == sp),
            decreases allows@.len() - i,
        {
            if allows[i].owner == o && allows[i].spender == sp {
                return Some(i);
            }
            i += 1;
        }
        None
    }

    fn write_balance(bals: &mut Vec<BalanceEntry>, p: Principal, v: i128)
        requires
            bal_unique(old(bals)@),
            bal_nonneg(old(bals)@),
            v >= 0,
        ensures
            bal_unique(final(bals)@),
            bal_nonneg(final(bals)@),
            bal_value(final(bals)@, p) == v as int,
            forall|q: Principal|
                q != p ==> #[trigger] bal_value(final(bals)@, q) == bal_value(old(bals)@, q),
            bal_total(final(bals)@) == bal_total(old(bals)@) - bal_value(old(bals)@, p) + v,
    {
        let ghost s = bals@;
        let entry = BalanceEntry { principal: p, amount: v };
        match Self::find_balance(bals, p) {
            Some(i) => {
                bals[i] = entry;
                proof {
                    let t = bals@;
                    assert(t == s.update(i as int, entry));
                    lemma_bal_value_at(t, p, i as int);
                    lemma_bal_value_at(s, p, i as int);
                    lemma_bal_total_update(s, i as int, entry);
                    assert forall|q: Principal| q != p implies #[trigger] bal_value(t, q)
                        == bal_value(s, q) by {
                        if bal_has(s, q) {
                            let k = choose|k: int| 0 <= k < s.len() && s[k].principal == q;
                            assert(k != i);
                            assert(t[k].principal == q);
                            lemma_bal_value_at(s, q, k);
                            lemma_bal_value_at(t, q, k);
                        } else {
                            assert(!bal_has(t, q)) by {
                                if bal_has(t, q) {
                                    let k = choose|k: int|
                                        0 <= k < t.len() && t[k].principal == q;
                                    assert(k != i);
                                    assert(s[k].principal == q);
                                }
                            }
                        }
                    }
                }
            },
            None => {
                bals.push(entry);
                proof {
                    let t = bals@;
                    assert(t == s.push(entry));
                    lemma_bal_total_push(s, entry);
                    assert forall|a: int, b: int| 0 <= a < b < t.len() implies t[a].principal
                        != t[b].principal by {
                        if b == s.len() {
                            assert(t[a] == s[a]);
                            if s[a].principal == p {
                                assert(bal_has(s, p)) by {
                                    assert(s[a].principal == p);
                                }
                            }
                        }
                    }
                    lemma_bal_value_at(t, p, s.len() as int);
                    assert forall|q: Principal| q != p implies #[trigger] bal_value(t, q)
                        == bal_value(s, q) by {
                        if bal_has(s, q) {
                            let k = choose|k: int| 0 <= k < s.len() && s[k].principal == q;
                            assert(t[k].principal == q);
                            lemma_bal_value_at(s, q, k);
                            lemma_bal_value_at(t, q, k);
                        } else {
                            assert(!bal_has(t, q)) by {
                                if bal_has(t, q) {
                                    let k = choose|k: int|
                                        0 <= k < t.len() && t[k].principal == q;
                                    assert(k < s.len());
                                    assert(s[k].principal == q);
                                }
                            }
                        }
                    }
                }
            },
        }
    }

    fn write_allowance(allows: &mut Vec<AllowanceEntry>, o: Principal, sp: Principal, v: i128)
        requires
            allow_unique(old(allows)@),
            allow_nonneg(old(allows)@),
            v >= 0,
        ensures
            allow_unique(final(allows)@),
            allow_nonneg(final(allows)@),
            allow_value(final(allows)@, o, sp) == v as int,
            forall|a: Principal, b: Principal|
                !(a == o && b == sp) ==> #[trigger] allow_value(final(allows)@, a, b)
                    == allow_value(old(allows)@, a, b),
    {
        let ghost s = allows@;
        let entry = AllowanceEntry { owner: o, spender: sp, amount: v };
        match Self::find_allowance(allows, o, sp) {
            Some(i) => {
                allows[i] = entry;
                proof {
                    let t = allows@;
                    assert(t == s.update(i as int, entry));
                    lemma_allow_value_at(t, o, sp, i as int);
                    assert forall|a: Principal, b: Principal| !(a == o && b == sp) implies
                        #[trigger] allow_value(t, a, b) == allow_value(s, a, b) by {
                        if allow_has(s, a, b) {
                            let k = choose|k: int|
                                0 <= k < s.len() && s[k].owner == a && s[k].spender == b;
                            assert(k != i);
                            assert(t[k].owner == a && t[k].spender == b);
                            lemma_allow_value_at(s, a, b, k);
                            lemma_allow_value_at(t, a, b, k);
                        } else {
                            assert(!allow_has(t, a, b)) by {
                                if allow_has(t, a, b) {
                                    let k = choose|k: int|
                                        0 <= k < t.len() && t[k].owner == a && t[k].spender == b;
                                    assert(k != i);
                                    assert(s[k].owner == a && s[k].spender == b);
                                }
                            }
                        }
                    }
                }
            },
            None => {
                allows.push(entry);
                proof {
                    let t = allows@;
                    assert(t == s.push(entry));
                    assert forall|a: int, b: int| 0 <= a < b < t.len() implies !(t[a].owner
                        == t[b].owner && t[a].spender == t[b].spender) by {
                        if b == s.len() {
                            assert(t[a] == s[a]);
                            if s[a].owner == o && s[a].spender == sp {
                                assert(allow_has(s, o, sp)) by {
                                    assert(s[a].owner == o && s[a].spender == sp);
                                }
                            }
                        }
                    }
                    lemma_allow_value_at(t, o, sp, s.len() as int);
                    assert forall|a: Principal, b: Principal| !(a == o && b == sp) implies
                        #[trigger] allow_value(t, a, b) == allow_value(s, a, b) by {
                        if allow_has(s, a, b) {
                            let k = choose|k: int|
                                0 <= k < s.len() && s[k].owner == a && s[k].spender == b;
                            assert(t[k].owner == a && t[k].spender == b);
                            lemma_allow_value_at(s, a, b, k);
                            lemma_allow_value_at(t, a, b, k);
                        } else {
                            assert(!allow_has(t, a, b)) by {
                                if allow_has(t, a, b) {
                                    let k = choose|k: int|
                                        0 <= k < t.len() && t[k].owner == a && t[k].spender == b;
                                    assert(k < s.len());
                                    assert(s[k].owner == a && s[k].spender == b);
                                }
                            }
                        }
                    }
                }
            },
        }
    }
}

/// The ledger conserves value: the balances sum to exactly what was ever
/// minted (no burn of fungible units is modeled).  Every operation
/// preserves `wf`, so this holds after any sequence of calls.
pub proof fn lemma_balances_conserve_minted_total(t: CarbonToken)
    requires
        t.wf(),
    ensures
        t.balance_total() == t.minted_total(),
{
}

/// Balances and allowances are never negative in a well-formed ledger,
/// whatever sequence of operations produced it.
pub proof fn lemma_ledger_never_negative(t: CarbonToken, p: Principal, o: Principal,
    s: Principal)
    requires
        t.wf(),
    ensures
        t.balance_of(p) >= 0,
        t.allowance_of(o, s) >= 0,
{
    if bal_has(t.balances@, p) {
        let k = choose|k: int| 0 <= k < t.balances@.len() && t.balances@[k].principal == p;
        assert(t.balances@[k].amount >= 0);
    }
    if allow_has(t.allowances@, o, s) {
        let k = choose|k: int|
            0 <= k < t.allowances@.len() && t.allowances@[k].owner == o && t.allowances@[
                k
            ].spender == s;
        assert(t.allowances@[k].amount >= 0);
    }
}

} // verus!
