//! The risk engine: per-user wallets, and pre-trade checks that lock the
//! funds an order needs before it may enter the book.
use vstd::prelude::*;
use std::collections::HashMap;
use crate::amount::{exact_add_sub, Amount};

verus! {

pub type UserId = u128;

pub type Symbol = String;

#[derive(Debug)]
pub enum RiskError {
    UserNotFound,
    InsufficientFunds { needed: Amount, available: Amount },
    InsufficientStock { symbol: String, needed: Amount, available: Amount },
    NoPosition { symbol: String },
}

/// Per-symbol stock position split into free and locked quantities.
#[derive(Clone, Copy, Debug)]
pub struct Position {
    pub available: Amount,
    pub locked: Amount,
}

/// A user's full wallet: cash + per-symbol stock positions (one entry per
/// symbol, in the order the symbols were first credited).
#[derive(Debug)]
pub struct Wallet {
    pub cash_available: Amount,
    pub cash_locked: Amount,
    pub positions: Vec<(Symbol, Position)>,
}

/// Passed to check_and_lock / release so the engine knows which side to act on.
#[derive(Clone, Copy, Debug, PartialEq, Eq, Structural)]
pub enum Side {
    Buy,
    Sell,
}

pub struct RiskEngine {
    wallets: HashMap<UserId, Wallet>,
}

/// A wallet as (cash available, cash locked, positions).
pub type WalletState = (Amount, Amount, Seq<(Symbol, Position)>);

impl View for Wallet {
    type V = WalletState;

    open spec fn view(&self) -> WalletState {
        (self.cash_available, self.cash_locked, self.positions@)
    }
}

/// The engine is seen as the map from user to wallet.
impl View for RiskEngine {
    type V = Map<UserId, Wallet>;

    closed spec fn view(&self) -> Map<UserId, Wallet> {
        self.wallets@
    }
}

/// `i` is the first position entry for `symbol`.
pub open spec fn is_first_symbol(ps: Seq<(Symbol, Position)>, symbol: Seq<char>, i: int) -> bool {
    &&& 0 <= i < ps.len()
    &&& ps[i].0@ == symbol
    &&& forall|j: int| 0 <= j < i ==> (#[trigger] ps[j]).0@ != symbol
}

pub open spec fn holds_symbol(ps: Seq<(Symbol, Position)>, symbol: Seq<char>) -> bool {
    exists|i: int| is_first_symbol(ps, symbol, i)
}

pub open spec fn symbol_index(ps: Seq<(Symbol, Position)>, symbol: Seq<char>) -> int {
    choose|i: int| is_first_symbol(ps, symbol, i)
}

/// No symbol has two position entries.
pub open spec fn symbols_unique(ps: Seq<(Symbol, Position)>) -> bool {
    forall|i: int, j: int| 0 <= i < j < ps.len() ==> (#[trigger] ps[i]).0@ != (#[trigger] ps[j]).0@
}

/// Every wallet holds at most one position per symbol.
pub open spec fn wallets_wf(m: Map<UserId, Wallet>) -> bool {
    forall|u: UserId| m.contains_key(u) ==> symbols_unique(#[trigger] m[u].positions@)
}

/// Locking or releasing keeps the symbols of the positions as they are.
pub proof fn lemma_outcome_keeps_symbols(
    w: WalletState,
    symbol: Seq<char>,
    side: Side,
    price: Amount,
    quantity: Amount,
    release: bool,
)
    ensures
        ({
            let out = if release {
                release_outcome(w, symbol, side, price, quantity)
            } else {
                lock_outcome(w, symbol, side, price, quantity)
            };
            out matches Ok(w2) ==> {
                &&& w2.2.len() == w.2.len()
                &&& forall|j: int| 0 <= j < w.2.len() ==> (#[trigger] w2.2[j]).0 == w.2[j].0
                &&& (symbols_unique(w.2) ==> symbols_unique(w2.2))
            }
        }),
{
    let out = if release {
        release_outcome(w, symbol, side, price, quantity)
    } else {
        lock_outcome(w, symbol, side, price, quantity)
    };
    if let Ok(w2) = out {
        assert forall|j: int| 0 <= j < w.2.len() implies (#[trigger] w2.2[j]).0 == w.2[j].0 by {}
        if symbols_unique(w.2) {
            assert forall|i: int, j: int| 0 <= i < j < w2.2.len() implies (#[trigger] w2.2[i]).0@ != (
            #[trigger] w2.2[j]).0@ by {
                assert(w2.2[i].0 == w.2[i].0 && w2.2[j].0 == w.2[j].0);
            }
        }
    }
}

/// Locking `n` of cash: it moves from available to locked.
pub open spec fn lock_cash(w: WalletState, n: Amount) -> WalletState {
    (Amount::spec_sub(w.0, n), Amount::spec_add(w.1, n), w.2)
}

/// Releasing `n` of cash: it moves from locked to available.
pub open spec fn release_cash(w: WalletState, n: Amount) -> WalletState {
    (Amount::spec_add(w.0, n), Amount::spec_sub(w.1, n), w.2)
}

/// Locking `q` of the stock held in entry `i`.
pub open spec fn lock_stock(w: WalletState, i: int, q: Amount) -> WalletState {
    let p = w.2[i].1;
    (
        w.0,
        w.1,
        w.2.update(
            i,
            (w.2[i].0, Position { available: Amount::spec_sub(p.available, q), locked: Amount::spec_add(p.locked, q) }),
        ),
    )
}

/// Releasing `q` of the stock held in entry `i`.
pub open spec fn release_stock(w: WalletState, i: int, q: Amount) -> WalletState {
    let p = w.2[i].1;
    (
        w.0,
        w.1,
        w.2.update(
            i,
            (w.2[i].0, Position { available: Amount::spec_add(p.available, q), locked: Amount::spec_sub(p.locked, q) }),
        ),
    )
}

/// A wallet after a deposit of `qty` of `symbol`: an existing position's
/// available quantity grows by `qty`; otherwise a new position of `qty`
/// available and nothing locked is added after the others.
pub open spec fn credit(w: WalletState, symbol: Symbol, qty: Amount) -> WalletState {
    if holds_symbol(w.2, symbol@) {
        let i = symbol_index(w.2, symbol@);
        let p = w.2[i].1;
        (w.0, w.1, w.2.update(i, (w.2[i].0, Position { available: Amount::spec_add(p.available, qty), locked: p.locked })))
    } else {
        (w.0, w.1, w.2.push((symbol, Position { available: qty, locked: Amount::from_parts((0, 0)) })))
    }
}

/// The engine is as before, except that `user` now has a wallet in state `w`.
pub open spec fn wallet_set_to(old_m: Map<UserId, Wallet>, new_m: Map<UserId, Wallet>, user: UserId, w: WalletState) -> bool {
    &&& new_m.contains_key(user)
    &&& new_m[user]@ == w
    &&& new_m.remove(user) == old_m.remove(user)
}

/// The balance a lock (`release` false) or release (`release` true) draws
/// on is not negative: available cash or locked cash for a buy, the
/// position's available or locked quantity for a sell.
pub open spec fn drawn_balance_nonneg(w: WalletState, symbol: Seq<char>, side: Side, release: bool) -> bool {
    match side {
        Side::Buy => if release {
            w.1.value() >= 0
        } else {
            w.0.value() >= 0
        },
        Side::Sell => {
            let p = w.2[symbol_index(w.2, symbol)].1;
            holds_symbol(w.2, symbol) && if release {
                p.locked.value() >= 0
            } else {
                p.available.value() >= 0
            }
        },
    }
}

/// What `check_and_lock` does to a wallet: `Ok` with the new state, or the error.
pub open spec fn lock_outcome(w: WalletState, symbol: Seq<char>, side: Side, price: Amount, quantity: Amount) -> Result<WalletState, ()> {
    match side {
        Side::Buy => {
            let n = Amount::spec_mul(price, quantity);
            if w.0.value() < n.value() {
                Err(())
            } else {
                Ok(lock_cash(w, n))
            }
        },
        Side::Sell => {
            if !holds_symbol(w.2, symbol) {
                Err(())
            } else {
                let i = symbol_index(w.2, symbol);
                if w.2[i].1.available.value() < quantity.value() {
                    Err(())
                } else {
                    Ok(lock_stock(w, i, quantity))
                }
            }
        },
    }
}

/// What `release` does to a wallet: `Ok` with the new state, or the error.
pub open spec fn release_outcome(w: WalletState, symbol: Seq<char>, side: Side, price: Amount, quantity: Amount) -> Result<WalletState, ()> {
    match side {
        Side::Buy => {
            let n = Amount::spec_mul(price, quantity);
            if w.1.value() < n.value() {
                Err(())
            } else {
                Ok(release_cash(w, n))
            }
        },
        Side::Sell => {
            if !holds_symbol(w.2, symbol) {
                Err(())
            } else {
                let i = symbol_index(w.2, symbol);
                if w.2[i].1.locked.value() < quantity.value() {
                    Err(())
                } else {
                    Ok(release_stock(w, i, quantity))
                }
            }
        },
    }
}

/// The error a failed lock (`release` false) or release (`release` true)
/// reports: the shortfall is measured against the available balance for a
/// lock and against the locked balance for a release.
pub open spec fn expected_error(w: WalletState, symbol: Seq<char>, side: Side, price: Amount, quantity: Amount, release: bool, e: RiskError) -> bool {
    match side {
        Side::Buy => {
            let have = if release { w.1 } else { w.0 };
            e == RiskError::InsufficientFunds { needed: Amount::spec_mul(price, quantity), available: have }
        },
        Side::Sell => {
            if !holds_symbol(w.2, symbol) {
                e matches RiskError::NoPosition { symbol: s } && s@ == symbol
            } else {
                let p = w.2[symbol_index(w.2, symbol)].1;
                let have = if release { p.locked } else { p.available };
                e matches RiskError::InsufficientStock { symbol: s, needed, available } && s@ == symbol
                    && needed == quantity && available == have
            }
        },
    }
}

/// What `check_and_lock` (`release` false) and `release` (`release` true)
/// promise: an unknown user is an error that changes nothing; otherwise the
/// wallet takes its new state, or the error is reported and nothing changes.
pub open spec fn funds_update(
    old_m: Map<UserId, Wallet>,
    new_m: Map<UserId, Wallet>,
    user_id: UserId,
    symbol: Seq<char>,
    side: Side,
    price: Amount,
    quantity: Amount,
    release: bool,
    r: Result<(), RiskError>,
) -> bool {
    if !old_m.contains_key(user_id) {
        r matches Err(RiskError::UserNotFound) && new_m == old_m
    } else {
        let w = old_m[user_id]@;
        let out = if release {
            release_outcome(w, symbol, side, price, quantity)
        } else {
            lock_outcome(w, symbol, side, price, quantity)
        };
        match out {
            Ok(w2) => r is Ok && wallet_set_to(old_m, new_m, user_id, w2),
            Err(_) => r matches Err(e) && expected_error(w, symbol, side, price, quantity, release, e)
                && new_m == old_m,
        }
    }
}

pub proof fn lemma_first_symbol_unique(ps: Seq<(Symbol, Position)>, symbol: Seq<char>, i: int, j: int)
    requires
        is_first_symbol(ps, symbol, i),
        is_first_symbol(ps, symbol, j),
    ensures
        i == j,
{
    if i < j {
        assert(ps[i].0@ != symbol);
    } else if j < i {
        assert(ps[j].0@ != symbol);
    }
}

/// The entry of `ps` for `symbol`, if any.
fn find_symbol(ps: &Vec<(Symbol, Position)>, symbol: &String) -> (r: Option<usize>)
    ensures
        r matches Some(i) ==> i == symbol_index(ps@, symbol@) && is_first_symbol(ps@, symbol@, i as int),
        r is None <==> !holds_symbol(ps@, symbol@),
        r is None ==> forall|j: int| 0 <= j < ps@.len() ==> (#[trigger] ps@[j]).0@ != symbol@,
{
    let mut i: usize = 0;
    while i < ps.len()
        invariant
            0 <= i <= ps@.len(),
            forall|j: int| 0 <= j < i ==> (#[trigger] ps@[j]).0@ != symbol@,
        decreases ps@.len() - i,
    {
        if ps[i].0 == *symbol {
            proof {
                assert(is_first_symbol(ps@, symbol@, i as int));
                lemma_first_symbol_unique(ps@, symbol@, symbol_index(ps@, symbol@), i as int);
            }
            return Some(i);
        }
        i = i + 1;
    }
    proof {
        if holds_symbol(ps@, symbol@) {
            let k = symbol_index(ps@, symbol@);
            assert(ps@[k].0@ != symbol@);
        }
    }
    None
}

impl Wallet {
    /// The position held in `symbol`, if any.
    pub fn position(&self, symbol: &str) -> (r: Option<Position>)
        ensures
            r == (if holds_symbol(self.positions@, symbol@) {
                Some(self.positions@[symbol_index(self.positions@, symbol@)].1)
            } else {
                None
            }),
    {
        let key = symbol.to_owned();
        match find_symbol(&self.positions, &key) {
            Some(i) => Some(self.positions[i].1),
            None => None,
        }
    }

    /// Locks (`release` false) or releases (`release` true) funds in this wallet.
    fn lock_or_release(
        &mut self,
        symbol: &str,
        side: Side,
        price: Amount,
        quantity: Amount,
        release: bool,
    ) -> (r: Result<(), RiskError>)
        ensures
            ({
                let out = if release {
                    release_outcome(old(self)@, symbol@, side, price, quantity)
                } else {
                    lock_outcome(old(self)@, symbol@, side, price, quantity)
                };
                match out {
                    Ok(w) => r is Ok && final(self)@ == w,
                    Err(_) => r matches Err(e) && expected_error(
                        old(self)@,
                        symbol@,
                        side,
                        price,
                        quantity,
                        release,
                        e,
                    ) && *final(self) == *old(self),
                }
            }),
            r is Ok ==> drawn_balance_nonneg(final(self)@, symbol@, side, release),
    {
        match side {
            Side::Buy => {
                let needed = price.times(quantity);
                let have = if release {
                    self.cash_locked
                } else {
                    self.cash_available
                };
                if have.lt(&needed) {
                    return Err(RiskError::InsufficientFunds { needed, available: have });
                }
                if release {
                    self.cash_available = self.cash_available.plus(needed);
                    self.cash_locked = self.cash_locked.minus(needed);
                } else {
                    self.cash_available = self.cash_available.minus(needed);
                    self.cash_locked = self.cash_locked.plus(needed);
                }
                Ok(())
            },
            Side::Sell => {
                let key = symbol.to_owned();
                match find_symbol(&self.positions, &key) {
                    None => Err(RiskError::NoPosition { symbol: key }),
                    Some(i) => {
                        let p = self.positions[i].1;
                        let have = if release {
                            p.locked
                        } else {
                            p.available
                        };
                        if have.lt(&quantity) {
                            return Err(
                                RiskError::InsufficientStock { symbol: key, needed: quantity, available: have },
                            );
                        }
                        let np = if release {
                            Position { available: p.available.plus(quantity), locked: p.locked.minus(quantity) }
                        } else {
                            Position { available: p.available.minus(quantity), locked: p.locked.plus(quantity) }
                        };
                        let name = self.positions[i].0.clone();
                        let ghost ps0 = self.positions@;
                        self.positions.set(i, (name, np));
                        proof {
                            assert forall|j: int| 0 <= j < ps0.len() implies (#[trigger] self.positions@[j]).0
                                == ps0[j].0 by {}
                            lemma_symbol_index_kept(
                                (self.cash_available, self.cash_locked, ps0),
                                i as int,
                                self@,
                                symbol@,
                            );
                        }
                        Ok(())
                    },
                }
            },
        }
    }
}

impl RiskEngine {
    pub open spec fn wf(&self) -> bool {
        wallets_wf(self@)
    }

    pub fn new() -> (r: RiskEngine)
        ensures
            r@ == Map::<UserId, Wallet>::empty(),
            r.wf(),
    {
        RiskEngine { wallets: HashMap::new() }
    }

    pub fn wallet(&self, user_id: UserId) -> (r: Option<&Wallet>)
        ensures
            r matches Some(w) ==> self@.contains_key(user_id) && *w == self@[user_id],
            r is None ==> !self@.contains_key(user_id),
    {
        broadcast use vstd::std_specs::hash::group_hash_axioms;

        self.wallets.get(&user_id)
    }

    /// Register a wallet for a user with an opening cash balance.
    pub fn add_wallet(&mut self, user_id: UserId, cash: Amount)
        ensures
            wallet_set_to(old(self)@, final(self)@, user_id, (cash, Amount::from_parts((0, 0)), Seq::empty())),
            old(self).wf() ==> final(self).wf(),
    {
        broadcast use vstd::std_specs::hash::group_hash_axioms;

        let z = Amount::zero();
        proof {
            Amount::lemma_from_view(z);
        }
        self.wallets.insert(user_id, Wallet { cash_available: cash, cash_locked: z, positions: Vec::new() });
        proof {
            assert(final(self)@.remove(user_id) =~= old(self)@.remove(user_id));
            if wallets_wf(old(self)@) {
                assert forall|u: UserId| final(self)@.contains_key(u) implies symbols_unique(
                    #[trigger] final(self)@[u].positions@,
                ) by {
                    if u != user_id {
                        assert(old(self)@.contains_key(u));
                    }
                }
            }
        }
    }

    /// Credit a stock position to a user's wallet (e.g. on deposit): a
    /// symbol the wallet already holds gains `qty` available (its locked
    /// quantity is kept); a new symbol gets a position of `qty` available.
    pub fn add_position(&mut self, user_id: UserId, symbol: Symbol, qty: Amount) -> (r: Result<(), RiskError>)
        ensures
            old(self).wf() ==> final(self).wf(),
            !old(self)@.contains_key(user_id) ==> (r matches Err(RiskError::UserNotFound) && final(self)@ == old(self)@),
            old(self)@.contains_key(user_id) ==> r is Ok && wallet_set_to(
                old(self)@,
                final(self)@,
                user_id,
                credit(old(self)@[user_id]@, symbol, qty),
            ),
    {
        broadcast use vstd::std_specs::hash::group_hash_axioms;

        match self.wallets.remove(&user_id) {
            None => {
                proof {
                    assert(final(self)@ =~= old(self)@);
                }
                Err(RiskError::UserNotFound)
            },
            Some(mut wallet) => {
                let ghost ps0 = wallet.positions@;
                match find_symbol(&wallet.positions, &symbol) {
                    Some(i) => {
                        let p = wallet.positions[i].1;
                        let name = wallet.positions[i].0.clone();
                        wallet.positions.set(i, (name, Position { available: p.available.plus(qty), locked: p.locked }));
                    },
                    None => {
                        let z = Amount::zero();
                        proof {
                            Amount::lemma_from_view(z);
                        }
                        wallet.positions.push((symbol, Position { available: qty, locked: z }));
                    },
                }
                let ghost ps1 = wallet.positions@;
                self.wallets.insert(user_id, wallet);
                proof {
                    assert(final(self)@.remove(user_id) =~= old(self)@.remove(user_id));
                    if wallets_wf(old(self)@) {
                        assert(symbols_unique(ps0)) by {
                            assert(old(self)@.contains_key(user_id));
                        }
                        assert(symbols_unique(ps1)) by {
                            assert forall|i: int, j: int| 0 <= i < j < ps1.len() implies (#[trigger] ps1[i]).0@
                                != (#[trigger] ps1[j]).0@ by {
                                if ps1.len() == ps0.len() {
                                    assert(ps1[i].0 == ps0[i].0 && ps1[j].0 == ps0[j].0);
                                } else if j == ps0.len() {
                                    assert(ps1[i] == ps0[i]);
                                } else {
                                    assert(ps1[i] == ps0[i] && ps1[j] == ps0[j]);
                                }
                            }
                        }
                        assert forall|u: UserId| final(self)@.contains_key(u) implies symbols_unique(
                            #[trigger] final(self)@[u].positions@,
                        ) by {
                            if u != user_id {
                                assert(old(self)@.contains_key(u));
                            }
                        }
                    }
                }
                Ok(())
            },
        }
    }

    /// Check the order is fundable and atomically lock the required balance.
    /// Buy  → locks price * quantity cash.
    /// Sell → locks quantity stock for that symbol.
    pub fn check_and_lock(
        &mut self,
        user_id: UserId,
        symbol: &str,
        side: Side,
        price: Amount,
        quantity: Amount,
    ) -> (r: Result<(), RiskError>)
        ensures
            funds_update(old(self)@, final(self)@, user_id, symbol@, side, price, quantity, false, r),
            old(self).wf() ==> final(self).wf(),
            r is Ok ==> final(self)@.contains_key(user_id) && drawn_balance_nonneg(
                final(self)@[user_id]@,
                symbol@,
                side,
                false,
            ),
    {
        self.update_wallet(user_id, symbol, side, price, quantity, false)
    }

    /// Release a previously locked amount (on cancel or fill).
    /// Must mirror the locking logic in check_and_lock exactly.
    pub fn release(
        &mut self,
        user_id: UserId,
        symbol: &str,
        side: Side,
        price: Amount,
        quantity: Amount,
    ) -> (r: Result<(), RiskError>)
        ensures
            funds_update(old(self)@, final(self)@, user_id, symbol@, side, price, quantity, true, r),
            old(self).wf() ==> final(self).wf(),
            r is Ok ==> final(self)@.contains_key(user_id) && drawn_balance_nonneg(
                final(self)@[user_id]@,
                symbol@,
                side,
                true,
            ),
    {
        self.update_wallet(user_id, symbol, side, price, quantity, true)
    }

    fn update_wallet(
        &mut self,
        user_id: UserId,
        symbol: &str,
        side: Side,
        price: Amount,
        quantity: Amount,
        release: bool,
    ) -> (r: Result<(), RiskError>)
        ensures
            funds_update(old(self)@, final(self)@, user_id, symbol@, side, price, quantity, release, r),
            old(self).wf() ==> final(self).wf(),
            r is Ok ==> final(self)@.contains_key(user_id) && drawn_balance_nonneg(
                final(self)@[user_id]@,
                symbol@,
                side,
                release,
            ),
    {
        broadcast use vstd::std_specs::hash::group_hash_axioms;

        match self.wallets.remove(&user_id) {
            None => {
                proof {
                    assert(final(self)@ =~= old(self)@);
                }
                Err(RiskError::UserNotFound)
            },
            Some(mut wallet) => {
                let ghost w0 = wallet;
                let r = wallet.lock_or_release(symbol, side, price, quantity, release);
                let ghost w1 = wallet;
                self.wallets.insert(user_id, wallet);
                proof {
                    assert(final(self)@.remove(user_id) =~= old(self)@.remove(user_id));
                    if r is Err {
                        assert(w1 == w0);
                        assert(final(self)@ =~= old(self)@);
                    }
                    lemma_outcome_keeps_symbols(w0@, symbol@, side, price, quantity, release);
                    if wallets_wf(old(self)@) {
                        assert(old(self)@.contains_key(user_id));
                        assert(symbols_unique(w0.positions@));
                        assert forall|u: UserId| final(self)@.contains_key(u) implies symbols_unique(
                            #[trigger] final(self)@[u].positions@,
                        ) by {
                            if u != user_id {
                                assert(old(self)@.contains_key(u));
                            }
                        }
                    }
                }
                r
            },
        }
    }
}

/// Law: locking cash moves it without changing the wallet's total, never
/// leaves a negative balance when the funds check passed, and releasing the
/// same amount right after gives back both balances — whenever the decimal
/// additions and subtractions involved are exact.
pub proof fn law_cash_lock_release_round_trip(w: WalletState, n: Amount)
    requires
        w.0.is_valid(),
        w.1.is_valid(),
        n.is_valid(),
        exact_add_sub(w.0@, n@, -1) is Some,
        exact_add_sub(w.1@, n@, 1) is Some,
        exact_add_sub(lock_cash(w, n).0@, n@, 1) is Some,
        exact_add_sub(lock_cash(w, n).1@, n@, -1) is Some,
    ensures
        lock_cash(w, n).0.value() + lock_cash(w, n).1.value() == w.0.value() + w.1.value(),
        w.0.value() >= n.value() ==> lock_cash(w, n).0.value() >= 0,
        release_cash(lock_cash(w, n), n).0.value() == w.0.value(),
        release_cash(lock_cash(w, n), n).1.value() == w.1.value(),
        release_cash(lock_cash(w, n), n).2 == w.2,
{
    let l = lock_cash(w, n);
    Amount::lemma_sub_exact(w.0, n);
    Amount::lemma_add_exact(w.1, n);
    Amount::lemma_add_exact(l.0, n);
    Amount::lemma_sub_exact(l.1, n);
}

/// Law: the same for the stock held in entry `i` of the wallet.
pub proof fn law_stock_lock_release_round_trip(w: WalletState, i: int, q: Amount)
    requires
        0 <= i < w.2.len(),
        w.2[i].1.available.is_valid(),
        w.2[i].1.locked.is_valid(),
        q.is_valid(),
        exact_add_sub(w.2[i].1.available@, q@, -1) is Some,
        exact_add_sub(w.2[i].1.locked@, q@, 1) is Some,
        exact_add_sub(lock_stock(w, i, q).2[i].1.available@, q@, 1) is Some,
        exact_add_sub(lock_stock(w, i, q).2[i].1.locked@, q@, -1) is Some,
    ensures
        lock_stock(w, i, q).2[i].1.available.value() + lock_stock(w, i, q).2[i].1.locked.value()
            == w.2[i].1.available.value() + w.2[i].1.locked.value(),
        w.2[i].1.available.value() >= q.value() ==> lock_stock(w, i, q).2[i].1.available.value() >= 0,
        release_stock(lock_stock(w, i, q), i, q).2[i].1.available.value() == w.2[i].1.available.value(),
        release_stock(lock_stock(w, i, q), i, q).2[i].1.locked.value() == w.2[i].1.locked.value(),
        release_stock(lock_stock(w, i, q), i, q).2[i].0 == w.2[i].0,
        forall|j: int| 0 <= j < w.2.len() && j != i ==> release_stock(lock_stock(w, i, q), i, q).2[j] == w.2[j],
        release_stock(lock_stock(w, i, q), i, q).2.len() == w.2.len(),
        release_stock(lock_stock(w, i, q), i, q).0 == w.0,
        release_stock(lock_stock(w, i, q), i, q).1 == w.1,
{
    let p = w.2[i].1;
    let l = lock_stock(w, i, q);
    let lp = l.2[i].1;
    Amount::lemma_sub_exact(p.available, q);
    Amount::lemma_add_exact(p.locked, q);
    Amount::lemma_add_exact(lp.available, q);
    Amount::lemma_sub_exact(lp.locked, q);
}

/// Two wallets hold the same balances (by value), position by position.
pub open spec fn same_balances(w: WalletState, v: WalletState) -> bool {
    &&& w.0.value() == v.0.value()
    &&& w.1.value() == v.1.value()
    &&& w.2.len() == v.2.len()
    &&& forall|j: int|
        0 <= j < w.2.len() ==> {
            &&& (#[trigger] w.2[j]).0 == v.2[j].0
            &&& w.2[j].1.available.value() == v.2[j].1.available.value()
            &&& w.2[j].1.locked.value() == v.2[j].1.locked.value()
        }
}

/// Locking and then releasing `price`, `quantity` on `side` in wallet `w`
/// is exact decimal arithmetic on valid amounts, and the locked balance it
/// touches is not negative.
pub open spec fn lock_release_exact(w: WalletState, symbol: Seq<char>, side: Side, price: Amount, quantity: Amount) -> bool {
    match side {
        Side::Buy => {
            let n = Amount::spec_mul(price, quantity);
            &&& w.0.is_valid()
            &&& w.1.is_valid()
            &&& n.is_valid()
            &&& w.1.value() >= 0
            &&& exact_add_sub(w.0@, n@, -1) is Some
            &&& exact_add_sub(w.1@, n@, 1) is Some
            &&& exact_add_sub(lock_cash(w, n).0@, n@, 1) is Some
            &&& exact_add_sub(lock_cash(w, n).1@, n@, -1) is Some
        },
        Side::Sell => {
            let i = symbol_index(w.2, symbol);
            &&& quantity.is_valid()
            &&& w.2[i].1.available.is_valid()
            &&& w.2[i].1.locked.is_valid()
            &&& w.2[i].1.locked.value() >= 0
            &&& exact_add_sub(w.2[i].1.available@, quantity@, -1) is Some
            &&& exact_add_sub(w.2[i].1.locked@, quantity@, 1) is Some
            &&& exact_add_sub(lock_stock(w, i, quantity).2[i].1.available@, quantity@, 1) is Some
            &&& exact_add_sub(lock_stock(w, i, quantity).2[i].1.locked@, quantity@, -1) is Some
        },
    }
}

/// An entry of the positions keeps its place while the names do not change.
pub proof fn lemma_symbol_index_kept(w: WalletState, i: int, v: WalletState, symbol: Seq<char>)
    requires
        is_first_symbol(w.2, symbol, i),
        v.2.len() == w.2.len(),
        forall|j: int| 0 <= j < w.2.len() ==> (#[trigger] v.2[j]).0 == w.2[j].0,
    ensures
        holds_symbol(v.2, symbol),
        symbol_index(v.2, symbol) == i,
{
    assert(is_first_symbol(v.2, symbol, i)) by {
        assert forall|j: int| 0 <= j < i implies (#[trigger] v.2[j]).0@ != symbol by {
            assert(v.2[j].0 == w.2[j].0);
            assert(w.2[j].0@ != symbol);
        }
    }
    let k = symbol_index(v.2, symbol);
    if k < i {
        assert(v.2[k].0 == w.2[k].0);
        assert(w.2[k].0@ != symbol);
    } else if i < k {
        assert(v.2[i].0@ != symbol);
    }
}

/// Law: right after a lock succeeded, releasing the same price and
/// quantity succeeds and leaves the wallet with the balances it had before
/// the lock, whenever that arithmetic is exact and the locked balance was
/// not negative. (With a negative locked balance the release can be
/// refused.)
pub proof fn law_release_succeeds_after_lock(w: WalletState, symbol: Seq<char>, side: Side, price: Amount, quantity: Amount)
    requires
        lock_outcome(w, symbol, side, price, quantity) is Ok,
        lock_release_exact(w, symbol, side, price, quantity),
    ensures
        ({
            let w1 = lock_outcome(w, symbol, side, price, quantity)->Ok_0;
            release_outcome(w1, symbol, side, price, quantity) matches Ok(w2) && same_balances(w2, w)
        }),
{
    let w1 = lock_outcome(w, symbol, side, price, quantity)->Ok_0;
    match side {
        Side::Buy => {
            let n = Amount::spec_mul(price, quantity);
            assert(w1 == lock_cash(w, n));
            law_cash_lock_release_round_trip(w, n);
            Amount::lemma_add_exact(w.1, n);
        },
        Side::Sell => {
            let i = symbol_index(w.2, symbol);
            assert(is_first_symbol(w.2, symbol, i));
            assert(w1 == lock_stock(w, i, quantity));
            law_stock_lock_release_round_trip(w, i, quantity);
            Amount::lemma_add_exact(w.2[i].1.locked, quantity);
            assert forall|j: int| 0 <= j < w.2.len() implies (#[trigger] w1.2[j]).0 == w.2[j].0 by {
                if j != i {
                    assert(w1.2[j] == w.2[j]);
                }
            }
            lemma_symbol_index_kept(w, i, w1, symbol);
            let w2 = release_stock(w1, i, quantity);
            assert forall|j: int| 0 <= j < w.2.len() && j != i implies w2.2[j] == w.2[j] by {}
        },
    }
}

/// Law: a lock is granted exactly when the free balance covers it — a buy
/// needs available cash of at least price × quantity, a sell needs a
/// position whose available quantity is at least the quantity; locked funds
/// never count. When it is granted, the free balance goes down by that
/// amount and, where the subtraction is exact, stays non-negative.
pub proof fn law_lock_needs_free_funds(w: WalletState, symbol: Seq<char>, side: Side, price: Amount, quantity: Amount)
    ensures
        side == Side::Buy ==> (lock_outcome(w, symbol, side, price, quantity) is Ok <==> w.0.value() >= Amount::spec_mul(
            price,
            quantity,
        ).value()),
        side == Side::Sell ==> (lock_outcome(w, symbol, side, price, quantity) is Ok <==> holds_symbol(w.2, symbol)
            && w.2[symbol_index(w.2, symbol)].1.available.value() >= quantity.value()),
        ({
            let n = Amount::spec_mul(price, quantity);
            side == Side::Buy && lock_outcome(w, symbol, side, price, quantity) is Ok && w.0.is_valid() && n.is_valid()
                && exact_add_sub(w.0@, n@, -1) is Some ==> {
                let w1 = lock_outcome(w, symbol, side, price, quantity)->Ok_0;
                &&& w1.0.value() == w.0.value() - n.value()
                &&& w1.0.value() >= 0
            }
        }),
        ({
            let i = symbol_index(w.2, symbol);
            side == Side::Sell && lock_outcome(w, symbol, side, price, quantity) is Ok && w.2[i].1.available.is_valid()
                && quantity.is_valid() && exact_add_sub(w.2[i].1.available@, quantity@, -1) is Some ==> {
                let w1 = lock_outcome(w, symbol, side, price, quantity)->Ok_0;
                &&& w1.2[i].1.available.value() == w.2[i].1.available.value() - quantity.value()
                &&& w1.2[i].1.available.value() >= 0
            }
        }),
{
    let n = Amount::spec_mul(price, quantity);
    let i = symbol_index(w.2, symbol);
    if side == Side::Buy && lock_outcome(w, symbol, side, price, quantity) is Ok && w.0.is_valid() && n.is_valid()
        && exact_add_sub(w.0@, n@, -1) is Some {
        Amount::lemma_sub_exact(w.0, n);
    }
    if side == Side::Sell && lock_outcome(w, symbol, side, price, quantity) is Ok && w.2[i].1.available.is_valid()
        && quantity.is_valid() && exact_add_sub(w.2[i].1.available@, quantity@, -1) is Some {
        Amount::lemma_sub_exact(w.2[i].1.available, quantity);
    }
}

/// Law: a release is granted exactly when the locked balance covers it — a
/// buy needs locked cash of at least price × quantity, a sell needs a
/// position whose locked quantity is at least the quantity; available funds
/// never count. When it is granted, the locked balance goes down by that
/// amount and, where the subtraction is exact, stays non-negative.
pub proof fn law_release_needs_locked_funds(w: WalletState, symbol: Seq<char>, side: Side, price: Amount, quantity: Amount)
    ensures
        side == Side::Buy ==> (release_outcome(w, symbol, side, price, quantity) is Ok <==> w.1.value()
            >= Amount::spec_mul(price, quantity).value()),
        side == Side::Sell ==> (release_outcome(w, symbol, side, price, quantity) is Ok <==> holds_symbol(w.2, symbol)
            && w.2[symbol_index(w.2, symbol)].1.locked.value() >= quantity.value()),
        ({
            let n = Amount::spec_mul(price, quantity);
            side == Side::Buy && release_outcome(w, symbol, side, price, quantity) is Ok && w.1.is_valid() && n.is_valid()
                && exact_add_sub(w.1@, n@, -1) is Some ==> {
                let w1 = release_outcome(w, symbol, side, price, quantity)->Ok_0;
                &&& w1.1.value() == w.1.value() - n.value()
                &&& w1.1.value() >= 0
            }
        }),
        ({
            let i = symbol_index(w.2, symbol);
            side == Side::Sell && release_outcome(w, symbol, side, price, quantity) is Ok && w.2[i].1.locked.is_valid()
                && quantity.is_valid() && exact_add_sub(w.2[i].1.locked@, quantity@, -1) is Some ==> {
                let w1 = release_outcome(w, symbol, side, price, quantity)->Ok_0;
                &&& w1.2[i].1.locked.value() == w.2[i].1.locked.value() - quantity.value()
                &&& w1.2[i].1.locked.value() >= 0
            }
        }),
{
    let n = Amount::spec_mul(price, quantity);
    let i = symbol_index(w.2, symbol);
    if side == Side::Buy && release_outcome(w, symbol, side, price, quantity) is Ok && w.1.is_valid() && n.is_valid()
        && exact_add_sub(w.1@, n@, -1) is Some {
        Amount::lemma_sub_exact(w.1, n);
    }
    if side == Side::Sell && release_outcome(w, symbol, side, price, quantity) is Ok && w.2[i].1.locked.is_valid()
        && quantity.is_valid() && exact_add_sub(w.2[i].1.locked@, quantity@, -1) is Some {
        Amount::lemma_sub_exact(w.2[i].1.locked, quantity);
    }
}

} // verus!
