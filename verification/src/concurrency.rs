//! Concurrency control: two-phase locking (2PL) with shared and exclusive
//! locks, and basic timestamp ordering with the Thomas write rule.

use std::collections::HashMap;
use vstd::prelude::*;

use crate::strmap::StrMap;
use crate::text::{decimal_text, u64_text};

verus! {

broadcast use vstd::std_specs::hash::group_hash_axioms;

/// Lock type.
#[derive(Debug, Clone, Copy, PartialEq, Eq, Structural)]
pub enum LockType {
    /// Read lock.
    Shared,
    /// Write lock.
    Exclusive,
}

/// The answer to a lock or unlock request.
#[derive(Debug, PartialEq, Clone)]
pub enum LockResult {
    Granted,
    Denied(String),
}

/// The answer as the specifications see it: `None` for granted, the reason
/// for a denial otherwise.
pub open spec fn lock_result_view(r: LockResult) -> Option<Seq<char>> {
    match r {
        LockResult::Granted => None,
        LockResult::Denied(msg) => Some(msg@),
    }
}

/// State of the lock on one item.
#[derive(Clone)]
struct LockState {
    lock_type: LockType,
    /// Transactions holding the lock.
    holders: Vec<usize>,
}

/// The state of a two-phase locking controller.
pub struct TplView {
    /// For each locked item: the lock type and the holders, in grant order.
    pub locks: Map<Seq<char>, (LockType, Seq<usize>)>,
    /// For each transaction seen: `true` while growing, `false` once shrinking.
    pub phase: Map<usize, bool>,
    /// For each transaction: the locks it was granted, in grant order.
    pub txn_locks: Map<usize, Seq<(Seq<char>, LockType)>>,
}

/// Two-Phase Locking (2PL) concurrency controller.
#[derive(Clone)]
pub struct TwoPhaseLocking {
    locks: StrMap<LockState>,
    phase: HashMap<usize, bool>,
    txn_locks: HashMap<usize, Vec<(String, LockType)>>,
}

// ---------------------------------------------------------------------------
// Specification of the controller.
// ---------------------------------------------------------------------------

/// Reason given to a transaction that asks for a lock after releasing one.
pub open spec fn shrinking_reason() -> Seq<char> {
    "Transaction in shrinking phase"@
}

/// Reason given when an upgrade is blocked by other readers.
pub open spec fn upgrade_reason() -> Seq<char> {
    "Cannot upgrade: other shared holders"@
}

/// Reason given when another transaction holds an incompatible lock.
pub open spec fn conflict_reason(item: Seq<char>) -> Seq<char> {
    "Lock conflict on "@ + item
}

/// Reason given when releasing a lock that the transaction does not hold.
pub open spec fn not_held_reason() -> Seq<char> {
    "Transaction does not hold this lock"@
}

/// Reason given when releasing a lock on an unlocked item.
pub open spec fn no_lock_reason() -> Seq<char> {
    "No lock on item"@
}

/// `s` with every occurrence of `t` removed.
pub open spec fn seq_without(s: Seq<usize>, t: usize) -> Seq<usize>
    decreases s.len(),
{
    if s.len() == 0 {
        s
    } else if s.last() == t {
        seq_without(s.drop_last(), t)
    } else {
        seq_without(s.drop_last(), t).push(s.last())
    }
}

/// `s` with every pair for `item` removed.
pub open spec fn pairs_without(s: Seq<(Seq<char>, LockType)>, item: Seq<char>) -> Seq<(Seq<char>, LockType)>
    decreases s.len(),
{
    if s.len() == 0 {
        s
    } else if s.last().0 == item {
        pairs_without(s.drop_last(), item)
    } else {
        pairs_without(s.drop_last(), item).push(s.last())
    }
}

/// `s` with every pair for `item` turned exclusive.
pub open spec fn pairs_upgraded(s: Seq<(Seq<char>, LockType)>, item: Seq<char>) -> Seq<(Seq<char>, LockType)> {
    s.map_values(|p: (Seq<char>, LockType)| if p.0 == item { (p.0, LockType::Exclusive) } else { p })
}

/// Records in `m` that `txn` was granted `(item, lt)`.
pub open spec fn record_grant(
    m: Map<usize, Seq<(Seq<char>, LockType)>>,
    txn: usize,
    item: Seq<char>,
    lt: LockType,
) -> Map<usize, Seq<(Seq<char>, LockType)>> {
    let prev = if m.contains_key(txn) { m[txn] } else { Seq::empty() };
    m.insert(txn, prev.push((item, lt)))
}

/// Releases `txn`'s hold on `item`: the lock goes when its last holder does.
pub open spec fn release_one(
    locks: Map<Seq<char>, (LockType, Seq<usize>)>,
    item: Seq<char>,
    txn: usize,
) -> Map<Seq<char>, (LockType, Seq<usize>)> {
    if locks.contains_key(item) {
        let hs = seq_without(locks[item].1, txn);
        if hs.len() == 0 {
            locks.remove(item)
        } else {
            locks.insert(item, (locks[item].0, hs))
        }
    } else {
        locks
    }
}

/// Releases `txn`'s holds on `items`, first to last.
pub open spec fn release_all(
    locks: Map<Seq<char>, (LockType, Seq<usize>)>,
    items: Seq<(Seq<char>, LockType)>,
    txn: usize,
) -> Map<Seq<char>, (LockType, Seq<usize>)>
    decreases items.len(),
{
    if items.len() == 0 {
        locks
    } else {
        release_one(release_all(locks, items.drop_last(), txn), items.last().0, txn)
    }
}

/// The controller's answer to a lock request and the state it leaves.
pub open spec fn lock_step(s: TplView, txn: usize, item: Seq<char>, lt: LockType) -> (TplView, Option<Seq<char>>) {
    if s.phase.contains_key(txn) && !s.phase[txn] {
        (s, Some(shrinking_reason()))
    } else {
        let s1 = TplView {
            phase: if s.phase.contains_key(txn) { s.phase } else { s.phase.insert(txn, true) },
            ..s
        };
        if !s1.locks.contains_key(item) {
            (
                TplView {
                    locks: s1.locks.insert(item, (lt, seq![txn])),
                    txn_locks: record_grant(s1.txn_locks, txn, item, lt),
                    ..s1
                },
                None,
            )
        } else {
            let cur = s1.locks[item].0;
            let holders = s1.locks[item].1;
            if holders.contains(txn) {
                if cur == LockType::Shared && lt == LockType::Exclusive {
                    if holders.len() == 1 {
                        (
                            TplView {
                                locks: s1.locks.insert(item, (LockType::Exclusive, holders)),
                                txn_locks: if s1.txn_locks.contains_key(txn) {
                                    s1.txn_locks.insert(txn, pairs_upgraded(s1.txn_locks[txn], item))
                                } else {
                                    s1.txn_locks
                                },
                                ..s1
                            },
                            None,
                        )
                    } else {
                        (s1, Some(upgrade_reason()))
                    }
                } else {
                    (s1, None)
                }
            } else if cur == LockType::Shared && lt == LockType::Shared {
                (
                    TplView {
                        locks: s1.locks.insert(item, (LockType::Shared, holders.push(txn))),
                        txn_locks: record_grant(s1.txn_locks, txn, item, lt),
                        ..s1
                    },
                    None,
                )
            } else {
                (s1, Some(conflict_reason(item)))
            }
        }
    }
}

/// The controller's answer to the release of one lock and the state it leaves.
pub open spec fn unlock_step(s: TplView, txn: usize, item: Seq<char>) -> (TplView, Option<Seq<char>>) {
    let s1 = TplView { phase: s.phase.insert(txn, false), ..s };
    if s1.locks.contains_key(item) {
        if s1.locks[item].1.contains(txn) {
            (
                TplView {
                    locks: release_one(s1.locks, item, txn),
                    txn_locks: if s1.txn_locks.contains_key(txn) {
                        s1.txn_locks.insert(txn, pairs_without(s1.txn_locks[txn], item))
                    } else {
                        s1.txn_locks
                    },
                    ..s1
                },
                None,
            )
        } else {
            (s1, Some(not_held_reason()))
        }
    } else {
        (s1, Some(no_lock_reason()))
    }
}

/// The state left by releasing all locks of `txn`.
pub open spec fn unlock_all_step(s: TplView, txn: usize) -> TplView {
    TplView {
        phase: s.phase.insert(txn, false),
        locks: if s.txn_locks.contains_key(txn) {
            release_all(s.locks, s.txn_locks[txn], txn)
        } else {
            s.locks
        },
        txn_locks: s.txn_locks.remove(txn),
    }
}

/// No two transactions hold conflicting locks: every lock has holders, none
/// twice, and an exclusive lock has exactly one.
pub open spec fn locks_compatible(locks: Map<Seq<char>, (LockType, Seq<usize>)>) -> bool {
    forall|item: Seq<char>|
        #[trigger] locks.contains_key(item) ==> {
            &&& locks[item].1.len() >= 1
            &&& locks[item].1.no_duplicates()
            &&& locks[item].0 == LockType::Exclusive ==> locks[item].1.len() == 1
        }
}


/// `t` is one of the holders of the lock on `item`.
pub open spec fn holds(locks: Map<Seq<char>, (LockType, Seq<usize>)>, t: usize, item: Seq<char>) -> bool {
    locks.contains_key(item) && locks[item].1.contains(t)
}

/// Some grant in `g` is on `item`.
pub open spec fn granted(g: Seq<(Seq<char>, LockType)>, item: Seq<char>) -> bool {
    exists|j: int| 0 <= j < g.len() && (#[trigger] g[j]).0 == item
}

/// Every lock a transaction holds is among the grants recorded for it.
pub open spec fn grants_cover(s: TplView) -> bool {
    forall|t: usize, item: Seq<char>| #[trigger] holds(s.locks, t, item) ==> s.txn_locks.contains_key(t) && granted(
        s.txn_locks[t],
        item,
    )
}

// ---------------------------------------------------------------------------
// Lemmas.
// ---------------------------------------------------------------------------

/// Releasing `txn`'s hold on `item` ends exactly that hold.
pub proof fn lemma_release_one_holds(locks: Map<Seq<char>, (LockType, Seq<usize>)>, item: Seq<char>, txn: usize, t: usize, item2: Seq<char>)
    ensures
        holds(release_one(locks, item, txn), t, item2) == (holds(locks, t, item2) && !(t == txn && item2 == item)),
{
    if locks.contains_key(item) {
        lemma_seq_without(locks[item].1, txn);
        let hs = seq_without(locks[item].1, txn);
        if item2 == item && t != txn && holds(locks, t, item2) {
            assert(hs.contains(t));
        }
    }
}

/// Releasing `txn`'s holds on the items of `items` ends exactly those holds.
pub proof fn lemma_release_all_holds(locks: Map<Seq<char>, (LockType, Seq<usize>)>, items: Seq<(Seq<char>, LockType)>, txn: usize, t: usize, item2: Seq<char>)
    ensures
        holds(release_all(locks, items, txn), t, item2) == (holds(locks, t, item2) && !(t == txn && granted(items, item2))),
    decreases items.len(),
{
    if items.len() > 0 {
        let pre = items.drop_last();
        lemma_release_all_holds(locks, pre, txn, t, item2);
        lemma_release_one_holds(release_all(locks, pre, txn), items.last().0, txn, t, item2);
        if granted(items, item2) {
            let j = choose|j: int| 0 <= j < items.len() && (#[trigger] items[j]).0 == item2;
            if j < pre.len() {
                assert(pre[j] == items[j]);
            }
        }
        if granted(pre, item2) {
            let j = choose|j: int| 0 <= j < pre.len() && (#[trigger] pre[j]).0 == item2;
            assert(items[j] == pre[j]);
        }
        if items.last().0 == item2 {
            assert(items[items.len() - 1].0 == item2);
        }
    }
}

/// Dropping the grants on `item` keeps the grants on every other item.
pub proof fn lemma_pairs_without_granted(g: Seq<(Seq<char>, LockType)>, item: Seq<char>, x: Seq<char>)
    ensures
        granted(pairs_without(g, item), x) == (granted(g, x) && x != item),
    decreases g.len(),
{
    if g.len() > 0 {
        let pre = g.drop_last();
        lemma_pairs_without_granted(pre, item, x);
        let r = pairs_without(g, item);
        let rp = pairs_without(pre, item);
        if granted(g, x) && x != item {
            let j = choose|j: int| 0 <= j < g.len() && (#[trigger] g[j]).0 == x;
            if j < pre.len() {
                assert(pre[j] == g[j]);
                let k = choose|k: int| 0 <= k < rp.len() && (#[trigger] rp[k]).0 == x;
                if g.last().0 != item {
                    assert(r[k] == rp[k]);
                }
            } else {
                assert(r[r.len() - 1] == g.last());
            }
        }
        if granted(r, x) {
            let k = choose|k: int| 0 <= k < r.len() && (#[trigger] r[k]).0 == x;
            if g.last().0 != item && k == r.len() - 1 {
                assert(g[g.len() - 1].0 == x);
            } else {
                assert(rp[k] == r[k]);
                let j = choose|j: int| 0 <= j < pre.len() && (#[trigger] pre[j]).0 == x;
                assert(g[j] == pre[j]);
            }
        }
    }
}

/// Grants recorded for a transaction stay recorded when one more is added or
/// when one is made exclusive.
pub proof fn lemma_granted_kept(g: Seq<(Seq<char>, LockType)>, item: Seq<char>, lt: LockType, x: Seq<char>)
    ensures
        granted(g, x) ==> granted(g.push((item, lt)), x),
        granted(g.push((item, lt)), item),
        granted(g, x) ==> granted(pairs_upgraded(g, item), x),
{
    assert(g.push((item, lt))[g.len() as int].0 == item);
    if granted(g, x) {
        let j = choose|j: int| 0 <= j < g.len() && (#[trigger] g[j]).0 == x;
        assert(g.push((item, lt))[j] == g[j]);
        assert(pairs_upgraded(g, item)[j].0 == x);
    }
}

/// Releasing holds never changes the type of a lock that stays.
pub proof fn lemma_release_keeps_type(locks: Map<Seq<char>, (LockType, Seq<usize>)>, items: Seq<(Seq<char>, LockType)>, txn: usize, x: Seq<char>)
    ensures
        release_all(locks, items, txn).contains_key(x) ==> locks.contains_key(x) && release_all(locks, items, txn)[x].0 == locks[x].0,
        release_one(locks, x, txn).contains_key(x) ==> locks.contains_key(x) && release_one(locks, x, txn)[x].0 == locks[x].0,
    decreases items.len(),
{
    if items.len() > 0 {
        lemma_release_keeps_type(locks, items.drop_last(), txn, x);
    }
}

/// An exclusive lock keeps other transactions out until its holder releases
/// it: another transaction's request for it is denied and changes no lock,
/// and nothing another transaction requests or releases ends the hold or
/// weakens it.
pub proof fn lemma_exclusive_kept(s: TplView, t: usize, item: Seq<char>, t2: usize, item2: Seq<char>, lt: LockType)
    requires
        locks_compatible(s.locks),
        holds(s.locks, t, item),
        s.locks[item].0 == LockType::Exclusive,
        t2 != t,
    ensures
        lock_step(s, t2, item, lt).1 is Some,
        lock_step(s, t2, item, lt).0.locks == s.locks,
        holds(lock_step(s, t2, item2, lt).0.locks, t, item),
        lock_step(s, t2, item2, lt).0.locks[item].0 == LockType::Exclusive,
        holds(unlock_step(s, t2, item2).0.locks, t, item),
        unlock_step(s, t2, item2).0.locks[item].0 == LockType::Exclusive,
        holds(unlock_all_step(s, t2).locks, t, item),
        unlock_all_step(s, t2).locks[item].0 == LockType::Exclusive,
{
    let hs = s.locks[item].1;
    assert(hs.len() == 1);
    assert(hs[0] == t);
    assert(!hs.contains(t2));
    lemma_release_one_holds(s.locks, item2, t2, t, item);
    lemma_release_keeps_type(s.locks, Seq::empty(), t2, item);
    if item2 == item {
        lemma_release_keeps_type(s.locks, Seq::empty(), t2, item2);
    } else {
        assert(release_one(s.locks, item2, t2).contains_key(item) ==> release_one(s.locks, item2, t2)[item] == s.locks[item]);
    }
    if s.txn_locks.contains_key(t2) {
        lemma_release_all_holds(s.locks, s.txn_locks[t2], t2, t, item);
        lemma_release_keeps_type(s.locks, s.txn_locks[t2], t2, item);
    }
}

/// Locks exclude each other. A request for an exclusive lock on an item
/// that another transaction holds, in either mode, is refused and changes no
/// lock; so is any request for an item that another transaction holds
/// exclusively. When an exclusive request is granted, the requester is then
/// the item's only holder; when a shared one is, the lock is shared and the
/// requester is among its holders.
pub proof fn lemma_lock_excludes(s: TplView, txn: usize, item: Seq<char>, t: usize, lt: LockType)
    requires
        locks_compatible(s.locks),
    ensures
        holds(s.locks, t, item) && t != txn ==> lock_step(s, txn, item, LockType::Exclusive).1 is Some
            && lock_step(s, txn, item, LockType::Exclusive).0.locks == s.locks,
        holds(s.locks, t, item) && t != txn && s.locks[item].0 == LockType::Exclusive ==> lock_step(s, txn, item, lt).1 is Some
            && lock_step(s, txn, item, lt).0.locks == s.locks,
        lock_step(s, txn, item, LockType::Exclusive).1 is None ==> lock_step(s, txn, item, LockType::Exclusive).0.locks[item]
            == (LockType::Exclusive, seq![txn]),
        lock_step(s, txn, item, LockType::Shared).1 is None ==> holds(lock_step(s, txn, item, LockType::Shared).0.locks, txn, item),
        lock_step(s, txn, item, LockType::Shared).1 is None && !holds(s.locks, txn, item) ==> lock_step(s, txn, item, LockType::Shared).0.locks[item].0
            == LockType::Shared,
{
    if s.locks.contains_key(item) {
        let hs = s.locks[item].1;
        if hs.contains(txn) && hs.len() == 1 {
            assert(hs =~= seq![txn]) by {
                let j = choose|j: int| 0 <= j < hs.len() && hs[j] == txn;
            }
        }
        if holds(s.locks, t, item) && t != txn && hs.contains(txn) {
            let j1 = choose|j: int| 0 <= j < hs.len() && hs[j] == t;
            let j2 = choose|j: int| 0 <= j < hs.len() && hs[j] == txn;
            assert(j1 != j2);
            assert(hs.len() >= 2);
        }
        if s.locks[item].0 == LockType::Exclusive && hs.contains(txn) {
            assert(hs.len() == 1);
            let j = choose|j: int| 0 <= j < hs.len() && hs[j] == txn;
            assert(hs =~= seq![txn]);
        }
        assert(seq![txn].contains(txn)) by {
            assert(seq![txn][0] == txn);
        }
        assert(hs.push(txn).contains(txn)) by {
            assert(hs.push(txn)[hs.len() as int] == txn);
        }
    } else {
        assert(seq![txn][0] == txn);
    }
}

/// Lock requests that raise no conflict are granted. After `txn` has
/// released a lock, every request of it is refused and changes nothing.
/// Otherwise a lock on a free item is granted in the mode asked; a shared
/// lock on an item held in shared mode by others is granted, joining them;
/// and a transaction that alone holds an item in shared mode may upgrade to
/// exclusive.
pub proof fn lemma_lock_grants(s: TplView, txn: usize, item: Seq<char>, lt: LockType)
    requires
        locks_compatible(s.locks),
    ensures
        s.phase.contains_key(txn) && !s.phase[txn] ==> lock_step(s, txn, item, lt) == (s, Some(shrinking_reason())),
        !(s.phase.contains_key(txn) && !s.phase[txn]) && !s.locks.contains_key(item) ==> lock_step(s, txn, item, lt).1 is None
            && lock_step(s, txn, item, lt).0.locks == s.locks.insert(item, (lt, seq![txn])),
        !(s.phase.contains_key(txn) && !s.phase[txn]) && s.locks.contains_key(item) && s.locks[item].0 == LockType::Shared
            && !holds(s.locks, txn, item) ==> lock_step(s, txn, item, LockType::Shared).1 is None
            && lock_step(s, txn, item, LockType::Shared).0.locks == s.locks.insert(item, (LockType::Shared, s.locks[item].1.push(txn))),
        !(s.phase.contains_key(txn) && !s.phase[txn]) && s.locks.contains_key(item) && s.locks[item] == (LockType::Shared, seq![txn])
            ==> lock_step(s, txn, item, LockType::Exclusive).1 is None
            && lock_step(s, txn, item, LockType::Exclusive).0.locks == s.locks.insert(item, (LockType::Exclusive, seq![txn])),
        !(s.phase.contains_key(txn) && !s.phase[txn]) ==> lock_step(s, txn, item, lt).0.phase[txn],
{
    if s.locks.contains_key(item) && s.locks[item] == (LockType::Shared, seq![txn]) {
        assert(s.locks[item].1[0] == txn);
        assert(s.locks[item].1.contains(txn));
    }
}

/// Releasing a lock: when `txn` holds the item, its hold ends and every
/// other hold stays as it was; otherwise the release is refused and no lock
/// changes. Either way `txn` enters its shrinking phase.
pub proof fn lemma_unlock_law(s: TplView, txn: usize, item: Seq<char>, t: usize, item2: Seq<char>)
    ensures
        holds(s.locks, txn, item) ==> unlock_step(s, txn, item).1 is None && !holds(unlock_step(s, txn, item).0.locks, txn, item),
        holds(s.locks, txn, item) && !(t == txn && item2 == item) ==> holds(unlock_step(s, txn, item).0.locks, t, item2)
            == holds(s.locks, t, item2),
        !holds(s.locks, txn, item) ==> unlock_step(s, txn, item).1 is Some && unlock_step(s, txn, item).0.locks == s.locks,
        unlock_step(s, txn, item).0.phase.contains_key(txn) && !unlock_step(s, txn, item).0.phase[txn],
{
    lemma_release_one_holds(s.locks, item, txn, txn, item);
    lemma_release_one_holds(s.locks, item, txn, t, item2);
}

/// Granting a lock keeps every held lock among its holder's grants.
pub proof fn lemma_lock_step_covered(s: TplView, txn: usize, item: Seq<char>, lt: LockType)
    requires
        grants_cover(s),
    ensures
        grants_cover(lock_step(s, txn, item, lt).0),
{
    let r = lock_step(s, txn, item, lt).0;
    assert forall|t: usize, it: Seq<char>| #[trigger] holds(r.locks, t, it) implies r.txn_locks.contains_key(t) && granted(r.txn_locks[t], it) by {
        let prev = if s.txn_locks.contains_key(t) { s.txn_locks[t] } else { Seq::empty() };
        lemma_granted_kept(prev, item, lt, it);
        if holds(s.locks, t, it) {
            assert(granted(s.txn_locks[t], it));
        }
    }
}

/// Releasing locks keeps every held lock among its holder's grants, and
/// after `unlock_all_step` the transaction holds no lock while the others
/// hold what they held.
pub proof fn lemma_unlock_steps_covered(s: TplView, txn: usize, item: Seq<char>)
    requires
        grants_cover(s),
    ensures
        grants_cover(unlock_step(s, txn, item).0),
        grants_cover(unlock_all_step(s, txn)),
        forall|it: Seq<char>| !holds(#[trigger] unlock_all_step(s, txn).locks, txn, it),
        forall|t: usize, it: Seq<char>| t != txn ==> holds(#[trigger] unlock_all_step(s, txn).locks, t, it) == holds(s.locks, t, it),
{
    let r = unlock_step(s, txn, item).0;
    assert forall|t: usize, it: Seq<char>| #[trigger] holds(r.locks, t, it) implies r.txn_locks.contains_key(t) && granted(r.txn_locks[t], it) by {
        lemma_release_one_holds(s.locks, item, txn, t, it);
        if s.txn_locks.contains_key(txn) {
            lemma_pairs_without_granted(s.txn_locks[txn], item, it);
        }
    }
    let u = unlock_all_step(s, txn);
    assert forall|t: usize, it: Seq<char>| holds(u.locks, t, it) == (holds(s.locks, t, it) && t != txn) by {
        if s.txn_locks.contains_key(txn) {
            lemma_release_all_holds(s.locks, s.txn_locks[txn], txn, t, it);
        }
    }
    assert forall|it: Seq<char>| !holds(#[trigger] u.locks, txn, it) by {
        assert(holds(u.locks, txn, it) == (holds(s.locks, txn, it) && txn != txn));
    }
    assert forall|t: usize, it: Seq<char>| t != txn implies holds(#[trigger] u.locks, t, it) == holds(s.locks, t, it) by {
        assert(holds(u.locks, t, it) == (holds(s.locks, t, it) && t != txn));
    }
    assert forall|t: usize, it: Seq<char>| #[trigger] holds(u.locks, t, it) implies u.txn_locks.contains_key(t) && granted(u.txn_locks[t], it) by {
        assert(holds(u.locks, t, it) == (holds(s.locks, t, it) && t != txn));
    }
}

/// Removing an element keeps a run free of duplicates, drops that element,
/// and keeps everything else.
pub proof fn lemma_seq_without(s: Seq<usize>, t: usize)
    ensures
        seq_without(s, t).len() <= s.len(),
        !seq_without(s, t).contains(t),
        forall|x: usize| x != t ==> (seq_without(s, t).contains(x) <==> s.contains(x)),
        s.no_duplicates() ==> seq_without(s, t).no_duplicates(),
        !s.contains(t) ==> seq_without(s, t) == s,
    decreases s.len(),
{
    if s.len() > 0 {
        let s0 = s.drop_last();
        lemma_seq_without(s0, t);
        let r0 = seq_without(s0, t);
        assert forall|x: usize| s.contains(x) <==> s0.contains(x) || x == s.last() by {
            if s.contains(x) {
                let i = choose|i: int| 0 <= i < s.len() && s[i] == x;
                if i < s0.len() {
                    assert(s0[i] == x);
                }
            }
            if s0.contains(x) {
                let i = choose|i: int| 0 <= i < s0.len() && s0[i] == x;
                assert(s[i] == x);
            }
            if x == s.last() {
                assert(s[s.len() - 1] == x);
            }
        }
        if s.last() != t {
            let r = r0.push(s.last());
            assert forall|x: usize| r.contains(x) <==> r0.contains(x) || x == s.last() by {
                if r.contains(x) {
                    let i = choose|i: int| 0 <= i < r.len() && r[i] == x;
                    if i < r0.len() {
                        assert(r0[i] == x);
                    }
                }
                if r0.contains(x) {
                    let i = choose|i: int| 0 <= i < r0.len() && r0[i] == x;
                    assert(r[i] == x);
                }
                if x == s.last() {
                    assert(r[r.len() - 1] == x);
                }
            }
            if s.no_duplicates() {
                assert(!s0.contains(s.last())) by {
                    if s0.contains(s.last()) {
                        let i = choose|i: int| 0 <= i < s0.len() && s0[i] == s.last();
                        assert(s[i] == s[s.len() - 1]);
                    }
                }
                assert forall|i: int, j: int| 0 <= i < r.len() && 0 <= j < r.len() && i != j implies r[i]
                    != r[j] by {
                    if i == r.len() - 1 {
                        assert(r0.contains(r[j]));
                    } else if j == r.len() - 1 {
                        assert(r0.contains(r[i]));
                    }
                }
            }
            if !s.contains(t) {
                assert(s0.push(s.last()) =~= s);
            }
        } else {
            assert(s.contains(t)) by {
                assert(s[s.len() - 1] == t);
            }
        }
    }
}

/// Releasing one hold keeps locks compatible.
pub proof fn lemma_release_one_compatible(
    locks: Map<Seq<char>, (LockType, Seq<usize>)>,
    item: Seq<char>,
    txn: usize,
)
    requires
        locks_compatible(locks),
    ensures
        locks_compatible(release_one(locks, item, txn)),
{
    if locks.contains_key(item) {
        lemma_seq_without(locks[item].1, txn);
        let r = release_one(locks, item, txn);
        assert forall|it: Seq<char>| #[trigger] r.contains_key(it) implies {
            &&& r[it].1.len() >= 1
            &&& r[it].1.no_duplicates()
            &&& r[it].0 == LockType::Exclusive ==> r[it].1.len() == 1
        } by {
            assert(locks.contains_key(it));
        }
    }
}

/// Releasing any run of holds keeps locks compatible.
pub proof fn lemma_release_all_compatible(
    locks: Map<Seq<char>, (LockType, Seq<usize>)>,
    items: Seq<(Seq<char>, LockType)>,
    txn: usize,
)
    requires
        locks_compatible(locks),
    ensures
        locks_compatible(release_all(locks, items, txn)),
    decreases items.len(),
{
    if items.len() > 0 {
        lemma_release_all_compatible(locks, items.drop_last(), txn);
        lemma_release_one_compatible(release_all(locks, items.drop_last(), txn), items.last().0, txn);
    }
}

/// Granting locks never lets two transactions hold conflicting locks.
pub proof fn lemma_lock_step_compatible(s: TplView, txn: usize, item: Seq<char>, lt: LockType)
    requires
        locks_compatible(s.locks),
    ensures
        locks_compatible(lock_step(s, txn, item, lt).0.locks),
{
    let r = lock_step(s, txn, item, lt).0.locks;
    if s.locks.contains_key(item) {
        let hs = s.locks[item].1;
        if !hs.contains(txn) {
            let h2 = hs.push(txn);
            assert forall|i: int, j: int| 0 <= i < h2.len() && 0 <= j < h2.len() && i != j implies h2[i]
                != h2[j] by {
                if i == h2.len() - 1 {
                    assert(h2[j] == hs[j]);
                } else if j == h2.len() - 1 {
                    assert(h2[i] == hs[i]);
                }
            }
        }
    }
    assert forall|it: Seq<char>| #[trigger] r.contains_key(it) implies {
        &&& r[it].1.len() >= 1
        &&& r[it].1.no_duplicates()
        &&& r[it].0 == LockType::Exclusive ==> r[it].1.len() == 1
    } by {
        if it != item {
            assert(s.locks.contains_key(it));
        } else if !s.locks.contains_key(item) {
            assert(r[it].1 =~= seq![txn]);
        }
    }
}

/// Releasing locks never lets two transactions hold conflicting locks.
pub proof fn lemma_unlock_steps_compatible(s: TplView, txn: usize, item: Seq<char>)
    requires
        locks_compatible(s.locks),
    ensures
        locks_compatible(unlock_step(s, txn, item).0.locks),
        locks_compatible(unlock_all_step(s, txn).locks),
{
    lemma_release_one_compatible(s.locks, item, txn);
    if s.txn_locks.contains_key(txn) {
        lemma_release_all_compatible(s.locks, s.txn_locks[txn], txn);
    }
}

/// The two-phase rule: once a transaction has released a lock, whether one
/// or all of them, every later lock request of it is denied and changes
/// nothing.
pub proof fn lemma_no_lock_after_release(s: TplView, txn: usize, item: Seq<char>, item2: Seq<char>, lt: LockType)
    ensures
        lock_step(unlock_step(s, txn, item).0, txn, item2, lt) == (unlock_step(s, txn, item).0, Some(
            shrinking_reason(),
        )),
        lock_step(unlock_all_step(s, txn), txn, item2, lt) == (unlock_all_step(s, txn), Some(
            shrinking_reason(),
        )),
{
}


// ---------------------------------------------------------------------------
// Executable code.
// ---------------------------------------------------------------------------

/// The granted locks of a transaction, as the specifications see them.
pub open spec fn grants_view(v: Seq<(String, LockType)>) -> Seq<(Seq<char>, LockType)> {
    v.map_values(|p: (String, LockType)| (p.0@, p.1))
}

/// Whether `x` occurs in `v`.
fn vec_contains(v: &Vec<usize>, x: usize) -> (r: bool)
    ensures
        r == v@.contains(x),
{
    let mut i: usize = 0;
    while i < v.len()
        invariant
            i <= v@.len(),
            forall|j: int| 0 <= j < i ==> v@[j] != x,
        decreases v@.len() - i,
    {
        if v[i] == x {
            return true;
        }
        i += 1;
    }
    false
}

/// `v` without the occurrences of `t`.
fn vec_without(v: &Vec<usize>, t: usize) -> (r: Vec<usize>)
    ensures
        r@ == seq_without(v@, t),
{
    let mut r: Vec<usize> = Vec::new();
    let mut i: usize = 0;
    while i < v.len()
        invariant
            i <= v@.len(),
            r@ == seq_without(v@.subrange(0, i as int), t),
        decreases v@.len() - i,
    {
        proof {
            assert(v@.subrange(0, i as int + 1).drop_last() =~= v@.subrange(0, i as int));
        }
        if v[i] != t {
            r.push(v[i]);
        }
        i += 1;
    }
    proof {
        assert(v@.subrange(0, i as int) =~= v@);
    }
    r
}

/// A copy of `v`.
fn vec_copy(v: &Vec<usize>) -> (r: Vec<usize>)
    ensures
        r@ == v@,
{
    let mut r: Vec<usize> = Vec::new();
    let mut i: usize = 0;
    while i < v.len()
        invariant
            i <= v@.len(),
            r@ == v@.subrange(0, i as int),
        decreases v@.len() - i,
    {
        r.push(v[i]);
        proof {
            assert(r@ =~= v@.subrange(0, i as int + 1));
        }
        i += 1;
    }
    proof {
        assert(v@.subrange(0, i as int) =~= v@);
    }
    r
}

/// `v` without its pairs for `item`.
fn grants_without(v: &Vec<(String, LockType)>, item: &str) -> (r: Vec<(String, LockType)>)
    ensures
        grants_view(r@) == pairs_without(grants_view(v@), item@),
{
    let k = item.to_owned();
    let mut r: Vec<(String, LockType)> = Vec::new();
    let mut i: usize = 0;
    while i < v.len()
        invariant
            i <= v@.len(),
            k@ == item@,
            grants_view(r@) == pairs_without(grants_view(v@.subrange(0, i as int)), item@),
        decreases v@.len() - i,
    {
        proof {
            assert(grants_view(v@.subrange(0, i as int + 1)).drop_last() =~= grants_view(
                v@.subrange(0, i as int),
            ));
        }
        if v[i].0 != k {
            let ghost prev = r@;
            r.push((v[i].0.clone(), v[i].1));
            proof {
                assert(grants_view(r@) =~= grants_view(prev).push((v@[i as int].0@, v@[i as int].1)));
            }
        }
        i += 1;
    }
    proof {
        assert(v@.subrange(0, i as int) =~= v@);
    }
    r
}

/// `v` with its pairs for `item` turned exclusive.
fn grants_upgraded(v: &Vec<(String, LockType)>, item: &str) -> (r: Vec<(String, LockType)>)
    ensures
        grants_view(r@) == pairs_upgraded(grants_view(v@), item@),
{
    let k = item.to_owned();
    let mut r: Vec<(String, LockType)> = Vec::new();
    let mut i: usize = 0;
    while i < v.len()
        invariant
            i <= v@.len(),
            k@ == item@,
            grants_view(r@) == pairs_upgraded(grants_view(v@.subrange(0, i as int)), item@),
        decreases v@.len() - i,
    {
        let ghost prev = r@;
        let lt = if v[i].0 == k {
            LockType::Exclusive
        } else {
            v[i].1
        };
        let name = v[i].0.clone();
        r.push((name, lt));
        proof {
            let p = (v@[i as int].0@, v@[i as int].1);
            assert(grants_view(r@) =~= grants_view(prev).push((name@, lt)));
            assert(grants_view(v@.subrange(0, i as int + 1)) =~= grants_view(v@.subrange(0, i as int)).push(p));
            assert(pairs_upgraded(grants_view(v@.subrange(0, i as int)).push(p), item@) =~= pairs_upgraded(
                grants_view(v@.subrange(0, i as int)),
                item@,
            ).push(if p.0 == item@ { (p.0, LockType::Exclusive) } else { p }));
        }
        i += 1;
    }
    proof {
        assert(v@.subrange(0, i as int) =~= v@);
    }
    r
}

impl View for TwoPhaseLocking {
    type V = TplView;

    closed spec fn view(&self) -> TplView {
        TplView {
            locks: self.locks@.map_values(|st: LockState| (st.lock_type, st.holders@)),
            phase: self.phase@,
            txn_locks: self.txn_locks@.map_values(|v: Vec<(String, LockType)>| grants_view(v@)),
        }
    }
}

impl TwoPhaseLocking {
    /// The lock table is well formed.
    pub closed spec fn table_wf(&self) -> bool {
        self.locks.wf()
    }

    /// The lock table is well formed and no two transactions hold
    /// conflicting locks.
    pub open spec fn table_ok(&self) -> bool {
        &&& self.table_wf()
        &&& locks_compatible(self@.locks)
    }

    /// The controller is well formed: its lock table is, and every lock a
    /// transaction holds is among the grants recorded for it.
    pub open spec fn wf(&self) -> bool {
        &&& self.table_ok()
        &&& grants_cover(self@)
    }

    /// A controller with no locks and no transactions.
    pub fn new() -> (r: Self)
        ensures
            r.wf(),
            r@.locks == Map::<Seq<char>, (LockType, Seq<usize>)>::empty(),
            r@.phase == Map::<usize, bool>::empty(),
            r@.txn_locks == Map::<usize, Seq<(Seq<char>, LockType)>>::empty(),
    {
        let r = TwoPhaseLocking { locks: StrMap::new(), phase: HashMap::new(), txn_locks: HashMap::new() };
        proof {
            assert(r@.locks =~= Map::<Seq<char>, (LockType, Seq<usize>)>::empty());
            assert(r@.txn_locks =~= Map::<usize, Seq<(Seq<char>, LockType)>>::empty());
        }
        r
    }

    /// Records a grant of `(item, lt)` to `txn`.
    fn record(&mut self, txn: usize, item: &str, lt: LockType)
        ensures
            final(self).locks == old(self).locks,
            final(self).phase == old(self).phase,
            final(self)@.txn_locks == record_grant(old(self)@.txn_locks, txn, item@, lt),
    {
        let ghost before = self@.txn_locks;
        let ghost raw = self.txn_locks@;
        let mut list = match self.txn_locks.remove(&txn) {
            Some(v) => v,
            None => Vec::new(),
        };
        let ghost prev = grants_view(list@);
        proof {
            if raw.contains_key(txn) {
                assert(prev == before[txn]);
            } else {
                assert(prev =~= Seq::<(Seq<char>, LockType)>::empty());
            }
        }
        let name = item.to_owned();
        list.push((name, lt));
        self.txn_locks.insert(txn, list);
        proof {
            assert(grants_view(list@) =~= prev.push((item@, lt)));
            assert(self.txn_locks@ =~= raw.insert(txn, list));
            assert(self@.txn_locks =~= record_grant(before, txn, item@, lt));
        }
    }

    /// Requests a lock of type `lock_type` on `item` for `txn`.
    pub fn lock(&mut self, txn: usize, item: &str, lock_type: LockType) -> (r: LockResult)
        requires
            old(self).wf(),
        ensures
            final(self).wf(),
            (final(self)@, lock_result_view(r)) == lock_step(old(self)@, txn, item@, lock_type),
    {
        let ghost s0 = self@;
        proof {
            lemma_lock_step_compatible(s0, txn, item@, lock_type);
            lemma_lock_step_covered(s0, txn, item@, lock_type);
        }
        match self.phase.get(&txn) {
            Some(p) => {
                if !*p {
                    return LockResult::Denied("Transaction in shrinking phase".to_owned());
                }
            },
            None => {
                self.phase.insert(txn, true);
            },
        }
        let ghost s1 = self@;
        proof {
            assert(s1 == lock_step_grow(s0, txn));
        }
        match self.locks.index_of(item) {
            None => {
                let mut holders: Vec<usize> = Vec::new();
                holders.push(txn);
                let ghost hv = holders@;
                self.locks.insert(item.to_owned(), LockState { lock_type, holders });
                self.record(txn, item, lock_type);
                proof {
                    assert(hv =~= seq![txn]);
                    assert(self@.locks =~= s1.locks.insert(item@, (lock_type, seq![txn])));
                    assert(self@ == lock_step(s0, txn, item@, lock_type).0);
                }
                LockResult::Granted
            },
            Some(idx) => {
                let (cur, is_holder, n_holders) = {
                    let (_, st) = self.locks.pair_at(idx);
                    (st.lock_type, vec_contains(&st.holders, txn), st.holders.len())
                };
                if is_holder {
                    if cur == LockType::Shared && lock_type == LockType::Exclusive {
                        if n_holders == 1 {
                            let holders = {
                                let (_, st) = self.locks.pair_at(idx);
                                vec_copy(&st.holders)
                            };
                            let ghost hv = holders@;
                            self.locks.set_at(idx, LockState { lock_type: LockType::Exclusive, holders });
                            let ghost before = self@.txn_locks;
                            match self.txn_locks.remove(&txn) {
                                Some(list) => {
                                    let up = grants_upgraded(&list, item);
                                    self.txn_locks.insert(txn, up);
                                    proof {
                                        assert(self@.txn_locks =~= before.insert(txn, pairs_upgraded(before[txn], item@)));
                                    }
                                },
                                None => {
                                    proof {
                                        assert(self@.txn_locks =~= before);
                                    }
                                },
                            }
                            proof {
                                assert(self@.locks =~= s1.locks.insert(item@, (LockType::Exclusive, hv)));
                                assert(self@.phase == lock_step(s0, txn, item@, lock_type).0.phase);
                                assert(self@.locks == lock_step(s0, txn, item@, lock_type).0.locks);
                                assert(self@.txn_locks == lock_step(s0, txn, item@, lock_type).0.txn_locks);
                            }
                            LockResult::Granted
                        } else {
                            proof {
                                assert(self@ == lock_step(s0, txn, item@, lock_type).0);
                            }
                            LockResult::Denied("Cannot upgrade: other shared holders".to_owned())
                        }
                    } else {
                        proof {
                            assert(self@ == lock_step(s0, txn, item@, lock_type).0);
                        }
                        LockResult::Granted
                    }
                } else if cur == LockType::Shared && lock_type == LockType::Shared {
                    let mut holders = {
                        let (_, st) = self.locks.pair_at(idx);
                        vec_copy(&st.holders)
                    };
                    holders.push(txn);
                    let ghost hv = holders@;
                    self.locks.set_at(idx, LockState { lock_type: LockType::Shared, holders });
                    self.record(txn, item, lock_type);
                    proof {
                        assert(self@.locks =~= s1.locks.insert(item@, (LockType::Shared, hv)));
                        assert(self@ == lock_step(s0, txn, item@, lock_type).0);
                    }
                    LockResult::Granted
                } else {
                    let mut msg = "Lock conflict on ".to_owned();
                    msg.append(item);
                    proof {
                        assert(self@ == lock_step(s0, txn, item@, lock_type).0);
                    }
                    LockResult::Denied(msg)
                }
            },
        }
    }

    /// Releases `txn`'s hold on `item` in the lock table.
    fn release(&mut self, txn: usize, item: &str)
        requires
            old(self).table_ok(),
        ensures
            final(self).table_ok(),
            final(self)@.locks == release_one(old(self)@.locks, item@, txn),
            final(self)@.phase == old(self)@.phase,
            final(self)@.txn_locks == old(self)@.txn_locks,
            final(self).txn_locks == old(self).txn_locks,
            final(self).phase == old(self).phase,
    {
        let ghost l0 = self@.locks;
        proof {
            lemma_release_one_compatible(l0, item@, txn);
        }
        match self.locks.index_of(item) {
            Some(idx) => {
                let (lt, holders) = {
                    let (_, st) = self.locks.pair_at(idx);
                    (st.lock_type, vec_without(&st.holders, txn))
                };
                if holders.len() == 0 {
                    self.locks.remove(item);
                    proof {
                        assert(self@.locks =~= l0.remove(item@));
                    }
                } else {
                    let ghost hv = holders@;
                    self.locks.set_at(idx, LockState { lock_type: lt, holders });
                    proof {
                        assert(self@.locks =~= l0.insert(item@, (lt, hv)));
                    }
                }
            },
            None => {},
        }
    }

    /// Releases every lock held by `txn`; the transaction enters its
    /// shrinking phase.
    pub fn unlock_all(&mut self, txn: usize)
        requires
            old(self).wf(),
        ensures
            final(self).wf(),
            final(self)@ == unlock_all_step(old(self)@, txn),
            forall|item: Seq<char>| !holds(#[trigger] final(self)@.locks, txn, item),
            forall|t: usize, item: Seq<char>| t != txn ==> holds(#[trigger] final(self)@.locks, t, item) == holds(old(self)@.locks, t, item),
    {
        let ghost s0 = self@;
        proof {
            lemma_unlock_steps_covered(s0, txn, Seq::empty());
        }
        self.phase.insert(txn, false);
        let ghost raw = self.txn_locks@;
        match self.txn_locks.remove(&txn) {
            Some(list) => {
                let ghost items = grants_view(list@);
                proof {
                    assert(items == s0.txn_locks[txn]);
                }
                let mut i: usize = 0;
                while i < list.len()
                    invariant
                        i <= list@.len(),
                        items == grants_view(list@),
                        self.table_ok(),
                        self@.locks == release_all(s0.locks, items.subrange(0, i as int), txn),
                        self@.phase == s0.phase.insert(txn, false),
                        self@.txn_locks == s0.txn_locks.remove(txn),
                    decreases list@.len() - i,
                {
                    self.release(txn, list[i].0.as_str());
                    proof {
                        assert(items.subrange(0, i as int + 1).drop_last() =~= items.subrange(0, i as int));
                    }
                    i += 1;
                }
                proof {
                    assert(items.subrange(0, i as int) =~= items);
                }
            },
            None => {
                proof {
                    assert(self@.txn_locks =~= s0.txn_locks.remove(txn));
                }
            },
        }
    }

    /// Releases `txn`'s lock on `item`; the transaction enters its shrinking
    /// phase whether or not it held the lock.
    pub fn unlock(&mut self, txn: usize, item: &str) -> (r: LockResult)
        requires
            old(self).wf(),
        ensures
            final(self).wf(),
            (final(self)@, lock_result_view(r)) == unlock_step(old(self)@, txn, item@),
    {
        let ghost s0 = self@;
        proof {
            lemma_unlock_steps_covered(s0, txn, item@);
        }
        self.phase.insert(txn, false);
        match self.locks.index_of(item) {
            Some(idx) => {
                let is_holder = {
                    let (_, st) = self.locks.pair_at(idx);
                    vec_contains(&st.holders, txn)
                };
                if is_holder {
                    self.release(txn, item);
                    let ghost before = self@.txn_locks;
                    match self.txn_locks.remove(&txn) {
                        Some(list) => {
                            let kept = grants_without(&list, item);
                            self.txn_locks.insert(txn, kept);
                            proof {
                                assert(self@.txn_locks =~= before.insert(txn, pairs_without(before[txn], item@)));
                            }
                        },
                        None => {
                            proof {
                                assert(self@.txn_locks =~= before);
                            }
                        },
                    }
                    proof {
                        assert(self@ == unlock_step(s0, txn, item@).0);
                    }
                    LockResult::Granted
                } else {
                    proof {
                        assert(self@ == unlock_step(s0, txn, item@).0);
                    }
                    LockResult::Denied("Transaction does not hold this lock".to_owned())
                }
            },
            None => {
                proof {
                    assert(self@ == unlock_step(s0, txn, item@).0);
                }
                LockResult::Denied("No lock on item".to_owned())
            },
        }
    }

    /// Whether `txn` holds a lock on `item`.
    pub fn holds_lock(&self, txn: usize, item: &str) -> (r: bool)
        requires
            self.wf(),
        ensures
            r == (self@.locks.contains_key(item@) && self@.locks[item@].1.contains(txn)),
    {
        match self.locks.get(item) {
            Some(st) => vec_contains(&st.holders, txn),
            None => false,
        }
    }

    /// Whether `txn` may still acquire locks: it has not entered its
    /// shrinking phase.
    pub fn is_compliant(&self, txn: usize) -> (r: bool)
        ensures
            r == !(self@.phase.contains_key(txn) && !self@.phase[txn]),
    {
        match self.phase.get(&txn) {
            Some(p) => *p,
            None => true,
        }
    }
}

/// The state after a lock request registers its transaction as growing.
pub open spec fn lock_step_grow(s: TplView, txn: usize) -> TplView {
    TplView { phase: if s.phase.contains_key(txn) { s.phase } else { s.phase.insert(txn, true) }, ..s }
}


// ---------------------------------------------------------------------------
// Timestamp ordering.
// ---------------------------------------------------------------------------

/// The state of a timestamp-ordering controller.
pub struct TsoView {
    /// Timestamp assigned to each transaction.
    pub timestamps: Map<usize, u64>,
    /// Largest timestamp of a transaction that read each item.
    pub read_ts: Map<Seq<char>, u64>,
    /// Timestamp of the transaction that last wrote each item.
    pub write_ts: Map<Seq<char>, u64>,
    /// Timestamp the next transaction will get.
    pub next_ts: u64,
}

/// Timestamp ordering concurrency controller.
#[derive(Clone)]
pub struct TimestampOrdering {
    timestamps: HashMap<usize, u64>,
    read_ts: StrMap<u64>,
    write_ts: StrMap<u64>,
    next_ts: u64,
}

/// The value under `k`, or 0.
pub open spec fn or_zero<K>(m: Map<K, u64>, k: K) -> u64 {
    if m.contains_key(k) {
        m[k]
    } else {
        0
    }
}

/// Why a read by a transaction with timestamp `ts` of an item written at
/// `w_ts` is rejected.
pub open spec fn read_too_late_reason(txn: usize, ts: u64, item: Seq<char>, w_ts: u64) -> Seq<char> {
    "Transaction "@ + decimal_text(txn as nat) + " (ts="@ + decimal_text(ts as nat)
        + ") trying to read "@ + item + " written by ts="@ + decimal_text(w_ts as nat)
        + ": too late"@
}

/// Why a write by a transaction with timestamp `ts` of an item read at
/// `r_ts` is rejected.
pub open spec fn write_too_late_reason(txn: usize, ts: u64, item: Seq<char>, r_ts: u64) -> Seq<char> {
    "Transaction "@ + decimal_text(txn as nat) + " (ts="@ + decimal_text(ts as nat)
        + ") trying to write "@ + item + " read by ts="@ + decimal_text(r_ts as nat)
        + ": too late"@
}

/// The controller's answer to a read and the state it leaves.
pub open spec fn read_step(s: TsoView, txn: usize, item: Seq<char>) -> (TsoView, Result<(), Seq<char>>) {
    let ts = or_zero(s.timestamps, txn);
    let w_ts = or_zero(s.write_ts, item);
    if ts < w_ts {
        (s, Err(read_too_late_reason(txn, ts, item, w_ts)))
    } else {
        let r_ts = or_zero(s.read_ts, item);
        (
            TsoView { read_ts: s.read_ts.insert(item, if r_ts >= ts { r_ts } else { ts }), ..s },
            Ok(()),
        )
    }
}

/// The controller's answer to a write and the state it leaves: a write
/// older than the item's last write is ignored (Thomas write rule).
pub open spec fn write_step(s: TsoView, txn: usize, item: Seq<char>) -> (TsoView, Result<(), Seq<char>>) {
    let ts = or_zero(s.timestamps, txn);
    let r_ts = or_zero(s.read_ts, item);
    let w_ts = or_zero(s.write_ts, item);
    if ts < r_ts {
        (s, Err(write_too_late_reason(txn, ts, item, r_ts)))
    } else if ts < w_ts {
        (s, Ok(()))
    } else {
        (TsoView { write_ts: s.write_ts.insert(item, ts), ..s }, Ok(()))
    }
}

/// Reads and writes never hand out or change timestamps, so with `new`
/// starting at 1 and `begin` returning the next one and counting up, the
/// transactions get 1, 2, 3, ... in the order they begin. A write older
/// than the item's readers is refused; one older only than its last write
/// is accepted and ignored (Thomas write rule); any other becomes the
/// item's write timestamp.
pub proof fn lemma_tso_steps(s: TsoView, txn: usize, item: Seq<char>)
    ensures
        read_step(s, txn, item).0.next_ts == s.next_ts,
        read_step(s, txn, item).0.timestamps == s.timestamps,
        write_step(s, txn, item).0.next_ts == s.next_ts,
        write_step(s, txn, item).0.timestamps == s.timestamps,
        or_zero(s.timestamps, txn) < or_zero(s.read_ts, item) ==> write_step(s, txn, item) == (s, Err::<(), Seq<char>>(
            write_too_late_reason(txn, or_zero(s.timestamps, txn), item, or_zero(s.read_ts, item)),
        )),
        or_zero(s.read_ts, item) <= or_zero(s.timestamps, txn) < or_zero(s.write_ts, item) ==> write_step(s, txn, item) == (s, Ok::<(), Seq<char>>(())),
        or_zero(s.read_ts, item) <= or_zero(s.timestamps, txn) && or_zero(s.write_ts, item) <= or_zero(s.timestamps, txn)
            ==> write_step(s, txn, item).0.write_ts == s.write_ts.insert(item, or_zero(s.timestamps, txn)),
{
}

/// The error text of a result, as the specifications see it.
pub open spec fn unit_result_view(r: Result<(), String>) -> Result<(), Seq<char>> {
    match r {
        Ok(()) => Ok(()),
        Err(e) => Err(e@),
    }
}

impl View for TimestampOrdering {
    type V = TsoView;

    closed spec fn view(&self) -> TsoView {
        TsoView {
            timestamps: self.timestamps@,
            read_ts: self.read_ts@,
            write_ts: self.write_ts@,
            next_ts: self.next_ts,
        }
    }
}

impl TimestampOrdering {
    /// The item tables are well formed.
    pub closed spec fn wf(&self) -> bool {
        self.read_ts.wf() && self.write_ts.wf()
    }

    /// A controller with no transactions; the first gets timestamp 1.
    pub fn new() -> (r: Self)
        ensures
            r.wf(),
            r@.timestamps == Map::<usize, u64>::empty(),
            r@.read_ts == Map::<Seq<char>, u64>::empty(),
            r@.write_ts == Map::<Seq<char>, u64>::empty(),
            r@.next_ts == 1,
    {
        TimestampOrdering {
            timestamps: HashMap::new(),
            read_ts: StrMap::new(),
            write_ts: StrMap::new(),
            next_ts: 1,
        }
    }

    /// Registers `txn` with the next timestamp, which it returns.
    pub fn begin(&mut self, txn: usize) -> (r: u64)
        requires
            old(self).wf(),
            old(self)@.next_ts < u64::MAX,
        ensures
            final(self).wf(),
            r == old(self)@.next_ts,
            final(self)@ == (TsoView {
                timestamps: old(self)@.timestamps.insert(txn, r),
                next_ts: (r + 1) as u64,
                ..old(self)@
            }),
    {
        let ts = self.next_ts;
        self.next_ts += 1;
        self.timestamps.insert(txn, ts);
        ts
    }

    fn ts(&self, txn: usize) -> (r: u64)
        ensures
            r == or_zero(self@.timestamps, txn),
    {
        match self.timestamps.get(&txn) {
            Some(t) => *t,
            None => 0,
        }
    }

    /// Tries to read `item` for `txn`: refused when a younger transaction
    /// already wrote it.
    pub fn read(&mut self, txn: usize, item: &str) -> (r: Result<(), String>)
        requires
            old(self).wf(),
        ensures
            final(self).wf(),
            (final(self)@, unit_result_view(r)) == read_step(old(self)@, txn, item@),
    {
        let ts = self.ts(txn);
        let w_ts = match self.write_ts.get(item) {
            Some(t) => *t,
            None => 0,
        };
        if ts < w_ts {
            let mut msg = "Transaction ".to_owned();
            msg.append(u64_text(txn as u64).as_str());
            msg.append(" (ts=");
            msg.append(u64_text(ts).as_str());
            msg.append(") trying to read ");
            msg.append(item);
            msg.append(" written by ts=");
            msg.append(u64_text(w_ts).as_str());
            msg.append(": too late");
            proof {
                assert(msg@ =~= read_too_late_reason(txn, ts, item@, w_ts));
            }
            return Err(msg);
        }
        let r_ts = match self.read_ts.get(item) {
            Some(t) => *t,
            None => 0,
        };
        let m = if r_ts >= ts {
            r_ts
        } else {
            ts
        };
        self.read_ts.insert(item.to_owned(), m);
        Ok(())
    }

    /// Tries to write `item` for `txn`: refused when a younger transaction
    /// already read it, ignored when a younger one already wrote it.
    pub fn write(&mut self, txn: usize, item: &str) -> (r: Result<(), String>)
        requires
            old(self).wf(),
        ensures
            final(self).wf(),
            (final(self)@, unit_result_view(r)) == write_step(old(self)@, txn, item@),
    {
        let ts = self.ts(txn);
        let r_ts = match self.read_ts.get(item) {
            Some(t) => *t,
            None => 0,
        };
        let w_ts = match self.write_ts.get(item) {
            Some(t) => *t,
            None => 0,
        };
        if ts < r_ts {
            let mut msg = "Transaction ".to_owned();
            msg.append(u64_text(txn as u64).as_str());
            msg.append(" (ts=");
            msg.append(u64_text(ts).as_str());
            msg.append(") trying to write ");
            msg.append(item);
            msg.append(" read by ts=");
            msg.append(u64_text(r_ts).as_str());
            msg.append(": too late");
            proof {
                assert(msg@ =~= write_too_late_reason(txn, ts, item@, r_ts));
            }
            return Err(msg);
        }
        if ts < w_ts {
            return Ok(());
        }
        self.write_ts.insert(item.to_owned(), ts);
        Ok(())
    }
}

/// One call on a timestamp-ordering controller.
pub enum TsoEvent {
    Begin(usize),
    Read(usize, Seq<char>),
    Write(usize, Seq<char>),
}

/// What `begin(txn)` does: `txn` gets the next timestamp, which counts up.
pub open spec fn begin_step(s: TsoView, txn: usize) -> (TsoView, u64) {
    (TsoView { timestamps: s.timestamps.insert(txn, s.next_ts), next_ts: (s.next_ts + 1) as u64, ..s }, s.next_ts)
}

/// The state after the calls `evs`, in order, from `s`.
pub open spec fn tso_run(s: TsoView, evs: Seq<TsoEvent>) -> TsoView
    decreases evs.len(),
{
    if evs.len() == 0 {
        s
    } else {
        let p = tso_run(s, evs.drop_last());
        match evs.last() {
            TsoEvent::Begin(t) => begin_step(p, t).0,
            TsoEvent::Read(t, item) => read_step(p, t, item).0,
            TsoEvent::Write(t, item) => write_step(p, t, item).0,
        }
    }
}

/// How many of `evs` are `begin` calls.
pub open spec fn begin_count(evs: Seq<TsoEvent>) -> nat
    decreases evs.len(),
{
    if evs.len() == 0 {
        0
    } else {
        begin_count(evs.drop_last()) + if evs.last() is Begin { 1nat } else { 0nat }
    }
}

/// Timestamps are handed out in order: after any calls the next timestamp
/// has grown by the number of `begin` calls, so the `begin` that follows
/// `k` earlier ones gets the first timestamp plus `k` (from `new`, the
/// transactions get 1, 2, 3, ...), and no timestamp is handed out twice.
pub proof fn lemma_timestamps_in_order(s: TsoView, evs: Seq<TsoEvent>)
    requires
        s.next_ts + begin_count(evs) <= u64::MAX,
    ensures
        tso_run(s, evs).next_ts == s.next_ts + begin_count(evs),
        forall|i: int|
            0 <= i < evs.len() && evs[i] is Begin ==> begin_step(tso_run(s, evs.take(i)), evs[i]->Begin_0).1
                == s.next_ts + begin_count(#[trigger] evs.take(i)),
    decreases evs.len(),
{
    if evs.len() > 0 {
        let e0 = evs.drop_last();
        lemma_begin_count_prefix(evs, evs.len() - 1);
        lemma_timestamps_in_order(s, e0);
        assert forall|i: int|
            0 <= i < evs.len() && evs[i] is Begin implies begin_step(tso_run(s, evs.take(i)), evs[i]->Begin_0).1
                == s.next_ts + begin_count(#[trigger] evs.take(i)) by {
            if i < evs.len() - 1 {
                assert(evs.take(i) =~= e0.take(i));
                assert(evs[i] == e0[i]);
            } else {
                assert(evs.take(i) =~= e0);
            }
        }
    }
}

/// The larger of two timestamps.
pub open spec fn ts_max(a: u64, b: u64) -> u64 {
    if a >= b {
        a
    } else {
        b
    }
}

/// The largest timestamp, as of each call, of the reads of `item` among
/// `evs` that succeeded, and of the read timestamp that `s` starts with.
pub open spec fn read_mark(s: TsoView, evs: Seq<TsoEvent>, item: Seq<char>) -> u64
    decreases evs.len(),
{
    if evs.len() == 0 {
        or_zero(s.read_ts, item)
    } else {
        let p = tso_run(s, evs.drop_last());
        let m = read_mark(s, evs.drop_last(), item);
        match evs.last() {
            TsoEvent::Read(t, it) => if it == item && read_step(p, t, it).1 is Ok {
                ts_max(m, or_zero(p.timestamps, t))
            } else {
                m
            },
            _ => m,
        }
    }
}

/// The largest timestamp, as of each call, of the writes of `item` among
/// `evs` that succeeded, and of the write timestamp that `s` starts with.
pub open spec fn write_mark(s: TsoView, evs: Seq<TsoEvent>, item: Seq<char>) -> u64
    decreases evs.len(),
{
    if evs.len() == 0 {
        or_zero(s.write_ts, item)
    } else {
        let p = tso_run(s, evs.drop_last());
        let m = write_mark(s, evs.drop_last(), item);
        match evs.last() {
            TsoEvent::Write(t, it) => if it == item && write_step(p, t, it).1 is Ok {
                ts_max(m, or_zero(p.timestamps, t))
            } else {
                m
            },
            _ => m,
        }
    }
}

/// Over any calls, an item's read timestamp is the largest timestamp of its
/// successful reads and its write timestamp that of its successful writes
/// (a write that the Thomas rule ignores is older than one of them). So a
/// read fails exactly when its transaction is older than the newest
/// successful write of the item, and a write fails exactly when it is
/// older than the newest successful read.
pub proof fn lemma_tso_history(s: TsoView, evs: Seq<TsoEvent>, item: Seq<char>, txn: usize)
    ensures
        or_zero(tso_run(s, evs).read_ts, item) == read_mark(s, evs, item),
        or_zero(tso_run(s, evs).write_ts, item) == write_mark(s, evs, item),
        read_step(tso_run(s, evs), txn, item).1 is Err <==> or_zero(tso_run(s, evs).timestamps, txn) < write_mark(
            s,
            evs,
            item,
        ),
        write_step(tso_run(s, evs), txn, item).1 is Err <==> or_zero(tso_run(s, evs).timestamps, txn) < read_mark(
            s,
            evs,
            item,
        ),
    decreases evs.len(),
{
    if evs.len() > 0 {
        lemma_tso_history(s, evs.drop_last(), item, txn);
        let p = tso_run(s, evs.drop_last());
        match evs.last() {
            TsoEvent::Begin(t) => {},
            TsoEvent::Read(t, it) => {
                if it != item {
                    assert(read_step(p, t, it).0.read_ts.remove(it) == p.read_ts.remove(it));
                }
            },
            TsoEvent::Write(t, it) => {},
        }
    }
}

/// A prefix holds no more `begin` calls than the whole.
proof fn lemma_begin_count_prefix(evs: Seq<TsoEvent>, i: int)
    requires
        0 <= i <= evs.len(),
    ensures
        begin_count(evs.take(i)) <= begin_count(evs),
    decreases evs.len(),
{
    if i < evs.len() {
        assert(evs.drop_last().take(i) =~= evs.take(i));
        lemma_begin_count_prefix(evs.drop_last(), i);
    } else {
        assert(evs.take(i) =~= evs);
    }
}

/// Timestamps only grow: after a read the item's read timestamp is at least
/// the reader's and at least what it was; a write never lowers an item's
/// write timestamp.
pub proof fn lemma_timestamps_monotone(s: TsoView, txn: usize, item: Seq<char>)
    ensures
        read_step(s, txn, item).1 is Ok ==> {
            &&& or_zero(read_step(s, txn, item).0.read_ts, item) >= or_zero(s.timestamps, txn)
            &&& or_zero(read_step(s, txn, item).0.read_ts, item) >= or_zero(s.read_ts, item)
        },
        or_zero(write_step(s, txn, item).0.write_ts, item) >= or_zero(s.write_ts, item),
        read_step(s, txn, item).1 is Ok <==> or_zero(s.timestamps, txn) >= or_zero(s.write_ts, item),
        write_step(s, txn, item).1 is Ok <==> or_zero(s.timestamps, txn) >= or_zero(s.read_ts, item),
{
}

} // verus!
