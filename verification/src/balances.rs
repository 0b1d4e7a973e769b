//! Account balances as an association list with unique keys, and the
//! replay of transaction sequences over it. Balance arithmetic saturates
//! at the extremes of the representable range, which replay states
//! explicitly through `clip_i128`.
use vstd::prelude::*;

use crate::transaction::Transaction;

verus! {

/// No two entries share an address.
pub open spec fn bal_keys_unique(b: Seq<(String, i128)>) -> bool {
    forall|i: int, j: int| 0 <= i < j < b.len() ==> (#[trigger] b[i]).0@ != (#[trigger] b[j]).0@
}

/// The balance recorded for `addr`: the first matching entry, or zero for
/// an unknown address.
pub open spec fn bal_lookup(b: Seq<(String, i128)>, addr: Seq<char>) -> int
    decreases b.len(),
{
    if b.len() == 0 {
        0
    } else if b[0].0@ == addr {
        b[0].1 as int
    } else {
        bal_lookup(b.drop_first(), addr)
    }
}

/// Saturation to the representable range.
pub open spec fn clip_i128(v: int) -> int {
    if v > i128::MAX {
        i128::MAX as int
    } else if v < i128::MIN {
        i128::MIN as int
    } else {
        v
    }
}

/// What one transaction does to the balance of `addr`: the sender is
/// debited, then the recipient credited.
pub open spec fn tx_effect(bal: int, t: Transaction, addr: Seq<char>) -> int {
    let debited = if t.from@ == addr {
        clip_i128(bal - t.amount)
    } else {
        bal
    };
    if t.to@ == addr {
        clip_i128(debited + t.amount)
    } else {
        debited
    }
}

/// The balance of `addr` after replaying `txs` in order from `start`.
pub open spec fn replay_txs(txs: Seq<Transaction>, addr: Seq<char>, start: int) -> int
    decreases txs.len(),
{
    if txs.len() == 0 {
        start
    } else {
        replay_txs(txs.drop_first(), addr, tx_effect(start, txs[0], addr))
    }
}

/// Replay distributes over concatenation.
pub proof fn lemma_replay_concat(s1: Seq<Transaction>, s2: Seq<Transaction>, addr: Seq<char>, start: int)
    ensures
        replay_txs(s1 + s2, addr, start) == replay_txs(s2, addr, replay_txs(s1, addr, start)),
    decreases s1.len(),
{
    if s1.len() == 0 {
        assert(s1 + s2 =~= s2);
    } else {
        assert((s1 + s2).drop_first() =~= s1.drop_first() + s2);
        assert((s1 + s2)[0] == s1[0]);
        lemma_replay_concat(s1.drop_first(), s2, addr, tx_effect(start, s1[0], addr));
    }
}

proof fn lemma_lookup_update(b: Seq<(String, i128)>, i: int, nv: (String, i128))
    requires
        0 <= i < b.len(),
        nv.0@ == b[i].0@,
        forall|j: int| 0 <= j < i ==> (#[trigger] b[j]).0@ != b[i].0@,
    ensures
        bal_lookup(b.update(i, nv), nv.0@) == nv.1 as int,
        forall|a: Seq<char>|
            a != nv.0@ ==> bal_lookup(b.update(i, nv), a) == #[trigger] bal_lookup(b, a),
    decreases b.len(),
{
    let u = b.update(i, nv);
    if i == 0 {
        assert(u[0] == nv);
        assert(u.drop_first() =~= b.drop_first());
        assert forall|a: Seq<char>| a != nv.0@ implies bal_lookup(u, a) == #[trigger] bal_lookup(
            b,
            a,
        ) by {
            assert(bal_lookup(u, a) == bal_lookup(u.drop_first(), a));
            assert(bal_lookup(b, a) == bal_lookup(b.drop_first(), a));
        }
    } else {
        assert(u[0] == b[0]);
        assert(b[0].0@ != nv.0@);
        assert(u.drop_first() =~= b.drop_first().update(i - 1, nv));
        assert(b.drop_first()[i - 1] == b[i]);
        lemma_lookup_update(b.drop_first(), i - 1, nv);
        assert(bal_lookup(u, nv.0@) == bal_lookup(u.drop_first(), nv.0@));
        assert forall|a: Seq<char>| a != nv.0@ implies bal_lookup(u, a) == #[trigger] bal_lookup(
            b,
            a,
        ) by {
            if a == b[0].0@ {
                assert(bal_lookup(u, a) == u[0].1 as int);
                assert(bal_lookup(b, a) == b[0].1 as int);
            } else {
                assert(bal_lookup(u, a) == bal_lookup(u.drop_first(), a));
                assert(bal_lookup(b.drop_first().update(i - 1, nv), a) == bal_lookup(
                    b.drop_first(),
                    a,
                ));
                assert(bal_lookup(b, a) == bal_lookup(b.drop_first(), a));
            }
        }
    }
}

proof fn lemma_lookup_push(b: Seq<(String, i128)>, e: (String, i128))
    requires
        forall|j: int| 0 <= j < b.len() ==> (#[trigger] b[j]).0@ != e.0@,
    ensures
        bal_lookup(b.push(e), e.0@) == e.1 as int,
        forall|a: Seq<char>|
            a != e.0@ ==> bal_lookup(b.push(e), a) == #[trigger] bal_lookup(b, a),
    decreases b.len(),
{
    let u = b.push(e);
    if b.len() == 0 {
        assert(u[0] == e);
        assert(u.drop_first() =~= Seq::<(String, i128)>::empty());
        assert forall|a: Seq<char>| a != e.0@ implies bal_lookup(u, a) == #[trigger] bal_lookup(
            b,
            a,
        ) by {
            assert(bal_lookup(u, a) == bal_lookup(u.drop_first(), a));
        }
    } else {
        assert(u[0] == b[0]);
        assert(u.drop_first() =~= b.drop_first().push(e));
        lemma_lookup_push(b.drop_first(), e);
        assert(b[0].0@ != e.0@);
        assert(bal_lookup(u, e.0@) == bal_lookup(u.drop_first(), e.0@));
        assert forall|a: Seq<char>| a != e.0@ implies bal_lookup(u, a) == #[trigger] bal_lookup(
            b,
            a,
        ) by {
            if a == b[0].0@ {
                assert(bal_lookup(u, a) == u[0].1 as int);
            } else {
                assert(bal_lookup(u, a) == bal_lookup(u.drop_first(), a));
                assert(bal_lookup(b.drop_first().push(e), a) == bal_lookup(b.drop_first(), a));
                assert(bal_lookup(b, a) == bal_lookup(b.drop_first(), a));
            }
        }
    }
}

/// A key that no entry holds looks up to zero.
pub proof fn lemma_lookup_absent(b: Seq<(String, i128)>, addr: Seq<char>)
    requires
        forall|j: int| 0 <= j < b.len() ==> (#[trigger] b[j]).0@ != addr,
    ensures
        bal_lookup(b, addr) == 0,
    decreases b.len(),
{
    if b.len() > 0 {
        lemma_lookup_absent(b.drop_first(), addr);
    }
}

/// Adds `d` to `b`, saturating at the ends of the range.
pub fn sat_add_i128(b: i128, d: i128) -> (r: i128)
    ensures
        r as int == clip_i128(b + d),
{
    if d >= 0 {
        if b <= i128::MAX - d {
            b + d
        } else {
            i128::MAX
        }
    } else {
        if b >= i128::MIN - d {
            b + d
        } else {
            i128::MIN
        }
    }
}

/// The balance recorded for `address`, as `bal_lookup` states it.
pub fn lookup_balance(balances: &Vec<(String, i128)>, address: &String) -> (r: i128)
    ensures
        r as int == bal_lookup(balances@, address@),
{
    let mut i: usize = 0;
    proof {
        assert(balances@.skip(0) =~= balances@);
    }
    while i < balances.len()
        invariant
            0 <= i <= balances@.len(),
            bal_lookup(balances@, address@) == bal_lookup(balances@.skip(i as int), address@),
        decreases balances@.len() - i,
    {
        proof {
            assert(balances@.skip(i as int)[0] == balances@[i as int]);
            assert(balances@.skip(i as int).drop_first() =~= balances@.skip(i as int + 1));
        }
        if balances[i].0 == *address {
            return balances[i].1;
        }
        i = i + 1;
    }
    proof {
        assert(balances@.skip(balances@.len() as int).len() == 0);
    }
    0
}

/// Moves the balance of `addr` by `delta` (saturating), leaving every
/// other address untouched and the keys unique.
pub fn adjust_balance(balances: &mut Vec<(String, i128)>, addr: &String, delta: i128)
    requires
        bal_keys_unique(old(balances)@),
    ensures
        bal_keys_unique(final(balances)@),
        bal_lookup(final(balances)@, addr@) == clip_i128(
            bal_lookup(old(balances)@, addr@) + delta,
        ),
        forall|a: Seq<char>|
            a != addr@ ==> bal_lookup(final(balances)@, a) == #[trigger] bal_lookup(
                old(balances)@,
                a,
            ),
{
    let ghost b0 = balances@;
    let mut i: usize = 0;
    while i < balances.len()
        invariant
            0 <= i <= balances@.len(),
            balances@ == b0,
            b0 == old(balances)@,
            bal_keys_unique(b0),
            forall|j: int| 0 <= j < i ==> (#[trigger] b0[j]).0@ != addr@,
        decreases balances@.len() - i,
    {
        if balances[i].0 == *addr {
            let current = balances[i].1;
            let updated = sat_add_i128(current, delta);
            let key = balances[i].0.clone();
            let ghost nv = (b0[i as int].0, updated);
            balances[i] = (key, updated);
            proof {
                assert(balances@ =~= b0.update(i as int, nv));
                lemma_lookup_update(b0, i as int, nv);
                assert(nv.0@ == addr@);
                lemma_lookup_skip_to(b0, addr@, i as int);
                assert(b0.skip(i as int)[0] == b0[i as int]);
                assert(bal_lookup(b0.skip(i as int), addr@) == b0[i as int].1 as int);
                assert forall|x: int, y: int|
                    0 <= x < y < balances@.len() implies (#[trigger] balances@[x]).0@ != (
                #[trigger] balances@[y]).0@ by {
                    assert(b0[x].0@ != b0[y].0@);
                    assert(balances@[x].0@ == b0[x].0@);
                    assert(balances@[y].0@ == b0[y].0@);
                }
            }
            return ;
        }
        i = i + 1;
    }
    let entry = (addr.clone(), sat_add_i128(0, delta));
    proof {
        lemma_lookup_absent(b0, addr@);
        lemma_lookup_push(b0, entry);
    }
    balances.push(entry);
    proof {
        assert(balances@ =~= b0.push(entry));
        assert forall|x: int, y: int|
            0 <= x < y < balances@.len() implies (#[trigger] balances@[x]).0@ != (
        #[trigger] balances@[y]).0@ by {
            if y < b0.len() {
            } else {
                assert(balances@[y].0@ == addr@);
                assert(balances@[x].0@ != addr@);
            }
        }
    }
}

proof fn lemma_lookup_skip_to(b: Seq<(String, i128)>, addr: Seq<char>, i: int)
    requires
        0 <= i <= b.len(),
        forall|j: int| 0 <= j < i ==> (#[trigger] b[j]).0@ != addr,
    ensures
        bal_lookup(b, addr) == bal_lookup(b.skip(i), addr),
    decreases i,
{
    if i > 0 {
        assert(b.drop_first() =~= b.skip(1));
        assert(b.skip(1).skip(i - 1) =~= b.skip(i));
        lemma_lookup_skip_to(b.skip(1), addr, i - 1);
    } else {
        assert(b.skip(0) =~= b);
    }
}

} // verus!
