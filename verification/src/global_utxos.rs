//! The unspent-output index: for each address, the outputs the chain has
//! paid it that no input has spent, derived by scanning blocks above a
//! high-water mark.
use vstd::prelude::*;

use crate::block::Block;
use crate::blockchain::Blockchain;
use crate::bytes::digest_eq;
use crate::crypto::{sig_verifies, sig_verify};
use crate::transactions::Input;

verus! {

/// Whether `(bi, ti, oi)` names an output of the chain.
pub open spec fn valid_out_pos(c: Seq<Block>, bi: int, ti: int, oi: int) -> bool {
    &&& 0 <= bi < c.len()
    &&& 0 <= ti < c[bi].transactions@.len()
    &&& 0 <= oi < c[bi].transactions@[ti].outputs@.len()
}

/// Whether the output at `(bi, ti, oi)` pays `amt` to `a` under
/// transaction identifier `t`.
pub open spec fn out_matches(
    c: Seq<Block>,
    bi: int,
    ti: int,
    oi: int,
    a: Seq<u8>,
    amt: u64,
    t: Seq<u8>,
) -> bool {
    &&& (c[bi].transactions@[ti].outputs@[oi].address)@ == a
    &&& c[bi].transactions@[ti].outputs@[oi].amount == amt
    &&& c[bi].transactions@[ti].txid@ == t
}

/// Whether some block in positions `(lo, hi]` holds an output paying `amt`
/// to `a` under transaction identifier `t`.
pub open spec fn out_produced(
    c: Seq<Block>,
    lo: int,
    hi: int,
    a: Seq<u8>,
    amt: u64,
    t: Seq<u8>,
) -> bool {
    exists|bi: int, ti: int, oi: int|
        #![trigger out_matches(c, bi, ti, oi, a, amt, t)]
        valid_out_pos(c, bi, ti, oi) && lo < bi <= hi && out_matches(c, bi, ti, oi, a, amt, t)
}

/// Whether `(bi, ti, ii)` names an input of the chain.
pub open spec fn valid_in_pos(c: Seq<Block>, bi: int, ti: int, ii: int) -> bool {
    &&& 0 <= bi < c.len()
    &&& 0 <= ti < c[bi].transactions@.len()
    &&& 0 <= ii < c[bi].transactions@[ti].inputs@.len()
}

/// Whether the input at `(bi, ti, ii)` spends transaction identifier `t`
/// with a signature that verifies under address `a`.
pub open spec fn input_matches(
    c: Seq<Block>,
    bi: int,
    ti: int,
    ii: int,
    a: Seq<u8>,
    t: Seq<u8>,
) -> bool {
    &&& (c[bi].transactions@[ti].inputs@[ii].txid)@ == t
    &&& sig_verifies(a, c[bi].transactions@[ti].inputs@[ii].signature@, t)
}

/// Whether some block in positions `(lo, hi]` holds an input spending
/// transaction identifier `t` with a signature valid under `a`.
pub open spec fn spent(c: Seq<Block>, lo: int, hi: int, a: Seq<u8>, t: Seq<u8>) -> bool {
    exists|bi: int, ti: int, ii: int|
        #![trigger input_matches(c, bi, ti, ii, a, t)]
        valid_in_pos(c, bi, ti, ii) && lo < bi <= hi && input_matches(c, bi, ti, ii, a, t)
}

/// Whether the list holds the pair `(amt, t)`.
pub open spec fn pair_in(list: Seq<(u64, [u8; 32])>, amt: u64, t: Seq<u8>) -> bool {
    exists|j: int| 0 <= j < list.len() && (#[trigger] list[j]).0 == amt && (list[j].1)@ == t
}

/// Whether the index maps address `a` to an entry `(amt, t)`.
pub open spec fn index_has(
    s: Seq<([u8; 32], Vec<(u64, [u8; 32])>)>,
    a: Seq<u8>,
    amt: u64,
    t: Seq<u8>,
) -> bool {
    exists|i: int|
        0 <= i < s.len() && ((#[trigger] s[i]).0)@ == a && pair_in(s[i].1@, amt, t)
}

/// Whether the index holds a list for address `a`.
pub open spec fn has_key(s: Seq<([u8; 32], Vec<(u64, [u8; 32])>)>, a: Seq<u8>) -> bool {
    exists|i: int| 0 <= i < s.len() && ((#[trigger] s[i]).0)@ == a
}

/// Whether the observed-address list holds `a`.
pub open spec fn contains_key(vk: Seq<[u8; 32]>, a: Seq<u8>) -> bool {
    exists|i: int| 0 <= i < vk.len() && ((#[trigger] vk[i]))@ == a
}

/// Whether a list holds no repeated `(amount, txid)` pair.
pub open spec fn list_distinct(list: Seq<(u64, [u8; 32])>) -> bool {
    forall|p: int, q: int|
        0 <= p < q < list.len() ==> !((#[trigger] list[p]).0 == (#[trigger] list[q]).0
            && (list[p].1)@ == (list[q].1)@)
}

/// The derived index of unspent outputs: per-address entry lists, the
/// height up to which the chain has been scanned, and every address ever
/// seen receiving an output.
pub struct GlobalUtxos {
    pub utxos: Vec<([u8; 32], Vec<(u64, [u8; 32])>)>,
    pub known_blockchain_height: u32,
    pub verifying_keys: Vec<[u8; 32]>,
}

impl GlobalUtxos {
    /// What every reachable index satisfies: one list per address, no
    /// repeated pair within a list, and every address with a list among
    /// the observed addresses.
    pub open spec fn well_formed(&self) -> bool {
        &&& keys_unique(self.utxos@)
        &&& all_lists_distinct(self.utxos@)
        &&& forall|a: Seq<u8>|
            has_key(self.utxos@, a) ==> contains_key(self.verifying_keys@, a)
    }

    /// An empty index: nothing scanned, nothing observed.
    pub fn new() -> (r: GlobalUtxos)
        ensures
            r.well_formed(),
            r.utxos@.len() == 0,
            r.verifying_keys@.len() == 0,
            r.known_blockchain_height == 0,
    {
        GlobalUtxos { utxos: Vec::new(), verifying_keys: Vec::new(), known_blockchain_height: 0 }
    }

    /// The entry list the index holds for `address`, if any.
    pub fn get_utxos(&mut self, address: &[u8; 32]) -> (r: Option<&Vec<(u64, [u8; 32])>>)
        ensures
            *final(self) == *old(self),
            r is Some <==> has_key(old(self).utxos@, address@),
            r matches Some(v) ==> exists|i: int|
                0 <= i < old(self).utxos@.len() && ((#[trigger] old(self).utxos@[i]).0)@
                    == address@ && v@ == (old(self).utxos@[i].1)@,
    {
        let mut i: usize = 0;
        while i < self.utxos.len()
            invariant
                i <= self.utxos@.len(),
                self == old(self),
                forall|i2: int| 0 <= i2 < i ==> ((#[trigger] self.utxos@[i2]).0)@ != address@,
            decreases self.utxos@.len() - i,
        {
            if digest_eq(&self.utxos[i].0, address) {
                return Some(&self.utxos[i].1);
            }
            i = i + 1;
        }
        proof {
            assert(!has_key(self.utxos@, address@)) by {
                if has_key(self.utxos@, address@) {
                    let w = choose|w: int|
                        0 <= w < self.utxos@.len() && ((#[trigger] self.utxos@[w]).0)@ == address@;
                    assert(((self.utxos@[w]).0)@ != address@);
                }
            }
        }
        None
    }

    /// Records `addr` among the observed addresses, once.
    fn observe_address(&mut self, addr: &[u8; 32])
        ensures
            final(self).utxos@ == old(self).utxos@,
            final(self).known_blockchain_height == old(self).known_blockchain_height,
            forall|a: Seq<u8>|
                contains_key(final(self).verifying_keys@, a) <==> (contains_key(
                    old(self).verifying_keys@,
                    a,
                ) || a == addr@),
    {
        let ghost vk0 = self.verifying_keys@;
        let mut i: usize = 0;
        while i < self.verifying_keys.len()
            invariant
                i <= self.verifying_keys@.len(),
                self == old(self),
                vk0 == self.verifying_keys@,
                forall|i2: int| 0 <= i2 < i ==> ((#[trigger] self.verifying_keys@[i2]))@ != addr@,
            decreases self.verifying_keys@.len() - i,
        {
            if digest_eq(&self.verifying_keys[i], addr) {
                proof {
                    assert(contains_key(vk0, addr@));
                    assert forall|a: Seq<u8>|
                        contains_key(self.verifying_keys@, a) <==> (contains_key(vk0, a) || a
                            == addr@) by {
                        if a == addr@ {
                            assert(((self.verifying_keys@[i as int]))@ == addr@);
                        }
                    }
                }
                return ;
            }
            i = i + 1;
        }
        self.verifying_keys.push(*addr);
        proof {
            assert forall|a: Seq<u8>|
                contains_key(self.verifying_keys@, a) <==> (contains_key(vk0, a) || a == addr@) by {
                if contains_key(self.verifying_keys@, a) {
                    let w = choose|w: int|
                        0 <= w < self.verifying_keys@.len() && ((
                        #[trigger] self.verifying_keys@[w]))@ == a;
                    if w < vk0.len() {
                        assert(contains_key(vk0, a));
                    } else {
                        assert(a == addr@);
                    }
                }
                if contains_key(vk0, a) {
                    let w = choose|w: int|
                        0 <= w < vk0.len() && ((#[trigger] vk0[w]))@ == a;
                    assert(((self.verifying_keys@[w]))@ == a);
                }
                if a == addr@ {
                    assert(((self.verifying_keys@[vk0.len() as int]))@ == a);
                }
            }
        }
    }
    /// Adds the pair `(amount, txid)` to the list of `addr`, unless that
    /// very pair is already present; a first output for `addr` opens its
    /// list.
    fn add_output_entry(&mut self, addr: &[u8; 32], amount: u64, txid: &[u8; 32])
        requires
            keys_unique(old(self).utxos@),
            all_lists_distinct(old(self).utxos@),
        ensures
            keys_unique(final(self).utxos@),
            all_lists_distinct(final(self).utxos@),
            final(self).verifying_keys@ == old(self).verifying_keys@,
            final(self).known_blockchain_height == old(self).known_blockchain_height,
            forall|a: Seq<u8>|
                has_key(final(self).utxos@, a) <==> (has_key(old(self).utxos@, a) || a == addr@),
            forall|a: Seq<u8>, amt: u64, t: Seq<u8>|
                index_has(final(self).utxos@, a, amt, t) <==> (index_has(
                    old(self).utxos@,
                    a,
                    amt,
                    t,
                ) || (a == addr@ && amt == amount && t == txid@)),
    {
        let ghost s0 = self.utxos@;
        let mut ki: usize = 0;
        while ki < self.utxos.len()
            invariant
                ki <= self.utxos@.len(),
                self == old(self),
                s0 == self.utxos@,
                keys_unique(s0),
                all_lists_distinct(s0),
                forall|i2: int| 0 <= i2 < ki ==> ((#[trigger] self.utxos@[i2]).0)@ != addr@,
            decreases self.utxos@.len() - ki,
        {
            if digest_eq(&self.utxos[ki].0, addr) {
                let mut entry = self.utxos.remove(ki);
                let mut present = false;
                let mut j: usize = 0;
                while j < entry.1.len() && !present
                    invariant
                        j <= entry.1@.len(),
                        present ==> pair_in(entry.1@, amount, txid@),
                        !present ==> forall|j2: int|
                            0 <= j2 < j ==> !((#[trigger] entry.1@[j2]).0 == amount
                                && (entry.1@[j2].1)@ == txid@),
                    decreases entry.1@.len() - j + (if present { 0int } else { 1int }),
                {
                    if entry.1[j].0 == amount && digest_eq(&entry.1[j].1, txid) {
                        present = true;
                    } else {
                        j = j + 1;
                    }
                }
                let ghost list0 = entry.1@;
                if !present {
                    proof {
                        assert(!pair_in(list0, amount, txid@)) by {
                            if pair_in(list0, amount, txid@) {
                                let w = choose|w: int|
                                    0 <= w < list0.len() && (#[trigger] list0[w]).0 == amount && (
                                    list0[w].1)@ == txid@;
                                assert(!((list0[w]).0 == amount && (list0[w].1)@ == txid@));
                            }
                        }
                    }
                    entry.1.push((amount, *txid));
                    proof {
                        lemma_pair_in_push(list0, (amount, *txid));
                        assert forall|p: int, q: int| 0 <= p < q < entry.1@.len() implies !((
                        #[trigger] entry.1@[p]).0 == (#[trigger] entry.1@[q]).0 && (entry.1@[p].1)@
                            == (entry.1@[q].1)@) by {
                            if q == entry.1@.len() - 1 {
                                if (entry.1@[p]).0 == (entry.1@[q]).0 && (entry.1@[p].1)@ == (
                                entry.1@[q].1)@ {
                                    assert(entry.1@[p] == list0[p]);
                                    assert((#[trigger] list0[p]).0 == amount && (list0[p].1)@
                                        == txid@);
                                    assert(pair_in(list0, amount, txid@));
                                }
                            } else {
                                assert(entry.1@[p] == list0[p] && entry.1@[q] == list0[q]);
                            }
                        }
                    }
                }
                let ghost newlist = entry.1@;
                proof {
                    // Whether or not the pair was present, membership in the
                    // updated list is membership in the old one or the pair.
                    assert forall|amt: u64, t: Seq<u8>|
                        pair_in(newlist, amt, t) <==> (pair_in(list0, amt, t) || (amt == amount
                            && t == txid@)) by {
                        if present {
                        } else {
                            lemma_pair_in_push(list0, (amount, *txid));
                        }
                    }
                }
                self.utxos.insert(ki, entry);
                proof {
                    let sf = self.utxos@;
                    assert(sf =~= s0.update(ki as int, (s0[ki as int].0, entry.1)));
                    assert(((sf[ki as int]).0)@ == addr@);
                    lemma_index_update(s0, sf, ki as int);
                    assert forall|amt: u64, t: Seq<u8>|
                        pair_in((sf[ki as int].1)@, amt, t) <==> (pair_in(
                            (s0[ki as int].1)@,
                            amt,
                            t,
                        ) || (amt == amount && t == txid@)) by {}
                    assert forall|a: Seq<u8>, amt: u64, t: Seq<u8>|
                        index_has(sf, a, amt, t) <==> (index_has(s0, a, amt, t) || (a == addr@
                            && amt == amount && t == txid@)) by {
                        lemma_index_has_update(s0, sf, ki as int, addr@, amount, *txid, a, amt, t);
                    }
                    assert forall|a: Seq<u8>|
                        has_key(sf, a) <==> (has_key(s0, a) || a == addr@) by {
                        if has_key(sf, a) {
                            let w = choose|w: int|
                                0 <= w < sf.len() && ((#[trigger] sf[w]).0)@ == a;
                            assert(((s0[w]).0)@ == a);
                        }
                        if has_key(s0, a) {
                            let w = choose|w: int|
                                0 <= w < s0.len() && ((#[trigger] s0[w]).0)@ == a;
                            assert(((sf[w]).0)@ == a);
                        }
                        if a == addr@ {
                            assert(((sf[ki as int]).0)@ == a);
                        }
                    }
                }
                return ;
            }
            ki = ki + 1;
        }
        // No list for this address yet: open one with the single pair.
        let mut list: Vec<(u64, [u8; 32])> = Vec::new();
        list.push((amount, *txid));
        self.utxos.push((*addr, list));
        proof {
            let sf = self.utxos@;
            assert(sf.drop_last() =~= s0);
            assert(((sf[s0.len() as int]).0)@ == addr@);
            assert(!has_key(s0, addr@)) by {
                if has_key(s0, addr@) {
                    let w = choose|w: int| 0 <= w < s0.len() && ((#[trigger] s0[w]).0)@ == addr@;
                    assert(((s0[w]).0)@ != addr@);
                }
            }
            assert forall|a: Seq<u8>| has_key(sf, a) <==> (has_key(s0, a) || a == addr@) by {
                if has_key(sf, a) {
                    let w = choose|w: int| 0 <= w < sf.len() && ((#[trigger] sf[w]).0)@ == a;
                    if w < s0.len() {
                        assert(((s0[w]).0)@ == a);
                    }
                }
                if has_key(s0, a) {
                    let w = choose|w: int| 0 <= w < s0.len() && ((#[trigger] s0[w]).0)@ == a;
                    assert(((sf[w]).0)@ == a);
                }
                if a == addr@ {
                    assert(((sf[s0.len() as int]).0)@ == a);
                }
            }
            assert forall|a: Seq<u8>, amt: u64, t: Seq<u8>|
                index_has(sf, a, amt, t) <==> (index_has(s0, a, amt, t) || (a == addr@ && amt
                    == amount && t == txid@)) by {
                if index_has(sf, a, amt, t) {
                    let w = choose|w: int|
                        0 <= w < sf.len() && ((#[trigger] sf[w]).0)@ == a && pair_in(
                            sf[w].1@,
                            amt,
                            t,
                        );
                    if w < s0.len() {
                        assert(((s0[w]).0)@ == a && pair_in(s0[w].1@, amt, t));
                    } else {
                        let v = choose|v: int|
                            0 <= v < sf[w].1@.len() && (#[trigger] sf[w].1@[v]).0 == amt && (
                            sf[w].1@[v].1)@ == t;
                        assert(amt == amount && t == txid@);
                    }
                }
                if index_has(s0, a, amt, t) {
                    let w = choose|w: int|
                        0 <= w < s0.len() && ((#[trigger] s0[w]).0)@ == a && pair_in(
                            s0[w].1@,
                            amt,
                            t,
                        );
                    assert(((sf[w]).0)@ == a && pair_in(sf[w].1@, amt, t));
                }
                if a == addr@ && amt == amount && t == txid@ {
                    assert((#[trigger] sf[s0.len() as int].1@[0]).0 == amt);
                    assert(pair_in(sf[s0.len() as int].1@, amt, t));
                    assert(((sf[s0.len() as int]).0)@ == a);
                }
            }
            assert forall|p: int, q: int|
                0 <= p < q < sf.len() implies ((#[trigger] sf[p]).0)@ != ((#[trigger] sf[q]).0)@
                by {
                if q == sf.len() - 1 {
                    assert(((s0[p]).0)@ == ((sf[p]).0)@);
                    if ((sf[p]).0)@ == addr@ {
                        assert(has_key(s0, addr@));
                    }
                } else {
                    assert(((sf[p]).0)@ == ((s0[p]).0)@ && ((sf[q]).0)@ == ((s0[q]).0)@);
                }
            }
        }
    }
}

/// Membership in a list after pushing a pair is membership before, or the
/// pair itself.
proof fn lemma_pair_in_push(list: Seq<(u64, [u8; 32])>, p: (u64, [u8; 32]))
    ensures
        forall|amt: u64, t: Seq<u8>|
            pair_in(list.push(p), amt, t) <==> (pair_in(list, amt, t) || (amt == p.0 && t
                == p.1@)),
{
    assert forall|amt: u64, t: Seq<u8>|
        pair_in(list.push(p), amt, t) <==> (pair_in(list, amt, t) || (amt == p.0 && t == p.1@))
        by {
        let pushed = list.push(p);
        if pair_in(pushed, amt, t) {
            let w = choose|w: int|
                0 <= w < pushed.len() && (#[trigger] pushed[w]).0 == amt && (pushed[w].1)@ == t;
            if w < list.len() {
                assert((#[trigger] list[w]).0 == amt && (list[w].1)@ == t);
            }
        }
        if pair_in(list, amt, t) {
            let w = choose|w: int|
                0 <= w < list.len() && (#[trigger] list[w]).0 == amt && (list[w].1)@ == t;
            assert((#[trigger] pushed[w]).0 == amt && (pushed[w].1)@ == t);
        }
        if amt == p.0 && t == p.1@ {
            assert((#[trigger] pushed[list.len() as int]).0 == amt && (pushed[list.len() as int].1)@
                == t);
        }
    }
}

/// After updating position `ki` of the index, the other positions are
/// untouched.
proof fn lemma_index_update(
    s0: Seq<([u8; 32], Vec<(u64, [u8; 32])>)>,
    sf: Seq<([u8; 32], Vec<(u64, [u8; 32])>)>,
    ki: int,
)
    requires
        0 <= ki < s0.len(),
        sf.len() == s0.len(),
        forall|i: int| 0 <= i < s0.len() && i != ki ==> #[trigger] sf[i] == s0[i],
        (sf[ki].0)@ == (s0[ki].0)@,
    ensures
        forall|i: int| 0 <= i < s0.len() ==> ((#[trigger] sf[i]).0)@ == ((#[trigger] s0[i]).0)@,
{
}

/// One position's list changed as `pair_in(new) == pair_in(old) or the
/// pair`; membership across the whole index changes the same way, provided
/// keys are unique.
proof fn lemma_index_has_update(
    s0: Seq<([u8; 32], Vec<(u64, [u8; 32])>)>,
    sf: Seq<([u8; 32], Vec<(u64, [u8; 32])>)>,
    ki: int,
    addr: Seq<u8>,
    amount: u64,
    txid: [u8; 32],
    a: Seq<u8>,
    amt: u64,
    t: Seq<u8>,
)
    requires
        keys_unique(s0),
        0 <= ki < s0.len(),
        sf.len() == s0.len(),
        forall|i: int| 0 <= i < s0.len() && i != ki ==> #[trigger] sf[i] == s0[i],
        (sf[ki].0)@ == addr,
        (s0[ki].0)@ == addr,
        forall|amt2: u64, t2: Seq<u8>|
            pair_in((sf[ki].1)@, amt2, t2) <==> (pair_in((s0[ki].1)@, amt2, t2) || (amt2 == amount
                && t2 == txid@)),
    ensures
        index_has(sf, a, amt, t) <==> (index_has(s0, a, amt, t) || (a == addr && amt == amount
            && t == txid@)),
{
    if index_has(sf, a, amt, t) {
        let w = choose|w: int|
            0 <= w < sf.len() && ((#[trigger] sf[w]).0)@ == a && pair_in(sf[w].1@, amt, t);
        if w == ki {
            if pair_in((s0[ki].1)@, amt, t) {
                assert(((s0[ki]).0)@ == a && pair_in(s0[ki].1@, amt, t));
                assert(index_has(s0, a, amt, t));
            }
        } else {
            assert(((s0[w]).0)@ == a && pair_in(s0[w].1@, amt, t));
        }
    }
    if index_has(s0, a, amt, t) {
        let w = choose|w: int|
            0 <= w < s0.len() && ((#[trigger] s0[w]).0)@ == a && pair_in(s0[w].1@, amt, t);
        if w == ki {
            assert(((sf[ki]).0)@ == a && pair_in(sf[ki].1@, amt, t));
        } else {
            assert(((sf[w]).0)@ == a && pair_in(sf[w].1@, amt, t));
        }
    }
    if a == addr && amt == amount && t == txid@ {
        assert(((sf[ki]).0)@ == a && pair_in(sf[ki].1@, amt, t));
    }
}

/// The list without the pairs that carry `txid`, in order.
fn filter_txid(list: &Vec<(u64, [u8; 32])>, txid: &[u8; 32]) -> (r: Vec<(u64, [u8; 32])>)
    requires
        list_distinct(list@),
    ensures
        list_distinct(r@),
        forall|amt: u64, t: Seq<u8>|
            pair_in(r@, amt, t) <==> (pair_in(list@, amt, t) && t != txid@),
{
    let mut kept: Vec<(u64, [u8; 32])> = Vec::new();
    let mut i: usize = 0;
    while i < list.len()
        invariant
            i <= list@.len(),
            list_distinct(list@),
            list_distinct(kept@),
            forall|amt: u64, t: Seq<u8>|
                pair_in(kept@, amt, t) <==> (pair_in(list@.take(i as int), amt, t) && t
                    != txid@),
        decreases list@.len() - i,
    {
        let ghost k0 = kept@;
        let ghost pfx = list@.take(i as int);
        let p = list[i];
        proof {
            assert(list@.take(i + 1) =~= pfx.push(list@[i as int]));
            lemma_pair_in_push(pfx, list@[i as int]);
        }
        if !digest_eq(&p.1, txid) {
            proof {
                // The pair about to be kept cannot already be there: the
                // source list never repeats a pair.
                assert(!pair_in(k0, p.0, p.1@)) by {
                    if pair_in(k0, p.0, p.1@) {
                        let w = choose|w: int|
                            0 <= w < pfx.len() && (#[trigger] pfx[w]).0 == p.0 && (pfx[w].1)@
                                == p.1@;
                        assert(list@[w] == pfx[w]);
                        assert(!((#[trigger] list@[w]).0 == (#[trigger] list@[i as int]).0 && (
                        list@[w].1)@ == (list@[i as int].1)@));
                    }
                }
            }
            kept.push(p);
            proof {
                lemma_pair_in_push(k0, p);
                assert forall|x: int, q: int| 0 <= x < q < kept@.len() implies !((
                #[trigger] kept@[x]).0 == (#[trigger] kept@[q]).0 && (kept@[x].1)@ == (
                kept@[q].1)@) by {
                    if q == kept@.len() - 1 {
                        if (kept@[x]).0 == (kept@[q]).0 && (kept@[x].1)@ == (kept@[q].1)@ {
                            assert(kept@[x] == k0[x]);
                            assert((#[trigger] k0[x]).0 == p.0 && (k0[x].1)@ == p.1@);
                            assert(pair_in(k0, p.0, p.1@));
                        }
                    } else {
                        assert(kept@[x] == k0[x] && kept@[q] == k0[q]);
                    }
                }
                assert forall|amt: u64, t: Seq<u8>|
                    pair_in(kept@, amt, t) <==> (pair_in(list@.take(i + 1), amt, t) && t
                        != txid@) by {
                    assert(pair_in(kept@, amt, t) <==> (pair_in(k0, amt, t) || (amt == p.0 && t
                        == p.1@)));
                    assert(pair_in(list@.take(i + 1), amt, t) <==> (pair_in(pfx, amt, t) || (amt
                        == list@[i as int].0 && t == (list@[i as int].1)@)));
                }
            }
        } else {
            proof {
                assert forall|amt: u64, t: Seq<u8>|
                    pair_in(kept@, amt, t) <==> (pair_in(list@.take(i + 1), amt, t) && t
                        != txid@) by {
                    assert(pair_in(list@.take(i + 1), amt, t) <==> (pair_in(pfx, amt, t) || (amt
                        == list@[i as int].0 && t == (list@[i as int].1)@)));
                }
            }
        }
        i = i + 1;
    }
    proof {
        assert(list@.take(list@.len() as int) =~= list@);
    }
    kept
}

impl GlobalUtxos {
    /// Removes, from the list of every observed address whose key verifies
    /// the input's signature over the input's referenced identifier, all
    /// pairs carrying that identifier.
    fn remove_spent(&mut self, input: &Input)
        requires
            old(self).well_formed(),
        ensures
            final(self).well_formed(),
            final(self).verifying_keys@ == old(self).verifying_keys@,
            final(self).known_blockchain_height == old(self).known_blockchain_height,
            forall|a: Seq<u8>| has_key(final(self).utxos@, a) <==> has_key(old(self).utxos@, a),
            forall|a: Seq<u8>, amt: u64, t: Seq<u8>|
                index_has(final(self).utxos@, a, amt, t) <==> (index_has(old(self).utxos@, a, amt, t)
                    && !((input.txid)@ == t && sig_verifies(a, input.signature@, t))),
    {
        let ghost vk = self.verifying_keys@;
        proof {
            assert forall|a: Seq<u8>| !key_in_prefix(vk, 0, a) by {
                if key_in_prefix(vk, 0, a) {
                    let w = choose|w: int| 0 <= w < 0 && w < vk.len() && ((#[trigger] vk[w]))@ == a;
                }
            }
        }
        let mut ki: usize = 0;
        while ki < self.verifying_keys.len()
            invariant
                ki <= self.verifying_keys@.len(),
                self.verifying_keys@ == vk,
                vk == old(self).verifying_keys@,
                self.known_blockchain_height == old(self).known_blockchain_height,
                self.well_formed(),
                old(self).well_formed(),
                forall|a: Seq<u8>| has_key(self.utxos@, a) <==> has_key(old(self).utxos@, a),
                forall|a: Seq<u8>, amt: u64, t: Seq<u8>|
                    index_has(self.utxos@, a, amt, t) <==> (index_has(old(self).utxos@, a, amt, t)
                        && !((input.txid)@ == t && sig_verifies(a, input.signature@, t)
                        && key_in_prefix(vk, ki as int, a))),
            decreases self.verifying_keys@.len() - ki,
        {
            let key = self.verifying_keys[ki];
            let ghost s_pre = self.utxos@;
            if sig_verify(&key, &input.signature, &input.txid) {
                // This key owns the spent output: its list, if any, drops
                // every pair with the input's identifier.
                let mut i: usize = 0;
                let mut at: usize = 0;
                let mut found = false;
                while i < self.utxos.len() && !found
                    invariant
                        i <= self.utxos@.len(),
                        self.utxos@ == s_pre,
                        found ==> at < self.utxos@.len() && ((self.utxos@[at as int]).0)@ == key@,
                        !found ==> forall|i2: int|
                            0 <= i2 < i ==> ((#[trigger] self.utxos@[i2]).0)@ != key@,
                    decreases self.utxos@.len() - i + (if found { 0int } else { 1int }),
                {
                    if digest_eq(&self.utxos[i].0, &key) {
                        at = i;
                        found = true;
                    } else {
                        i = i + 1;
                    }
                }
                if found {
                    let entry = self.utxos.remove(at);
                    proof {
                        assert(list_distinct(entry.1@));
                    }
                    let filtered = filter_txid(&entry.1, &input.txid);
                    let newentry = (entry.0, filtered);
                    self.utxos.insert(at, newentry);
                    proof {
                        let sf = self.utxos@;
                        assert(sf =~= s_pre.update(at as int, newentry));
                        lemma_spent_key_update(s_pre, sf, at as int, key@, *input);
                    }
                } else {
                    proof {
                        // No list for this key: removing its entries is
                        // vacuous.
                        assert forall|a: Seq<u8>, amt: u64, t: Seq<u8>|
                            index_has(self.utxos@, a, amt, t) <==> (index_has(s_pre, a, amt, t)
                                && !(a == key@ && t == (input.txid)@)) by {
                            if index_has(s_pre, a, amt, t) && a == key@ {
                                let w = choose|w: int|
                                    0 <= w < s_pre.len() && ((#[trigger] s_pre[w]).0)@ == a
                                        && pair_in(s_pre[w].1@, amt, t);
                                assert(((s_pre[w]).0)@ != key@);
                            }
                        }
                    }
                }
                proof {
                    lemma_remove_step(old(self).utxos@, s_pre, self.utxos@, vk, ki as int, *input, key@);
                }
            } else {
                proof {
                    lemma_skip_step(old(self).utxos@, self.utxos@, vk, ki as int, *input, key@);
                }
            }
            ki = ki + 1;
        }
        proof {
            assert forall|a: Seq<u8>, amt: u64, t: Seq<u8>|
                index_has(self.utxos@, a, amt, t) <==> (index_has(old(self).utxos@, a, amt, t)
                    && !((input.txid)@ == t && sig_verifies(a, input.signature@, t))) by {
                if index_has(old(self).utxos@, a, amt, t) && (input.txid)@ == t && sig_verifies(
                    a,
                    input.signature@,
                    t,
                ) {
                    // Any address holding entries is observed, so its list
                    // was visited.
                    assert(has_key(old(self).utxos@, a)) by {
                        let w = choose|w: int|
                            0 <= w < old(self).utxos@.len() && ((#[trigger] old(self).utxos@[w]).0)@
                                == a && pair_in(old(self).utxos@[w].1@, amt, t);
                        assert(((old(self).utxos@[w]).0)@ == a);
                    }
                    assert(contains_key(vk, a));
                    let w = choose|w: int| 0 <= w < vk.len() && ((#[trigger] vk[w]))@ == a;
                    assert(key_in_prefix(vk, ki as int, a));
                }
            }
        }
    }
}

/// Whether the first `n` observed addresses include `a`.
pub open spec fn key_in_prefix(vk: Seq<[u8; 32]>, n: int, a: Seq<u8>) -> bool {
    exists|i: int| 0 <= i < n && i < vk.len() && ((#[trigger] vk[i]))@ == a
}

/// After replacing the list at `at` (key `key`) by one whose pairs are the
/// old ones without the input's identifier, index membership loses exactly
/// the matching entries of `key`.
proof fn lemma_spent_key_update(
    s0: Seq<([u8; 32], Vec<(u64, [u8; 32])>)>,
    sf: Seq<([u8; 32], Vec<(u64, [u8; 32])>)>,
    at: int,
    key: Seq<u8>,
    input: Input,
)
    requires
        keys_unique(s0),
        all_lists_distinct(s0),
        0 <= at < s0.len(),
        sf.len() == s0.len(),
        forall|i: int| 0 <= i < s0.len() && i != at ==> #[trigger] sf[i] == s0[i],
        (sf[at].0)@ == key,
        (s0[at].0)@ == key,
        list_distinct((sf[at].1)@),
        forall|amt: u64, t: Seq<u8>|
            pair_in((sf[at].1)@, amt, t) <==> (pair_in((s0[at].1)@, amt, t) && t != (input.txid)@),
    ensures
        keys_unique(sf),
        all_lists_distinct(sf),
        forall|a: Seq<u8>| has_key(sf, a) <==> has_key(s0, a),
        forall|a: Seq<u8>, amt: u64, t: Seq<u8>|
            index_has(sf, a, amt, t) <==> (index_has(s0, a, amt, t) && !(a == key && t
                == (input.txid)@)),
{
    assert(forall|i: int| 0 <= i < s0.len() ==> ((#[trigger] sf[i]).0)@ == ((#[trigger] s0[i]).0)@);
    assert forall|a: Seq<u8>| has_key(sf, a) <==> has_key(s0, a) by {
        if has_key(sf, a) {
            let w = choose|w: int| 0 <= w < sf.len() && ((#[trigger] sf[w]).0)@ == a;
            assert(((s0[w]).0)@ == a);
        }
        if has_key(s0, a) {
            let w = choose|w: int| 0 <= w < s0.len() && ((#[trigger] s0[w]).0)@ == a;
            assert(((sf[w]).0)@ == a);
        }
    }
    assert forall|i: int| 0 <= i < sf.len() implies list_distinct(((#[trigger] sf[i]).1)@) by {
        if i != at {
            assert(sf[i] == s0[i]);
        }
    }
    assert forall|a: Seq<u8>, amt: u64, t: Seq<u8>|
        index_has(sf, a, amt, t) <==> (index_has(s0, a, amt, t) && !(a == key && t
            == (input.txid)@)) by {
        if index_has(sf, a, amt, t) {
            let w = choose|w: int|
                0 <= w < sf.len() && ((#[trigger] sf[w]).0)@ == a && pair_in(sf[w].1@, amt, t);
            if w == at {
                assert(((s0[w]).0)@ == a && pair_in(s0[w].1@, amt, t));
                assert(t != (input.txid)@);
            } else {
                assert(((s0[w]).0)@ == a && pair_in(s0[w].1@, amt, t));
                if a == key && t == (input.txid)@ {
                    // Keys are unique, so `a == key` forces `w == at`.
                    assert(((s0[at]).0)@ == ((s0[w]).0)@);
                    assert(false);
                }
            }
        }
        if index_has(s0, a, amt, t) && !(a == key && t == (input.txid)@) {
            let w = choose|w: int|
                0 <= w < s0.len() && ((#[trigger] s0[w]).0)@ == a && pair_in(s0[w].1@, amt, t);
            if w == at {
                assert(a == key);
                assert(pair_in(sf[at].1@, amt, t));
                assert(((sf[w]).0)@ == a);
            } else {
                assert(((sf[w]).0)@ == a && pair_in(sf[w].1@, amt, t));
            }
        }
    }
}

/// One more observed address, whose key verifies the signature, extends
/// the removed region by that address.
proof fn lemma_remove_step(
    sorig: Seq<([u8; 32], Vec<(u64, [u8; 32])>)>,
    spre: Seq<([u8; 32], Vec<(u64, [u8; 32])>)>,
    spost: Seq<([u8; 32], Vec<(u64, [u8; 32])>)>,
    vk: Seq<[u8; 32]>,
    ki: int,
    input: Input,
    key: Seq<u8>,
)
    requires
        0 <= ki < vk.len(),
        (vk[ki])@ == key,
        sig_verifies(key, input.signature@, (input.txid)@),
        forall|a: Seq<u8>, amt: u64, t: Seq<u8>|
            index_has(spre, a, amt, t) <==> (index_has(sorig, a, amt, t) && !((input.txid)@ == t
                && sig_verifies(a, input.signature@, t) && key_in_prefix(vk, ki, a))),
        forall|a: Seq<u8>, amt: u64, t: Seq<u8>|
            index_has(spost, a, amt, t) <==> (index_has(spre, a, amt, t) && !(a == key && t
                == (input.txid)@)),
    ensures
        forall|a: Seq<u8>, amt: u64, t: Seq<u8>|
            index_has(spost, a, amt, t) <==> (index_has(sorig, a, amt, t) && !((input.txid)@ == t
                && sig_verifies(a, input.signature@, t) && key_in_prefix(vk, ki + 1, a))),
{
    assert forall|a: Seq<u8>, amt: u64, t: Seq<u8>|
        index_has(spost, a, amt, t) <==> (index_has(sorig, a, amt, t) && !((input.txid)@ == t
            && sig_verifies(a, input.signature@, t) && key_in_prefix(vk, ki + 1, a))) by {
        assert(key_in_prefix(vk, ki + 1, a) <==> (key_in_prefix(vk, ki, a) || a == key)) by {
            if key_in_prefix(vk, ki + 1, a) {
                let w = choose|w: int| 0 <= w < ki + 1 && w < vk.len() && ((#[trigger] vk[w]))@ == a;
                if w < ki {
                    assert(key_in_prefix(vk, ki, a));
                }
            }
            if key_in_prefix(vk, ki, a) {
                let w = choose|w: int| 0 <= w < ki && w < vk.len() && ((#[trigger] vk[w]))@ == a;
                assert(0 <= w < ki + 1 && ((vk[w]))@ == a);
            }
            if a == key {
                assert(0 <= ki < ki + 1 && ((vk[ki]))@ == a);
            }
        }
    }
}

/// An observed address whose key does not verify the signature leaves the
/// removed region unchanged.
proof fn lemma_skip_step(
    sorig: Seq<([u8; 32], Vec<(u64, [u8; 32])>)>,
    spre: Seq<([u8; 32], Vec<(u64, [u8; 32])>)>,
    vk: Seq<[u8; 32]>,
    ki: int,
    input: Input,
    key: Seq<u8>,
)
    requires
        0 <= ki < vk.len(),
        (vk[ki])@ == key,
        !sig_verifies(key, input.signature@, (input.txid)@),
        forall|a: Seq<u8>, amt: u64, t: Seq<u8>|
            index_has(spre, a, amt, t) <==> (index_has(sorig, a, amt, t) && !((input.txid)@ == t
                && sig_verifies(a, input.signature@, t) && key_in_prefix(vk, ki, a))),
    ensures
        forall|a: Seq<u8>, amt: u64, t: Seq<u8>|
            index_has(spre, a, amt, t) <==> (index_has(sorig, a, amt, t) && !((input.txid)@ == t
                && sig_verifies(a, input.signature@, t) && key_in_prefix(vk, ki + 1, a))),
{
    assert forall|a: Seq<u8>, amt: u64, t: Seq<u8>|
        index_has(spre, a, amt, t) <==> (index_has(sorig, a, amt, t) && !((input.txid)@ == t
            && sig_verifies(a, input.signature@, t) && key_in_prefix(vk, ki + 1, a))) by {
        assert(key_in_prefix(vk, ki + 1, a) <==> (key_in_prefix(vk, ki, a) || a == key)) by {
            if key_in_prefix(vk, ki + 1, a) {
                let w = choose|w: int| 0 <= w < ki + 1 && w < vk.len() && ((#[trigger] vk[w]))@ == a;
                if w < ki {
                    assert(key_in_prefix(vk, ki, a));
                }
            }
            if key_in_prefix(vk, ki, a) {
                let w = choose|w: int| 0 <= w < ki && w < vk.len() && ((#[trigger] vk[w]))@ == a;
                assert(0 <= w < ki + 1 && ((vk[w]))@ == a);
            }
            if a == key {
                assert(0 <= ki < ki + 1 && ((vk[ki]))@ == a);
            }
        }
    }
}

/// Whether, among the outputs of `txs` that stand strictly before output
/// `oi` of transaction `ti`, one pays `amt` to `a` under identifier `t`.
pub open spec fn produced_in_prefix(
    txs: Seq<crate::transactions::Tx>,
    ti: int,
    oi: int,
    a: Seq<u8>,
    amt: u64,
    t: Seq<u8>,
) -> bool {
    exists|t2: int, o2: int|
        #![trigger txs[t2].outputs@[o2]]
        0 <= t2 < txs.len() && 0 <= o2 < txs[t2].outputs@.len() && (t2 < ti || (t2 == ti && o2
            < oi)) && txs[t2].txid@ == t && txs[t2].outputs@[o2].amount == amt && (
        txs[t2].outputs@[o2].address)@ == a
}

/// Whether, among the inputs of `txs` that stand strictly before input
/// `ii` of transaction `ti`, one spends `t` with a signature valid under
/// `a`.
pub open spec fn spent_in_prefix(
    txs: Seq<crate::transactions::Tx>,
    ti: int,
    ii: int,
    a: Seq<u8>,
    t: Seq<u8>,
) -> bool {
    exists|t2: int, i2: int|
        #![trigger txs[t2].inputs@[i2]]
        0 <= t2 < txs.len() && 0 <= i2 < txs[t2].inputs@.len() && (t2 < ti || (t2 == ti && i2
            < ii)) && (txs[t2].inputs@[i2].txid)@ == t && sig_verifies(
            a,
            txs[t2].inputs@[i2].signature@,
            t,
        )
}

/// No output or input stands before the first position.
proof fn lemma_prefix_start(txs: Seq<crate::transactions::Tx>)
    ensures
        forall|a: Seq<u8>, amt: u64, t: Seq<u8>| !produced_in_prefix(txs, 0, 0, a, amt, t),
        forall|a: Seq<u8>, t: Seq<u8>| !spent_in_prefix(txs, 0, 0, a, t),
{
    assert forall|a: Seq<u8>, amt: u64, t: Seq<u8>| !produced_in_prefix(txs, 0, 0, a, amt, t) by {
        if produced_in_prefix(txs, 0, 0, a, amt, t) {
            let (t2, o2) = choose|t2: int, o2: int|
                0 <= t2 < txs.len() && 0 <= o2 < txs[t2].outputs@.len() && (t2 < 0 || (t2 == 0
                    && o2 < 0)) && txs[t2].txid@ == t && (#[trigger] txs[t2].outputs@[o2]).amount
                    == amt && (txs[t2].outputs@[o2].address)@ == a;
            assert(false);
        }
    }
    assert forall|a: Seq<u8>, t: Seq<u8>| !spent_in_prefix(txs, 0, 0, a, t) by {
        if spent_in_prefix(txs, 0, 0, a, t) {
            let (t2, i2) = choose|t2: int, i2: int|
                0 <= t2 < txs.len() && 0 <= i2 < txs[t2].inputs@.len() && (t2 < 0 || (t2 == 0 && i2
                    < 0)) && ((#[trigger] txs[t2].inputs@[i2]).txid)@ == t && sig_verifies(
                    a,
                    txs[t2].inputs@[i2].signature@,
                    t,
                );
            assert(false);
        }
    }
}

/// Advancing the scan over one output adds exactly that output.
proof fn lemma_produced_prefix_step(txs: Seq<crate::transactions::Tx>, ti: int, oi: int)
    requires
        0 <= ti < txs.len(),
        0 <= oi < txs[ti].outputs@.len(),
    ensures
        forall|a: Seq<u8>, amt: u64, t: Seq<u8>|
            produced_in_prefix(txs, ti, oi + 1, a, amt, t) <==> (produced_in_prefix(
                txs,
                ti,
                oi,
                a,
                amt,
                t,
            ) || ((txs[ti].outputs@[oi].address)@ == a && txs[ti].outputs@[oi].amount == amt
                && txs[ti].txid@ == t)),
{
    assert forall|a: Seq<u8>, amt: u64, t: Seq<u8>|
        produced_in_prefix(txs, ti, oi + 1, a, amt, t) <==> (produced_in_prefix(txs, ti, oi, a, amt, t)
            || ((txs[ti].outputs@[oi].address)@ == a && txs[ti].outputs@[oi].amount == amt
            && txs[ti].txid@ == t)) by {
        if produced_in_prefix(txs, ti, oi + 1, a, amt, t) {
            let (t2, o2) = choose|t2: int, o2: int|
                0 <= t2 < txs.len() && 0 <= o2 < txs[t2].outputs@.len() && (t2 < ti || (t2 == ti
                    && o2 < oi + 1)) && txs[t2].txid@ == t && (#[trigger] txs[t2].outputs@[o2]).amount
                    == amt && (txs[t2].outputs@[o2].address)@ == a;
            if !(t2 == ti && o2 == oi) {
                assert(0 <= o2 < txs[t2].outputs@.len() && (t2 < ti || (t2 == ti && o2 < oi)));
                assert(produced_in_prefix(txs, ti, oi, a, amt, t));
            }
        }
        if produced_in_prefix(txs, ti, oi, a, amt, t) {
            let (t2, o2) = choose|t2: int, o2: int|
                0 <= t2 < txs.len() && 0 <= o2 < txs[t2].outputs@.len() && (t2 < ti || (t2 == ti
                    && o2 < oi)) && txs[t2].txid@ == t && (#[trigger] txs[t2].outputs@[o2]).amount
                    == amt && (txs[t2].outputs@[o2].address)@ == a;
            assert(t2 < ti || (t2 == ti && o2 < oi + 1));
            assert(produced_in_prefix(txs, ti, oi + 1, a, amt, t));
        }
        if (txs[ti].outputs@[oi].address)@ == a && txs[ti].outputs@[oi].amount == amt
            && txs[ti].txid@ == t {
            assert((#[trigger] txs[ti].outputs@[oi]).amount == amt);
            assert(produced_in_prefix(txs, ti, oi + 1, a, amt, t));
        }
    }
}

/// Advancing the scan over one input adds exactly that input.
proof fn lemma_spent_prefix_step(txs: Seq<crate::transactions::Tx>, ti: int, ii: int)
    requires
        0 <= ti < txs.len(),
        0 <= ii < txs[ti].inputs@.len(),
    ensures
        forall|a: Seq<u8>, t: Seq<u8>|
            spent_in_prefix(txs, ti, ii + 1, a, t) <==> (spent_in_prefix(txs, ti, ii, a, t) || ((
            txs[ti].inputs@[ii].txid)@ == t && sig_verifies(a, txs[ti].inputs@[ii].signature@, t))),
{
    assert forall|a: Seq<u8>, t: Seq<u8>|
        spent_in_prefix(txs, ti, ii + 1, a, t) <==> (spent_in_prefix(txs, ti, ii, a, t) || ((
        txs[ti].inputs@[ii].txid)@ == t && sig_verifies(a, txs[ti].inputs@[ii].signature@, t))) by {
        if spent_in_prefix(txs, ti, ii + 1, a, t) {
            let (t2, i2) = choose|t2: int, i2: int|
                0 <= t2 < txs.len() && 0 <= i2 < txs[t2].inputs@.len() && (t2 < ti || (t2 == ti
                    && i2 < ii + 1)) && ((#[trigger] txs[t2].inputs@[i2]).txid)@ == t
                    && sig_verifies(a, txs[t2].inputs@[i2].signature@, t);
            if !(t2 == ti && i2 == ii) {
                assert(0 <= i2 < txs[t2].inputs@.len() && (t2 < ti || (t2 == ti && i2 < ii)));
                assert(spent_in_prefix(txs, ti, ii, a, t));
            }
        }
        if spent_in_prefix(txs, ti, ii, a, t) {
            let (t2, i2) = choose|t2: int, i2: int|
                0 <= t2 < txs.len() && 0 <= i2 < txs[t2].inputs@.len() && (t2 < ti || (t2 == ti
                    && i2 < ii)) && ((#[trigger] txs[t2].inputs@[i2]).txid)@ == t && sig_verifies(
                    a,
                    txs[t2].inputs@[i2].signature@,
                    t,
                );
            assert(spent_in_prefix(txs, ti, ii + 1, a, t));
        }
        if (txs[ti].inputs@[ii].txid)@ == t && sig_verifies(a, txs[ti].inputs@[ii].signature@, t) {
            assert(((#[trigger] txs[ti].inputs@[ii]).txid)@ == t);
            assert(spent_in_prefix(txs, ti, ii + 1, a, t));
        }
    }
}

/// Finishing one transaction's outputs stands the scan at the start of the
/// next transaction.
proof fn lemma_produced_prefix_tx_end(txs: Seq<crate::transactions::Tx>, ti: int)
    requires
        0 <= ti < txs.len(),
    ensures
        forall|a: Seq<u8>, amt: u64, t: Seq<u8>|
            produced_in_prefix(txs, ti, txs[ti].outputs@.len() as int, a, amt, t)
                <==> produced_in_prefix(txs, ti + 1, 0, a, amt, t),
{
    assert forall|a: Seq<u8>, amt: u64, t: Seq<u8>|
        produced_in_prefix(txs, ti, txs[ti].outputs@.len() as int, a, amt, t) <==> produced_in_prefix(
            txs,
            ti + 1,
            0,
            a,
            amt,
            t,
        ) by {
        if produced_in_prefix(txs, ti, txs[ti].outputs@.len() as int, a, amt, t) {
            let (t2, o2) = choose|t2: int, o2: int|
                0 <= t2 < txs.len() && 0 <= o2 < txs[t2].outputs@.len() && (t2 < ti || (t2 == ti
                    && o2 < txs[ti].outputs@.len())) && txs[t2].txid@ == t && (
                #[trigger] txs[t2].outputs@[o2]).amount == amt && (txs[t2].outputs@[o2].address)@
                    == a;
            assert(t2 < ti + 1);
            assert(produced_in_prefix(txs, ti + 1, 0, a, amt, t));
        }
        if produced_in_prefix(txs, ti + 1, 0, a, amt, t) {
            let (t2, o2) = choose|t2: int, o2: int|
                0 <= t2 < txs.len() && 0 <= o2 < txs[t2].outputs@.len() && (t2 < ti + 1 || (t2 == ti
                    + 1 && o2 < 0)) && txs[t2].txid@ == t && (#[trigger] txs[t2].outputs@[o2]).amount
                    == amt && (txs[t2].outputs@[o2].address)@ == a;
            assert(t2 < ti || (t2 == ti && o2 < txs[ti].outputs@.len()));
            assert(produced_in_prefix(txs, ti, txs[ti].outputs@.len() as int, a, amt, t));
        }
    }
}

/// Finishing one transaction's inputs stands the scan at the start of the
/// next transaction.
proof fn lemma_spent_prefix_tx_end(txs: Seq<crate::transactions::Tx>, ti: int)
    requires
        0 <= ti < txs.len(),
    ensures
        forall|a: Seq<u8>, t: Seq<u8>|
            spent_in_prefix(txs, ti, txs[ti].inputs@.len() as int, a, t) <==> spent_in_prefix(
                txs,
                ti + 1,
                0,
                a,
                t,
            ),
{
    assert forall|a: Seq<u8>, t: Seq<u8>|
        spent_in_prefix(txs, ti, txs[ti].inputs@.len() as int, a, t) <==> spent_in_prefix(
            txs,
            ti + 1,
            0,
            a,
            t,
        ) by {
        if spent_in_prefix(txs, ti, txs[ti].inputs@.len() as int, a, t) {
            let (t2, i2) = choose|t2: int, i2: int|
                0 <= t2 < txs.len() && 0 <= i2 < txs[t2].inputs@.len() && (t2 < ti || (t2 == ti
                    && i2 < txs[ti].inputs@.len())) && ((#[trigger] txs[t2].inputs@[i2]).txid)@ == t
                    && sig_verifies(a, txs[t2].inputs@[i2].signature@, t);
            assert(t2 < ti + 1);
            assert(spent_in_prefix(txs, ti + 1, 0, a, t));
        }
        if spent_in_prefix(txs, ti + 1, 0, a, t) {
            let (t2, i2) = choose|t2: int, i2: int|
                0 <= t2 < txs.len() && 0 <= i2 < txs[t2].inputs@.len() && (t2 < ti + 1 || (t2 == ti
                    + 1 && i2 < 0)) && ((#[trigger] txs[t2].inputs@[i2]).txid)@ == t && sig_verifies(
                    a,
                    txs[t2].inputs@[i2].signature@,
                    t,
                );
            assert(t2 < ti || (t2 == ti && i2 < txs[ti].inputs@.len()));
            assert(spent_in_prefix(txs, ti, txs[ti].inputs@.len() as int, a, t));
        }
    }
}

/// Finishing a whole block extends the scanned block range by that block.
proof fn lemma_produced_block_end(c: Seq<Block>, lo: int, bi: int)
    requires
        0 <= lo < bi < c.len(),
    ensures
        forall|a: Seq<u8>, amt: u64, t: Seq<u8>|
            out_produced(c, lo, bi, a, amt, t) <==> (out_produced(c, lo, bi - 1, a, amt, t)
                || produced_in_prefix(
                c[bi].transactions@,
                c[bi].transactions@.len() as int,
                0,
                a,
                amt,
                t,
            )),
{
    let txs = c[bi].transactions@;
    assert forall|a: Seq<u8>, amt: u64, t: Seq<u8>|
        out_produced(c, lo, bi, a, amt, t) <==> (out_produced(c, lo, bi - 1, a, amt, t)
            || produced_in_prefix(txs, txs.len() as int, 0, a, amt, t)) by {
        if out_produced(c, lo, bi, a, amt, t) {
            let (b2, t2, o2) = choose|b2: int, t2: int, o2: int|
                valid_out_pos(c, b2, t2, o2) && lo < b2 <= bi && #[trigger] out_matches(
                    c,
                    b2,
                    t2,
                    o2,
                    a,
                    amt,
                    t,
                );
            if b2 == bi {
                assert((#[trigger] txs[t2].outputs@[o2]).amount == amt);
                assert(produced_in_prefix(txs, txs.len() as int, 0, a, amt, t));
            } else {
                assert(out_matches(c, b2, t2, o2, a, amt, t));
                assert(out_produced(c, lo, bi - 1, a, amt, t));
            }
        }
        if out_produced(c, lo, bi - 1, a, amt, t) {
            let (b2, t2, o2) = choose|b2: int, t2: int, o2: int|
                valid_out_pos(c, b2, t2, o2) && lo < b2 <= bi - 1 && #[trigger] out_matches(
                    c,
                    b2,
                    t2,
                    o2,
                    a,
                    amt,
                    t,
                );
            assert(out_matches(c, b2, t2, o2, a, amt, t));
            assert(out_produced(c, lo, bi, a, amt, t));
        }
        if produced_in_prefix(txs, txs.len() as int, 0, a, amt, t) {
            let (t2, o2) = choose|t2: int, o2: int|
                0 <= t2 < txs.len() && 0 <= o2 < txs[t2].outputs@.len() && (t2 < txs.len() || (t2
                    == txs.len() && o2 < 0)) && txs[t2].txid@ == t && (
                #[trigger] txs[t2].outputs@[o2]).amount == amt && (txs[t2].outputs@[o2].address)@
                    == a;
            assert(valid_out_pos(c, bi, t2, o2) && out_matches(c, bi, t2, o2, a, amt, t));
            assert(out_produced(c, lo, bi, a, amt, t));
        }
    }
}

/// Finishing a whole block extends the spent block range by that block.
proof fn lemma_spent_block_end(c: Seq<Block>, lo: int, bi: int)
    requires
        0 <= lo < bi < c.len(),
    ensures
        forall|a: Seq<u8>, t: Seq<u8>|
            spent(c, lo, bi, a, t) <==> (spent(c, lo, bi - 1, a, t) || spent_in_prefix(
                c[bi].transactions@,
                c[bi].transactions@.len() as int,
                0,
                a,
                t,
            )),
{
    let txs = c[bi].transactions@;
    assert forall|a: Seq<u8>, t: Seq<u8>|
        spent(c, lo, bi, a, t) <==> (spent(c, lo, bi - 1, a, t) || spent_in_prefix(
            txs,
            txs.len() as int,
            0,
            a,
            t,
        )) by {
        if spent(c, lo, bi, a, t) {
            let (b2, t2, i2) = choose|b2: int, t2: int, i2: int|
                valid_in_pos(c, b2, t2, i2) && lo < b2 <= bi && #[trigger] input_matches(
                    c,
                    b2,
                    t2,
                    i2,
                    a,
                    t,
                );
            if b2 == bi {
                assert(((#[trigger] txs[t2].inputs@[i2]).txid)@ == t);
                assert(spent_in_prefix(txs, txs.len() as int, 0, a, t));
            } else {
                assert(input_matches(c, b2, t2, i2, a, t));
                assert(spent(c, lo, bi - 1, a, t));
            }
        }
        if spent(c, lo, bi - 1, a, t) {
            let (b2, t2, i2) = choose|b2: int, t2: int, i2: int|
                valid_in_pos(c, b2, t2, i2) && lo < b2 <= bi - 1 && #[trigger] input_matches(
                    c,
                    b2,
                    t2,
                    i2,
                    a,
                    t,
                );
            assert(input_matches(c, b2, t2, i2, a, t));
            assert(spent(c, lo, bi, a, t));
        }
        if spent_in_prefix(txs, txs.len() as int, 0, a, t) {
            let (t2, i2) = choose|t2: int, i2: int|
                0 <= t2 < txs.len() && 0 <= i2 < txs[t2].inputs@.len() && (t2 < txs.len() || (t2
                    == txs.len() && i2 < 0)) && ((#[trigger] txs[t2].inputs@[i2]).txid)@ == t
                    && sig_verifies(a, txs[t2].inputs@[i2].signature@, t);
            assert(valid_in_pos(c, bi, t2, i2) && input_matches(c, bi, t2, i2, a, t));
            assert(spent(c, lo, bi, a, t));
        }
    }
}

/// A block range splits at any middle point.
proof fn lemma_ranges_split(c: Seq<Block>, lo: int, mid: int, hi: int)
    requires
        0 <= lo <= mid <= hi,
    ensures
        forall|a: Seq<u8>, amt: u64, t: Seq<u8>|
            out_produced(c, lo, hi, a, amt, t) <==> (out_produced(c, lo, mid, a, amt, t)
                || out_produced(c, mid, hi, a, amt, t)),
        forall|a: Seq<u8>, t: Seq<u8>|
            spent(c, lo, hi, a, t) <==> (spent(c, lo, mid, a, t) || spent(c, mid, hi, a, t)),
{
    assert forall|a: Seq<u8>, amt: u64, t: Seq<u8>|
        out_produced(c, lo, hi, a, amt, t) <==> (out_produced(c, lo, mid, a, amt, t)
            || out_produced(c, mid, hi, a, amt, t)) by {
        if out_produced(c, lo, hi, a, amt, t) {
            let (b2, t2, o2) = choose|b2: int, t2: int, o2: int|
                valid_out_pos(c, b2, t2, o2) && lo < b2 <= hi && #[trigger] out_matches(
                    c,
                    b2,
                    t2,
                    o2,
                    a,
                    amt,
                    t,
                );
            assert(out_matches(c, b2, t2, o2, a, amt, t));
            if b2 <= mid {
                assert(out_produced(c, lo, mid, a, amt, t));
            } else {
                assert(out_produced(c, mid, hi, a, amt, t));
            }
        }
        if out_produced(c, lo, mid, a, amt, t) {
            let (b2, t2, o2) = choose|b2: int, t2: int, o2: int|
                valid_out_pos(c, b2, t2, o2) && lo < b2 <= mid && #[trigger] out_matches(
                    c,
                    b2,
                    t2,
                    o2,
                    a,
                    amt,
                    t,
                );
            assert(out_matches(c, b2, t2, o2, a, amt, t));
            assert(out_produced(c, lo, hi, a, amt, t));
        }
        if out_produced(c, mid, hi, a, amt, t) {
            let (b2, t2, o2) = choose|b2: int, t2: int, o2: int|
                valid_out_pos(c, b2, t2, o2) && mid < b2 <= hi && #[trigger] out_matches(
                    c,
                    b2,
                    t2,
                    o2,
                    a,
                    amt,
                    t,
                );
            assert(out_matches(c, b2, t2, o2, a, amt, t));
            assert(out_produced(c, lo, hi, a, amt, t));
        }
    }
    assert forall|a: Seq<u8>, t: Seq<u8>|
        spent(c, lo, hi, a, t) <==> (spent(c, lo, mid, a, t) || spent(c, mid, hi, a, t)) by {
        if spent(c, lo, hi, a, t) {
            let (b2, t2, i2) = choose|b2: int, t2: int, i2: int|
                valid_in_pos(c, b2, t2, i2) && lo < b2 <= hi && #[trigger] input_matches(
                    c,
                    b2,
                    t2,
                    i2,
                    a,
                    t,
                );
            assert(input_matches(c, b2, t2, i2, a, t));
            if b2 <= mid {
                assert(spent(c, lo, mid, a, t));
            } else {
                assert(spent(c, mid, hi, a, t));
            }
        }
        if spent(c, lo, mid, a, t) {
            let (b2, t2, i2) = choose|b2: int, t2: int, i2: int|
                valid_in_pos(c, b2, t2, i2) && lo < b2 <= mid && #[trigger] input_matches(
                    c,
                    b2,
                    t2,
                    i2,
                    a,
                    t,
                );
            assert(input_matches(c, b2, t2, i2, a, t));
            assert(spent(c, lo, hi, a, t));
        }
        if spent(c, mid, hi, a, t) {
            let (b2, t2, i2) = choose|b2: int, t2: int, i2: int|
                valid_in_pos(c, b2, t2, i2) && mid < b2 <= hi && #[trigger] input_matches(
                    c,
                    b2,
                    t2,
                    i2,
                    a,
                    t,
                );
            assert(input_matches(c, b2, t2, i2, a, t));
            assert(spent(c, lo, hi, a, t));
        }
    }
}

/// The highest block position the scan has fully processed once it stands
/// before block `bi`: blocks at or below the high-water mark are skipped.
pub open spec fn scan_hi(kh0: int, bi: int) -> int {
    if bi - 1 > kh0 {
        bi - 1
    } else {
        kh0
    }
}

/// Whether the index faithfully reflects the chain up to its high-water
/// mark: an address holds an entry for an amount under a transaction
/// identifier exactly when some block up to the mark produced that output
/// and no input up to the mark spent it.
pub open spec fn synced(g: &GlobalUtxos, c: Seq<Block>) -> bool {
    &&& g.well_formed()
    &&& g.known_blockchain_height < c.len()
    &&& forall|a: Seq<u8>, amt: u64, t: Seq<u8>|
        index_has(g.utxos@, a, amt, t) <==> (out_produced(
            c,
            0,
            g.known_blockchain_height as int,
            a,
            amt,
            t,
        ) && !spent(c, 0, g.known_blockchain_height as int, a, t))
}

/// Whether no input in blocks up to `lo` spends an output first produced
/// in blocks above `lo`: an honest chain spends only what already exists.
pub open spec fn no_backward_spends(c: Seq<Block>, lo: int, hi: int) -> bool {
    forall|a: Seq<u8>, amt: u64, t: Seq<u8>|
        #![trigger spent(c, 0, lo, a, t), out_produced(c, lo, hi, a, amt, t)]
        spent(c, 0, lo, a, t) ==> !out_produced(c, lo, hi, a, amt, t)
}

/// A block range with nothing in it holds no outputs and no spends.
proof fn lemma_empty_range(c: Seq<Block>, lo: int)
    ensures
        forall|a: Seq<u8>, amt: u64, t: Seq<u8>| !out_produced(c, lo, lo, a, amt, t),
        forall|a: Seq<u8>, t: Seq<u8>| !spent(c, lo, lo, a, t),
{
    assert forall|a: Seq<u8>, amt: u64, t: Seq<u8>| !out_produced(c, lo, lo, a, amt, t) by {
        if out_produced(c, lo, lo, a, amt, t) {
            let (b2, t2, o2) = choose|b2: int, t2: int, o2: int|
                valid_out_pos(c, b2, t2, o2) && lo < b2 <= lo && #[trigger] out_matches(
                    c,
                    b2,
                    t2,
                    o2,
                    a,
                    amt,
                    t,
                );
            assert(false);
        }
    }
    assert forall|a: Seq<u8>, t: Seq<u8>| !spent(c, lo, lo, a, t) by {
        if spent(c, lo, lo, a, t) {
            let (b2, t2, i2) = choose|b2: int, t2: int, i2: int|
                valid_in_pos(c, b2, t2, i2) && lo < b2 <= lo && #[trigger] input_matches(
                    c,
                    b2,
                    t2,
                    i2,
                    a,
                    t,
                );
            assert(false);
        }
    }
}

/// Conservation of unspent outputs: after a rescan, an address holds an
/// entry for an amount under a transaction identifier exactly when some
/// block up to the scanned height produced that output to that address and
/// no input up to that height spent the identifier with a signature valid
/// under the address. An address's balance is therefore the total it
/// received minus the total it spent.
pub proof fn lemma_utxo_conservation(
    g: &GlobalUtxos,
    c: Seq<Block>,
    a: Seq<u8>,
    amt: u64,
    t: Seq<u8>,
)
    requires
        synced(g, c),
    ensures
        index_has(g.utxos@, a, amt, t) <==> (out_produced(
            c,
            0,
            g.known_blockchain_height as int,
            a,
            amt,
            t,
        ) && !spent(c, 0, g.known_blockchain_height as int, a, t)),
{
}

/// An index holding nothing, with nothing observed and nothing scanned, is
/// in sync with any non-empty chain.
pub proof fn lemma_fresh_index_synced(g: &GlobalUtxos, c: Seq<Block>)
    requires
        g.utxos@.len() == 0,
        g.verifying_keys@.len() == 0,
        g.known_blockchain_height == 0,
        c.len() >= 1,
    ensures
        synced(g, c),
{
    assert forall|a: Seq<u8>| !has_key(g.utxos@, a) by {
        if has_key(g.utxos@, a) {
            let w = choose|w: int| 0 <= w < g.utxos@.len() && ((#[trigger] g.utxos@[w]).0)@ == a;
        }
    }
    lemma_empty_range(c, 0);
    assert forall|a: Seq<u8>, amt: u64, t: Seq<u8>| !index_has(g.utxos@, a, amt, t) by {
        if index_has(g.utxos@, a, amt, t) {
            let w = choose|w: int|
                0 <= w < g.utxos@.len() && ((#[trigger] g.utxos@[w]).0)@ == a && pair_in(
                    g.utxos@[w].1@,
                    amt,
                    t,
                );
        }
    }
}

impl GlobalUtxos {
    /// Brings the index up to the chain's tip: every output in blocks above
    /// the high-water mark is recorded under its address (deduplicated by
    /// amount and identifier, with the address observed), then every input
    /// in those blocks removes, from each observed address whose key
    /// verifies its signature, the entries carrying its identifier, and
    /// the mark moves to the tip. Afterwards the index again holds, for
    /// each address, exactly the outputs produced and not spent up to the
    /// mark. A rescan of a chain whose tip was already scanned changes
    /// nothing.
    #[verifier::rlimit(100)]
    pub fn find_utxos(&mut self, chain: &Blockchain)
        requires
            chain.well_formed(),
            synced(old(self), chain.chain@),
            no_backward_spends(
                chain.chain@,
                old(self).known_blockchain_height as int,
                chain.chain@.len() - 1,
            ),
        ensures
            final(self).known_blockchain_height == chain.chain@.len() - 1,
            final(self).known_blockchain_height >= old(self).known_blockchain_height,
            synced(final(self), chain.chain@),
            old(self).known_blockchain_height == chain.chain@.len() - 1 ==> *final(self) == *old(
                self,
            ),
    {
        let c = &chain.chain;
        let ghost cc = chain.chain@;
        let ghost s_old = self.utxos@;
        let kh = self.known_blockchain_height;
        let ghost kh0 = kh as int;
        proof {
            lemma_empty_range(cc, kh0);
        }
        // Additions pass: record every output of every block above the
        // mark.
        let mut bi: usize = 0;
        while bi < c.len()
            invariant
                c@ == cc,
                cc == chain.chain@,
                bi <= cc.len(),
                kh == old(self).known_blockchain_height,
                kh0 == kh as int,
                kh0 < cc.len(),
                s_old == old(self).utxos@,
                self.known_blockchain_height == kh,
                self.well_formed(),
                kh0 == cc.len() - 1 ==> *self == *old(self),
                forall|a: Seq<u8>, amt: u64, t: Seq<u8>|
                    #![trigger index_has(self.utxos@, a, amt, t)]
                    index_has(self.utxos@, a, amt, t) <==> (index_has(s_old, a, amt, t)
                        || out_produced(cc, kh0, scan_hi(kh0, bi as int), a, amt, t)),
            decreases cc.len() - bi,
        {
            if bi > kh as usize {
                let txs = &c[bi].transactions;
                proof {
                    lemma_prefix_start(txs@);
                    assert(scan_hi(kh0, bi as int) == bi - 1);
                    assert forall|a: Seq<u8>, amt: u64, t: Seq<u8>|
                        #![trigger index_has(self.utxos@, a, amt, t)]
                        index_has(self.utxos@, a, amt, t) <==> (index_has(s_old, a, amt, t)
                            || out_produced(cc, kh0, bi - 1, a, amt, t)
                            || produced_in_prefix(txs@, 0, 0, a, amt, t)) by {
                        assert(index_has(self.utxos@, a, amt, t) <==> (index_has(s_old, a, amt, t)
                            || out_produced(cc, kh0, scan_hi(kh0, bi as int), a, amt, t)));
                        assert(out_produced(cc, kh0, scan_hi(kh0, bi as int), a, amt, t)
                            == out_produced(cc, kh0, bi - 1, a, amt, t));
                        assert(!produced_in_prefix(txs@, 0, 0, a, amt, t));
                    }
                }
                let mut ti: usize = 0;
                while ti < txs.len()
                    invariant
                        ti <= txs@.len(),
                        txs@ == cc[bi as int].transactions@,
                        kh0 < bi < cc.len(),
                        c@ == cc,
                        cc == chain.chain@,
                        s_old == old(self).utxos@,
                        self.known_blockchain_height == kh,
                        kh0 == kh as int,
                        self.well_formed(),
                        forall|a: Seq<u8>, amt: u64, t: Seq<u8>|
                            #![trigger index_has(self.utxos@, a, amt, t)]
                            index_has(self.utxos@, a, amt, t) <==> (index_has(s_old, a, amt, t)
                                || out_produced(cc, kh0, bi - 1, a, amt, t)
                                || produced_in_prefix(txs@, ti as int, 0, a, amt, t)),
                    decreases txs@.len() - ti,
                {
                    let mut oi: usize = 0;
                    while oi < txs[ti].outputs.len()
                        invariant
                            ti < txs@.len(),
                            oi <= txs@[ti as int].outputs@.len(),
                            txs@ == cc[bi as int].transactions@,
                            kh0 < bi < cc.len(),
                            c@ == cc,
                            cc == chain.chain@,
                            s_old == old(self).utxos@,
                            self.known_blockchain_height == kh,
                            kh0 == kh as int,
                            self.well_formed(),
                            forall|a: Seq<u8>, amt: u64, t: Seq<u8>|
                                #![trigger index_has(self.utxos@, a, amt, t)]
                                index_has(self.utxos@, a, amt, t) <==> (index_has(s_old, a, amt, t)
                                    || out_produced(cc, kh0, bi - 1, a, amt, t)
                                    || produced_in_prefix(txs@, ti as int, oi as int, a, amt, t)),
                        decreases txs@[ti as int].outputs@.len() - oi,
                    {
                        let address = txs[ti].outputs[oi].address;
                        let amount = txs[ti].outputs[oi].amount;
                        let txid = txs[ti].txid;
                        let ghost u_pre = self.utxos@;
                        let ghost vk_pre = self.verifying_keys@;
                        self.add_output_entry(&address, amount, &txid);
                        self.observe_address(&address);
                        proof {
                            lemma_produced_prefix_step(txs@, ti as int, oi as int);
                            assert forall|a: Seq<u8>|
                                has_key(self.utxos@, a) implies contains_key(
                                self.verifying_keys@,
                                a,
                            ) by {
                                if a != address@ {
                                    assert(has_key(u_pre, a));
                                    assert(contains_key(vk_pre, a));
                                }
                            }
                            assert forall|a: Seq<u8>, amt: u64, t: Seq<u8>|
                                #![trigger index_has(self.utxos@, a, amt, t)]
                                index_has(self.utxos@, a, amt, t) <==> (index_has(s_old, a, amt, t)
                                    || out_produced(cc, kh0, bi - 1, a, amt, t)
                                    || produced_in_prefix(txs@, ti as int, oi + 1, a, amt, t)) by {
                                assert(index_has(u_pre, a, amt, t) <==> (index_has(s_old, a, amt, t)
                                    || out_produced(cc, kh0, bi - 1, a, amt, t)
                                    || produced_in_prefix(txs@, ti as int, oi as int, a, amt, t)));
                                assert(index_has(self.utxos@, a, amt, t) <==> (index_has(
                                    u_pre,
                                    a,
                                    amt,
                                    t,
                                ) || (a == address@ && amt == amount && t == txid@)));
                                assert(produced_in_prefix(txs@, ti as int, oi + 1, a, amt, t) <==> (
                                produced_in_prefix(txs@, ti as int, oi as int, a, amt, t) || ((
                                txs@[ti as int].outputs@[oi as int].address)@ == a
                                    && txs@[ti as int].outputs@[oi as int].amount == amt
                                    && txs@[ti as int].txid@ == t)));
                                assert(address == txs@[ti as int].outputs@[oi as int].address);
                                assert(amount == txs@[ti as int].outputs@[oi as int].amount);
                                assert(txid == txs@[ti as int].txid);
                            }
                        }
                        oi = oi + 1;
                        proof {
                            assert forall|a: Seq<u8>, amt: u64, t: Seq<u8>|
                                #![trigger index_has(self.utxos@, a, amt, t)]
                                index_has(self.utxos@, a, amt, t) <==> (index_has(s_old, a, amt, t)
                                    || out_produced(cc, kh0, bi - 1, a, amt, t)
                                    || produced_in_prefix(txs@, ti as int, oi as int, a, amt, t))
                                by {
                                assert(produced_in_prefix(txs@, ti as int, oi as int, a, amt, t)
                                    == produced_in_prefix(txs@, ti as int, (oi - 1) + 1, a, amt, t));
                                assert(index_has(self.utxos@, a, amt, t) <==> (index_has(
                                    s_old,
                                    a,
                                    amt,
                                    t,
                                ) || out_produced(cc, kh0, bi - 1, a, amt, t) || produced_in_prefix(
                                    txs@,
                                    ti as int,
                                    (oi - 1) + 1,
                                    a,
                                    amt,
                                    t,
                                )));
                            }
                        }
                    }
                    proof {
                        lemma_produced_prefix_tx_end(txs@, ti as int);
                        assert(oi as int == txs@[ti as int].outputs@.len() as int);
                    }
                    ti = ti + 1;
                    proof {
                        assert forall|a: Seq<u8>, amt: u64, t: Seq<u8>|
                            #![trigger index_has(self.utxos@, a, amt, t)]
                            index_has(self.utxos@, a, amt, t) <==> (index_has(s_old, a, amt, t)
                                || out_produced(cc, kh0, bi - 1, a, amt, t)
                                || produced_in_prefix(txs@, ti as int, 0, a, amt, t)) by {
                            assert(index_has(self.utxos@, a, amt, t) <==> (index_has(
                                s_old,
                                a,
                                amt,
                                t,
                            ) || out_produced(cc, kh0, bi - 1, a, amt, t) || produced_in_prefix(
                                txs@,
                                (ti - 1) as int,
                                oi as int,
                                a,
                                amt,
                                t,
                            )));
                            assert(produced_in_prefix(txs@, (ti - 1) as int, oi as int, a, amt, t)
                                == produced_in_prefix(
                                txs@,
                                (ti - 1) as int,
                                txs@[(ti - 1) as int].outputs@.len() as int,
                                a,
                                amt,
                                t,
                            ));
                            assert(produced_in_prefix(
                                txs@,
                                (ti - 1) as int,
                                txs@[(ti - 1) as int].outputs@.len() as int,
                                a,
                                amt,
                                t,
                            ) == produced_in_prefix(txs@, (ti - 1) + 1, 0, a, amt, t));
                            assert(produced_in_prefix(txs@, (ti - 1) + 1, 0, a, amt, t)
                                == produced_in_prefix(txs@, ti as int, 0, a, amt, t));
                        }
                    }
                }
                proof {
                    lemma_produced_block_end(cc, kh0, bi as int);
                    assert(ti as int == txs@.len() as int);
                }
                bi = bi + 1;
                proof {
                    assert(scan_hi(kh0, bi as int) == (bi - 1) as int);
                    assert forall|a: Seq<u8>, amt: u64, t: Seq<u8>|
                        #![trigger index_has(self.utxos@, a, amt, t)]
                        index_has(self.utxos@, a, amt, t) <==> (index_has(s_old, a, amt, t)
                            || out_produced(cc, kh0, scan_hi(kh0, bi as int), a, amt, t)) by {
                        assert(index_has(self.utxos@, a, amt, t) <==> (index_has(s_old, a, amt, t)
                            || out_produced(cc, kh0, (bi - 1) - 1, a, amt, t)
                            || produced_in_prefix(txs@, ti as int, 0, a, amt, t)));
                        assert(produced_in_prefix(txs@, ti as int, 0, a, amt, t)
                            == produced_in_prefix(txs@, txs@.len() as int, 0, a, amt, t));
                        assert(out_produced(cc, kh0, (bi - 1) as int, a, amt, t) <==> (out_produced(
                            cc,
                            kh0,
                            (bi - 1) - 1,
                            a,
                            amt,
                            t,
                        ) || produced_in_prefix(txs@, txs@.len() as int, 0, a, amt, t)));
                        assert(out_produced(cc, kh0, scan_hi(kh0, bi as int), a, amt, t)
                            == out_produced(cc, kh0, (bi - 1) as int, a, amt, t));
                    }
                }
            } else {
                bi = bi + 1;
                proof {
                    assert(scan_hi(kh0, bi as int) == scan_hi(kh0, (bi - 1) as int));
                    assert forall|a: Seq<u8>, amt: u64, t: Seq<u8>|
                        #![trigger index_has(self.utxos@, a, amt, t)]
                        index_has(self.utxos@, a, amt, t) <==> (index_has(s_old, a, amt, t)
                            || out_produced(cc, kh0, scan_hi(kh0, bi as int), a, amt, t)) by {
                        assert(index_has(self.utxos@, a, amt, t) <==> (index_has(s_old, a, amt, t)
                            || out_produced(cc, kh0, scan_hi(kh0, (bi - 1) as int), a, amt, t)));
                        assert(out_produced(cc, kh0, scan_hi(kh0, (bi - 1) as int), a, amt, t)
                            == out_produced(cc, kh0, scan_hi(kh0, bi as int), a, amt, t));
                    }
                }
            }
        }
        let ghost s_mid = self.utxos@;
        let ghost hi = cc.len() - 1;
        proof {
            assert(bi as int == cc.len() as int);
            assert forall|a: Seq<u8>, amt: u64, t: Seq<u8>|
                #![trigger index_has(s_mid, a, amt, t)]
                index_has(s_mid, a, amt, t) <==> (index_has(s_old, a, amt, t) || out_produced(
                    cc,
                    kh0,
                    hi,
                    a,
                    amt,
                    t,
                )) by {
                assert(index_has(self.utxos@, a, amt, t) <==> (index_has(s_old, a, amt, t)
                    || out_produced(cc, kh0, scan_hi(kh0, bi as int), a, amt, t)));
                if kh0 == cc.len() - 1 {
                    lemma_empty_range(cc, kh0);
                    assert(!out_produced(cc, kh0, kh0, a, amt, t));
                    assert(out_produced(cc, kh0, scan_hi(kh0, bi as int), a, amt, t)
                        == out_produced(cc, kh0, kh0, a, amt, t));
                    assert(!out_produced(cc, kh0, hi, a, amt, t)) by {
                        assert(out_produced(cc, kh0, hi, a, amt, t) == out_produced(
                            cc,
                            kh0,
                            kh0,
                            a,
                            amt,
                            t,
                        ));
                    }
                } else {
                    assert(out_produced(cc, kh0, scan_hi(kh0, bi as int), a, amt, t)
                        == out_produced(cc, kh0, hi, a, amt, t));
                }
            }
        }
        // Removals pass: every input of every block above the mark spends
        // its identifier from each observed address that verifies it.
        let mut bi2: usize = 0;
        proof {
            lemma_empty_range(cc, kh0);
        }
        while bi2 < c.len()
            invariant
                c@ == cc,
                cc == chain.chain@,
                bi2 <= cc.len(),
                kh == old(self).known_blockchain_height,
                kh0 == kh as int,
                kh0 < cc.len(),
                self.known_blockchain_height == kh,
                self.well_formed(),
                kh0 == cc.len() - 1 ==> *self == *old(self),
                forall|a: Seq<u8>, amt: u64, t: Seq<u8>|
                    #![trigger index_has(self.utxos@, a, amt, t)]
                    index_has(self.utxos@, a, amt, t) <==> (index_has(s_mid, a, amt, t) && !spent(
                        cc,
                        kh0,
                        scan_hi(kh0, bi2 as int),
                        a,
                        t,
                    )),
            decreases cc.len() - bi2,
        {
            if bi2 > kh as usize {
                let txs = &c[bi2].transactions;
                proof {
                    lemma_prefix_start(txs@);
                    assert(scan_hi(kh0, bi2 as int) == bi2 - 1);
                    assert forall|a: Seq<u8>, amt: u64, t: Seq<u8>|
                        #![trigger index_has(self.utxos@, a, amt, t)]
                        index_has(self.utxos@, a, amt, t) <==> (index_has(s_mid, a, amt, t)
                            && !spent(cc, kh0, bi2 - 1, a, t) && !spent_in_prefix(
                            txs@,
                            0,
                            0,
                            a,
                            t,
                        )) by {
                        assert(index_has(self.utxos@, a, amt, t) <==> (index_has(s_mid, a, amt, t)
                            && !spent(cc, kh0, scan_hi(kh0, bi2 as int), a, t)));
                        assert(spent(cc, kh0, scan_hi(kh0, bi2 as int), a, t) == spent(
                            cc,
                            kh0,
                            bi2 - 1,
                            a,
                            t,
                        ));
                        assert(!spent_in_prefix(txs@, 0, 0, a, t));
                    }
                }
                let mut ti: usize = 0;
                while ti < txs.len()
                    invariant
                        ti <= txs@.len(),
                        txs@ == cc[bi2 as int].transactions@,
                        kh0 < bi2 < cc.len(),
                        c@ == cc,
                        cc == chain.chain@,
                        self.known_blockchain_height == kh,
                        kh0 == kh as int,
                        self.well_formed(),
                        forall|a: Seq<u8>, amt: u64, t: Seq<u8>|
                            #![trigger index_has(self.utxos@, a, amt, t)]
                            index_has(self.utxos@, a, amt, t) <==> (index_has(s_mid, a, amt, t)
                                && !spent(cc, kh0, bi2 - 1, a, t) && !spent_in_prefix(
                                txs@,
                                ti as int,
                                0,
                                a,
                                t,
                            )),
                    decreases txs@.len() - ti,
                {
                    let mut ii: usize = 0;
                    while ii < txs[ti].inputs.len()
                        invariant
                            ti < txs@.len(),
                            ii <= txs@[ti as int].inputs@.len(),
                            txs@ == cc[bi2 as int].transactions@,
                            kh0 < bi2 < cc.len(),
                            c@ == cc,
                            cc == chain.chain@,
                            self.known_blockchain_height == kh,
                            kh0 == kh as int,
                            self.well_formed(),
                            forall|a: Seq<u8>, amt: u64, t: Seq<u8>|
                                #![trigger index_has(self.utxos@, a, amt, t)]
                                index_has(self.utxos@, a, amt, t) <==> (index_has(s_mid, a, amt, t)
                                    && !spent(cc, kh0, bi2 - 1, a, t) && !spent_in_prefix(
                                    txs@,
                                    ti as int,
                                    ii as int,
                                    a,
                                    t,
                                )),
                        decreases txs@[ti as int].inputs@.len() - ii,
                    {
                        let input = txs[ti].inputs[ii];
                        let ghost u_pre = self.utxos@;
                        self.remove_spent(&input);
                        proof {
                            lemma_spent_prefix_step(txs@, ti as int, ii as int);
                            assert(input == txs@[ti as int].inputs@[ii as int]);
                        }
                        ii = ii + 1;
                        proof {
                            assert forall|a: Seq<u8>, amt: u64, t: Seq<u8>|
                                #![trigger index_has(self.utxos@, a, amt, t)]
                                index_has(self.utxos@, a, amt, t) <==> (index_has(s_mid, a, amt, t)
                                    && !spent(cc, kh0, bi2 - 1, a, t) && !spent_in_prefix(
                                    txs@,
                                    ti as int,
                                    ii as int,
                                    a,
                                    t,
                                )) by {
                                assert(index_has(u_pre, a, amt, t) <==> (index_has(s_mid, a, amt, t)
                                    && !spent(cc, kh0, bi2 - 1, a, t) && !spent_in_prefix(
                                    txs@,
                                    ti as int,
                                    (ii - 1) as int,
                                    a,
                                    t,
                                )));
                                assert(index_has(self.utxos@, a, amt, t) <==> (index_has(
                                    u_pre,
                                    a,
                                    amt,
                                    t,
                                ) && !((input.txid)@ == t && sig_verifies(a, input.signature@, t))));
                                assert(spent_in_prefix(txs@, ti as int, (ii - 1) + 1, a, t) <==> (
                                spent_in_prefix(txs@, ti as int, (ii - 1) as int, a, t) || ((
                                txs@[ti as int].inputs@[(ii - 1) as int].txid)@ == t && sig_verifies(
                                    a,
                                    txs@[ti as int].inputs@[(ii - 1) as int].signature@,
                                    t,
                                ))));
                                assert(spent_in_prefix(txs@, ti as int, ii as int, a, t)
                                    == spent_in_prefix(txs@, ti as int, (ii - 1) + 1, a, t));
                            }
                        }
                    }
                    proof {
                        lemma_spent_prefix_tx_end(txs@, ti as int);
                        assert(ii as int == txs@[ti as int].inputs@.len() as int);
                    }
                    ti = ti + 1;
                    proof {
                        assert forall|a: Seq<u8>, amt: u64, t: Seq<u8>|
                            #![trigger index_has(self.utxos@, a, amt, t)]
                            index_has(self.utxos@, a, amt, t) <==> (index_has(s_mid, a, amt, t)
                                && !spent(cc, kh0, bi2 - 1, a, t) && !spent_in_prefix(
                                txs@,
                                ti as int,
                                0,
                                a,
                                t,
                            )) by {
                            assert(index_has(self.utxos@, a, amt, t) <==> (index_has(
                                s_mid,
                                a,
                                amt,
                                t,
                            ) && !spent(cc, kh0, bi2 - 1, a, t) && !spent_in_prefix(
                                txs@,
                                (ti - 1) as int,
                                ii as int,
                                a,
                                t,
                            )));
                            assert(spent_in_prefix(txs@, (ti - 1) as int, ii as int, a, t)
                                == spent_in_prefix(
                                txs@,
                                (ti - 1) as int,
                                txs@[(ti - 1) as int].inputs@.len() as int,
                                a,
                                t,
                            ));
                            assert(spent_in_prefix(
                                txs@,
                                (ti - 1) as int,
                                txs@[(ti - 1) as int].inputs@.len() as int,
                                a,
                                t,
                            ) == spent_in_prefix(txs@, (ti - 1) + 1, 0, a, t));
                            assert(spent_in_prefix(txs@, (ti - 1) + 1, 0, a, t) == spent_in_prefix(
                                txs@,
                                ti as int,
                                0,
                                a,
                                t,
                            ));
                        }
                    }
                }
                proof {
                    lemma_spent_block_end(cc, kh0, bi2 as int);
                    assert(ti as int == txs@.len() as int);
                }
                bi2 = bi2 + 1;
                proof {
                    assert(scan_hi(kh0, bi2 as int) == (bi2 - 1) as int);
                    assert forall|a: Seq<u8>, amt: u64, t: Seq<u8>|
                        #![trigger index_has(self.utxos@, a, amt, t)]
                        index_has(self.utxos@, a, amt, t) <==> (index_has(s_mid, a, amt, t)
                            && !spent(cc, kh0, scan_hi(kh0, bi2 as int), a, t)) by {
                        assert(index_has(self.utxos@, a, amt, t) <==> (index_has(s_mid, a, amt, t)
                            && !spent(cc, kh0, (bi2 - 1) - 1, a, t) && !spent_in_prefix(
                            txs@,
                            ti as int,
                            0,
                            a,
                            t,
                        )));
                        assert(spent_in_prefix(txs@, ti as int, 0, a, t) == spent_in_prefix(
                            txs@,
                            txs@.len() as int,
                            0,
                            a,
                            t,
                        ));
                        assert(spent(cc, kh0, (bi2 - 1) as int, a, t) <==> (spent(
                            cc,
                            kh0,
                            (bi2 - 1) - 1,
                            a,
                            t,
                        ) || spent_in_prefix(txs@, txs@.len() as int, 0, a, t)));
                        assert(spent(cc, kh0, scan_hi(kh0, bi2 as int), a, t) == spent(
                            cc,
                            kh0,
                            (bi2 - 1) as int,
                            a,
                            t,
                        ));
                    }
                }
            } else {
                bi2 = bi2 + 1;
                proof {
                    assert(scan_hi(kh0, bi2 as int) == scan_hi(kh0, (bi2 - 1) as int));
                    assert forall|a: Seq<u8>, amt: u64, t: Seq<u8>|
                        #![trigger index_has(self.utxos@, a, amt, t)]
                        index_has(self.utxos@, a, amt, t) <==> (index_has(s_mid, a, amt, t)
                            && !spent(cc, kh0, scan_hi(kh0, bi2 as int), a, t)) by {
                        assert(index_has(self.utxos@, a, amt, t) <==> (index_has(s_mid, a, amt, t)
                            && !spent(cc, kh0, scan_hi(kh0, (bi2 - 1) as int), a, t)));
                        assert(spent(cc, kh0, scan_hi(kh0, (bi2 - 1) as int), a, t) == spent(
                            cc,
                            kh0,
                            scan_hi(kh0, bi2 as int),
                            a,
                            t,
                        ));
                    }
                }
            }
        }
        // The mark moves to the tip; both passes together re-establish the
        // index invariant over the whole scanned chain.
        proof {
            lemma_ranges_split(cc, 0, kh0, hi);
            assert(bi2 as int == cc.len() as int);
            assert forall|a: Seq<u8>, amt: u64, t: Seq<u8>|
                #![trigger index_has(self.utxos@, a, amt, t)]
                index_has(self.utxos@, a, amt, t) <==> (out_produced(cc, 0, hi, a, amt, t)
                    && !spent(cc, 0, hi, a, t)) by {
                assert(index_has(self.utxos@, a, amt, t) <==> (index_has(s_mid, a, amt, t)
                    && !spent(cc, kh0, scan_hi(kh0, bi2 as int), a, t)));
                if kh0 == cc.len() - 1 {
                    assert(!spent(cc, kh0, kh0, a, t));
                    assert(!out_produced(cc, kh0, kh0, a, amt, t));
                    assert(spent(cc, kh0, scan_hi(kh0, bi2 as int), a, t) == spent(
                        cc,
                        kh0,
                        kh0,
                        a,
                        t,
                    ));
                    assert(spent(cc, kh0, hi, a, t) == spent(cc, kh0, kh0, a, t));
                    assert(out_produced(cc, kh0, hi, a, amt, t) == out_produced(
                        cc,
                        kh0,
                        kh0,
                        a,
                        amt,
                        t,
                    ));
                } else {
                    assert(spent(cc, kh0, scan_hi(kh0, bi2 as int), a, t) == spent(
                        cc,
                        kh0,
                        hi,
                        a,
                        t,
                    ));
                }
                assert(index_has(s_mid, a, amt, t) <==> (index_has(s_old, a, amt, t)
                    || out_produced(cc, kh0, hi, a, amt, t)));
                assert(index_has(s_old, a, amt, t) <==> (out_produced(cc, 0, kh0, a, amt, t)
                    && !spent(cc, 0, kh0, a, t)));
                assert(out_produced(cc, 0, hi, a, amt, t) <==> (out_produced(cc, 0, kh0, a, amt, t)
                    || out_produced(cc, kh0, hi, a, amt, t)));
                assert(spent(cc, 0, hi, a, t) <==> (spent(cc, 0, kh0, a, t) || spent(
                    cc,
                    kh0,
                    hi,
                    a,
                    t,
                )));
                if out_produced(cc, kh0, hi, a, amt, t) && spent(cc, 0, kh0, a, t) {
                    assert(false);
                }
            }
        }
        self.known_blockchain_height = chain.get_height();
        proof {
            if kh0 == cc.len() - 1 {
                assert(*self == *old(self));
            }
        }
    }

    /// The index of a chain built from scratch: a fresh index brought up to
    /// the tip in one scan. The derived state is always recomputable this
    /// way.
    pub fn rebuild(chain: &Blockchain) -> (r: GlobalUtxos)
        requires
            chain.well_formed(),
        ensures
            r.known_blockchain_height == chain.chain@.len() - 1,
            synced(&r, chain.chain@),
    {
        let mut generated = GlobalUtxos::new();
        proof {
            lemma_fresh_index_synced(&generated, chain.chain@);
            lemma_empty_range(chain.chain@, 0);
            assert forall|a: Seq<u8>, amt: u64, t: Seq<u8>|
                #![trigger spent(chain.chain@, 0, 0, a, t), out_produced(chain.chain@, 0, chain.chain@.len() - 1, a, amt, t)]
                spent(chain.chain@, 0, 0, a, t) ==> !out_produced(
                    chain.chain@,
                    0,
                    chain.chain@.len() - 1,
                    a,
                    amt,
                    t,
                ) by {
                assert(!spent(chain.chain@, 0, 0, a, t));
            }
        }
        generated.find_utxos(chain);
        generated
    }
}

/// Whether the index holds one list per address.
pub open spec fn keys_unique(s: Seq<([u8; 32], Vec<(u64, [u8; 32])>)>) -> bool {
    forall|i: int, j: int|
        0 <= i < j < s.len() ==> ((#[trigger] s[i]).0)@ != ((#[trigger] s[j]).0)@
}

/// Whether no list of the index repeats a pair.
pub open spec fn all_lists_distinct(s: Seq<([u8; 32], Vec<(u64, [u8; 32])>)>) -> bool {
    forall|i: int| 0 <= i < s.len() ==> list_distinct(((#[trigger] s[i]).1)@)
}

} // verus!
