//! The sponsor addresses the pool signs for: which signer signs for an
//! address, and the address to hand out next, in turn.

use vstd::prelude::*;
use crate::base_types::SuiAddress;

verus! {

#[derive(Clone, Copy, Debug, PartialEq, Eq, Structural)]
pub enum SignerError {
    /// No signer signs for the address.
    NoSignerFound(SuiAddress),
}

/// The signers' addresses, as specification, and the turn of the next one.
pub struct TxSignerView {
    pub addresses: Seq<SuiAddress>,
    pub next_signer_idx: usize,
}

/// The last index of `addresses` that holds `a`: a later signer with the same
/// address takes the place of an earlier one.
pub open spec fn last_index_of(addresses: Seq<SuiAddress>, a: SuiAddress) -> int {
    choose|i: int| 0 <= i < addresses.len() && addresses[i] == a
        && forall|j: int| i < j < addresses.len() ==> addresses[j] != a
}

/// The addresses of the signers, in order, and the turn of the next address
/// handed out.
pub struct TxSigner {
    sui_addresses: Vec<SuiAddress>,
    next_signer_idx: usize,
}

impl View for TxSigner {
    type V = TxSignerView;

    closed spec fn view(&self) -> TxSignerView {
        TxSignerView { addresses: self.sui_addresses@, next_signer_idx: self.next_signer_idx }
    }
}

impl TxSigner {
    /// Signers with the given addresses; the first turn is the first signer's.
    pub fn new(sui_addresses: Vec<SuiAddress>) -> (r: Self)
        ensures
            r@.addresses == sui_addresses@,
            r@.next_signer_idx == 0,
    {
        TxSigner { sui_addresses, next_signer_idx: 0 }
    }

    /// The addresses of all signers.
    pub fn get_all_addresses(&self) -> (r: Vec<SuiAddress>)
        ensures
            r@ == self@.addresses,
    {
        let mut r: Vec<SuiAddress> = Vec::new();
        let mut i: usize = 0;
        while i < self.sui_addresses.len()
            invariant
                i <= self.sui_addresses@.len(),
                r@ == self.sui_addresses@.take(i as int),
            decreases self.sui_addresses.len() - i,
        {
            r.push(self.sui_addresses[i]);
            proof {
                assert(self.sui_addresses@.take(i as int + 1) =~= r@);
            }
            i = i + 1;
        }
        proof {
            assert(self.sui_addresses@.take(i as int) =~= self.sui_addresses@);
        }
        r
    }

    /// Whether some signer signs for `address`.
    pub fn is_valid_address(&self, address: &SuiAddress) -> (r: bool)
        ensures
            r == self@.addresses.contains(*address),
    {
        let mut i: usize = 0;
        while i < self.sui_addresses.len()
            invariant
                i <= self.sui_addresses@.len(),
                forall|j: int| 0 <= j < i ==> self.sui_addresses@[j] != *address,
            decreases self.sui_addresses.len() - i,
        {
            if self.sui_addresses[i] == *address {
                return true;
            }
            i = i + 1;
        }
        false
    }

    /// The address whose turn it is; the turn passes to the next signer,
    /// round the list. The turn counter wraps at its maximum.
    pub fn get_one_address(&mut self) -> (r: SuiAddress)
        requires
            old(self)@.addresses.len() > 0,
        ensures
            r == old(self)@.addresses[(old(self)@.next_signer_idx as int) % (old(self)@.addresses.len() as int)],
            final(self)@.addresses == old(self)@.addresses,
            final(self)@.next_signer_idx == old(self)@.next_signer_idx.wrapping_add(1),
    {
        let idx = self.next_signer_idx;
        self.next_signer_idx = idx.wrapping_add(1);
        self.sui_addresses[idx % self.sui_addresses.len()]
    }

    /// The index of the signer that signs for `sponsor_address`: the last
    /// signer with that address.
    pub fn signer_index(&self, sponsor_address: SuiAddress) -> (r: Result<usize, SignerError>)
        ensures
            self@.addresses.contains(sponsor_address) ==> r == Ok::<usize, SignerError>(
                last_index_of(self@.addresses, sponsor_address) as usize),
            !self@.addresses.contains(sponsor_address) ==> r == Err::<usize, SignerError>(
                SignerError::NoSignerFound(sponsor_address)),
    {
        let mut i: usize = self.sui_addresses.len();
        while i > 0
            invariant
                i <= self.sui_addresses@.len(),
                forall|j: int| i <= j < self.sui_addresses@.len() ==> self.sui_addresses@[j] != sponsor_address,
            decreases i,
        {
            if self.sui_addresses[i - 1] == sponsor_address {
                proof {
                    let a = self.sui_addresses@;
                    let k = last_index_of(a, sponsor_address);
                    assert(0 <= i - 1 < a.len() && a[i - 1] == sponsor_address
                        && forall|j: int| i - 1 < j < a.len() ==> a[j] != sponsor_address);
                    assert(k == i - 1);
                }
                return Ok(i - 1);
            }
            i = i - 1;
        }
        Err(SignerError::NoSignerFound(sponsor_address))
    }
}

/// Addresses are handed out in turn: from any turn, the next `len` turns name
/// every signer's address.
pub proof fn law_round_robin_covers_all(addresses: Seq<SuiAddress>, next: usize, k: int)
    requires
        addresses.len() > 0,
        0 <= k < addresses.len(),
    ensures
        exists|i: int| 0 <= i < addresses.len() && #[trigger] addresses[(next + i) % (addresses.len() as int)] == addresses[k],
{
    let m = addresses.len() as int;
    let i = (k - next) % m;
    vstd::arithmetic::div_mod::lemma_add_mod_noop_right(next as int, k - next, m);
    vstd::arithmetic::div_mod::lemma_small_mod(k as nat, m as nat);
    assert((next + i) % m == k);
    assert(addresses[(next + i) % m] == addresses[k]);
}

} // verus!
