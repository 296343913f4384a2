//! The public bulletin.

use crate::bits::{in_range, in_range64};
use crate::bytes::{copy_range, le_bytes, le_value, push_all, push_le, read_le};
use crate::cs::{Commitment, Opening};
use crate::negacyclic::N;
use crate::protocol::{ClientId, NodeId, ServerId, SessionId};
use crate::rings::{CsPoly, HVCPoly, KahePoly, HVC_MODULUS, KAHE_MODULUS};
use crate::rs::Share;
use crate::share_commitment::ShareOpening;
use crate::sig::{PUBKEY_LEN, SIG_LEN};
use crate::wire::{
    law_poly64_round_trip, law_poly_round_trip, pack_poly, pack_poly64, poly_bytes, poly_bytes64,
    poly_len, poly_packed_len, poly_packed_len64, poly_value, poly_value64, unpack_poly,
    unpack_poly64,
};
use vstd::prelude::*;

verus! {

/// A client's post: ciphertext and commitment.
pub struct ClientBulletinEntry {
    pub ctxt: Vec<KahePoly>,
    pub comm: Commitment,
}

/// A run of wide polynomials, packed.
pub open spec fn wide_run(s: Seq<KahePoly>) -> Seq<u8>
    decreases s.len(),
{
    if s.len() == 0 {
        Seq::empty()
    } else {
        wide_run(s.drop_last()) + poly_bytes64(s.last().coeffs@, KAHE_MODULUS as int)
    }
}

/// Polynomial `j` of a packed run that starts at byte `at`.
pub open spec fn wide_at(data: Seq<u8>, at: int, j: int) -> Seq<i64> {
    let l = poly_len(KAHE_MODULUS as int);
    poly_value64(data.subrange(at + j * l, at + (j + 1) * l), KAHE_MODULUS as int)
}

/// Every coefficient is within the modulus.
pub open spec fn ctxt_fits(s: Seq<KahePoly>) -> bool {
    forall|j: int|
        0 <= j < s.len() ==> in_range64((#[trigger] s[j]).coeffs@, KAHE_MODULUS as int)
}

/// Whether every coefficient is within the modulus.
fn root_fits(root: &HVCPoly) -> (r: bool)
    ensures
        r == in_range(root.coeffs@, HVC_MODULUS as int),
{
    let r: bool = root.norm_at_most(HVC_MODULUS as u32);
    proof {
        if r {
            assert forall|i: int| 0 <= i < root.coeffs@.len() implies -HVC_MODULUS
                <= #[trigger] root.coeffs@[i] <= HVC_MODULUS by {
                assert(-HVC_MODULUS <= root@[i] <= HVC_MODULUS);
            }
        } else if in_range(root.coeffs@, HVC_MODULUS as int) {
            assert forall|i: int| 0 <= i < root@.len() implies -HVC_MODULUS <= #[trigger] root@[i]
                <= HVC_MODULUS by {
                assert(-HVC_MODULUS <= root.coeffs@[i] <= HVC_MODULUS);
            }
        }
    }
    r
}

impl ClientBulletinEntry {
    pub open spec fn fits(&self) -> bool {
        &&& ctxt_fits(self.ctxt@)
        &&& in_range(self.comm.root.coeffs@, HVC_MODULUS as int)
    }

    /// Whether every coefficient is within its modulus.
    pub fn check_fits(&self) -> (r: bool)
        ensures
            r == self.fits(),
    {
        for j in 0..self.ctxt.len()
            invariant
                forall|k: int|
                    0 <= k < j ==> in_range64(
                        (#[trigger] self.ctxt@[k]).coeffs@,
                        KAHE_MODULUS as int,
                    ),
        {
            let p: &KahePoly = &self.ctxt[j];
            let m: u64 = p.infinity_norm();
            if m > KAHE_MODULUS as u64 {
                proof {
                    let i = choose|i: int| 0 <= i < N && (#[trigger] p@[i] == m || p@[i] == -m);
                    assert(p.coeffs@[i] == p@[i]);
                    assert(!in_range64(self.ctxt@[j as int].coeffs@, KAHE_MODULUS as int));
                }
                return false;
            }
            assert forall|i: int| 0 <= i < p.coeffs@.len() implies -KAHE_MODULUS
                <= #[trigger] p.coeffs@[i] <= KAHE_MODULUS by {
                assert(-m <= p@[i] <= m);
            }
        }
        root_fits(&self.comm.root)
    }

    /// The number of polynomials, the polynomials, the commitment.
    pub open spec fn wire(&self) -> Seq<u8> {
        le_bytes(self.ctxt.len() as nat, 2) + wide_run(self.ctxt@) + poly_bytes(
            self.comm.root.coeffs@,
            HVC_MODULUS as int,
        )
    }

    pub fn to_bytes(&self) -> (r: Vec<u8>)
        requires
            self.fits(),
        ensures
            r@ == self.wire(),
    {
        let mut out: Vec<u8> = Vec::new();
        push_le(&mut out, self.ctxt.len() as u64, 2);
        let ghost head = out@;
        let n: usize = self.ctxt.len();
        assert(self.ctxt@.take(0) =~= Seq::<KahePoly>::empty());
        assert(head + Seq::<u8>::empty() =~= head);
        assert(head =~= le_bytes(self.ctxt.len() as nat, 2));
        for j in 0..n
            invariant
                self.fits(),
                n == self.ctxt.len(),
                out@ == head + wide_run(self.ctxt@.take(j as int)),
        {
            assert(in_range64(self.ctxt[j as int].coeffs@, KAHE_MODULUS as int));
            pack_poly64(self.ctxt[j].coeffs.as_slice(), KAHE_MODULUS, &mut out);
            proof {
                let t = self.ctxt@.take(j + 1);
                assert(t.drop_last() =~= self.ctxt@.take(j as int));
                assert(out@ =~= head + wide_run(t));
            }
        }
        assert(self.ctxt@.take(n as int) =~= self.ctxt@);
        let comm: Vec<u8> = self.comm.to_bytes();
        push_all(&mut out, &comm);
        out
    }

    /// Bytes of a post with `mu_kahe` ciphertext polynomials.
    pub fn packed_len(mu_kahe: usize) -> (r: usize)
        requires
            2 + mu_kahe * poly_len(KAHE_MODULUS as int) + poly_len(HVC_MODULUS as int)
                <= usize::MAX,
        ensures
            r == 2 + mu_kahe * poly_len(KAHE_MODULUS as int) + poly_len(HVC_MODULUS as int),
    {
        let (a, b): (usize, usize) = (
            poly_packed_len64(KAHE_MODULUS),
            poly_packed_len(HVC_MODULUS),
        );
        assert(0 <= mu_kahe * a) by (nonlinear_arith)
            requires
                mu_kahe >= 0,
                a >= 0,
        ;
        2 + mu_kahe * a + b
    }

    /// Polynomials that the header announces.
    pub open spec fn announced(data: Seq<u8>) -> int {
        le_value(data.take(2)) as int
    }

    /// Reads a post; `None` unless the length is the one its header calls for.
    pub fn from_bytes(bytes: &[u8]) -> (r: Option<Self>)
        ensures
            r is Some <==> bytes.len() >= 2 && bytes.len() == 2 + Self::announced(bytes@)
                * poly_len(KAHE_MODULUS as int) + poly_len(HVC_MODULUS as int),
            r matches Some(e) ==> e.ctxt.len() == Self::announced(bytes@),
            r matches Some(e) ==> forall|j: int|
                0 <= j < e.ctxt.len() ==> (#[trigger] e.ctxt[j]).coeffs@ == wide_at(bytes@, 2, j),
            r matches Some(e) ==> e.comm.root.coeffs@ == poly_value(
                bytes@.skip(bytes.len() - poly_len(HVC_MODULUS as int)),
                HVC_MODULUS as int,
            ),
    {
        if bytes.len() < 2 {
            return None;
        }
        assert(bytes@.subrange(0, 2) =~= bytes@.take(2));
        let n: usize = read_le(bytes, 0, 2) as usize;
        proof {
            crate::bytes::lemma_le_value(bytes@.take(2));
            reveal_with_fuel(crate::bytes::byte_span, 3);
        }
        let (kl, hl): (usize, usize) = (
            poly_packed_len64(KAHE_MODULUS),
            poly_packed_len(HVC_MODULUS),
        );
        assert(0 <= n * kl <= 65536 * usize::MAX) by (nonlinear_arith)
            requires
                n <= 65536,
                kl <= usize::MAX,
        ;
        let want: u128 = 2u128 + n as u128 * kl as u128 + hl as u128;
        if bytes.len() as u128 != want {
            return None;
        }
        let mut ctxt: Vec<KahePoly> = Vec::with_capacity(n);
        let mut start: usize = 2;
        assert(0 * kl == 0);
        for j in 0..n
            invariant
                kl == poly_len(KAHE_MODULUS as int),
                bytes.len() == 2 + n * kl + hl,
                start == 2 + j * kl,
                ctxt.len() == j,
                forall|i: int|
                    0 <= i < j ==> (#[trigger] ctxt[i]).coeffs@ == wide_at(bytes@, 2, i),
        {
            assert((j + 1) * kl == j * kl + kl && (j + 1) * kl <= n * kl) by (nonlinear_arith)
                requires
                    j + 1 <= n,
                    kl >= 0,
            ;
            let (coeffs, next): ([i64; N], usize) = unpack_poly64(bytes, start, KAHE_MODULUS);
            start = next;
            ctxt.push(KahePoly::from_coeffs(coeffs));
        }
        let rest: Vec<u8> = copy_range(bytes, start, bytes.len());
        assert(rest@ =~= bytes@.skip(start as int));
        match Commitment::from_bytes(&rest) {
            None => None,
            Some(comm) => Some(ClientBulletinEntry { ctxt, comm }),
        }
    }
}

impl Clone for ClientBulletinEntry {
    fn clone(&self) -> (r: Self)
        ensures
            r.ctxt@ == self.ctxt@,
            r.comm == self.comm,
    {
        let n: usize = self.ctxt.len();
        let mut ctxt: Vec<KahePoly> = Vec::with_capacity(n);
        for j in 0..n
            invariant
                n == self.ctxt.len(),
                ctxt@ == self.ctxt@.take(j as int),
        {
            ctxt.push(self.ctxt[j]);
            assert(ctxt@ =~= self.ctxt@.take(j + 1));
        }
        assert(self.ctxt@.take(n as int) =~= self.ctxt@);
        ClientBulletinEntry { ctxt, comm: self.comm }
    }
}

proof fn lemma_wide_run(s: Seq<KahePoly>)
    requires
        ctxt_fits(s),
    ensures
        wide_run(s).len() == s.len() * poly_len(KAHE_MODULUS as int),
        forall|j: int| 0 <= j < s.len() ==> (#[trigger] s[j]).coeffs@ == wide_at(wide_run(s), 0, j),
    decreases s.len(),
{
    let l = poly_len(KAHE_MODULUS as int);
    if s.len() == 0 {
        assert(0 * l == 0);
    } else {
        let low = s.drop_last();
        let n = low.len() as int;
        assert forall|j: int| 0 <= j < low.len() implies in_range64(
            (#[trigger] low[j]).coeffs@,
            KAHE_MODULUS as int,
        ) by {
            assert(in_range64(s[j].coeffs@, KAHE_MODULUS as int));
        }
        lemma_wide_run(low);
        assert(in_range64(s[n].coeffs@, KAHE_MODULUS as int));
        law_poly64_round_trip(s[n].coeffs@, KAHE_MODULUS as u64);
        assert((n + 1) * l == n * l + l) by (nonlinear_arith);
        let (all, part) = (wide_run(s), wide_run(low));
        assert forall|j: int| 0 <= j < s.len() implies (#[trigger] s[j]).coeffs@ == wide_at(
            all,
            0,
            j,
        ) by {
            assert(0 <= j * l && (j + 1) * l == j * l + l && (j < n ==> (j + 1) * l <= n * l))
                by (nonlinear_arith)
                requires
                    0 <= j,
                    0 <= l,
            ;
            if j < n {
                assert(low[j] == s[j]);
                assert(all.subrange(0 + j * l, 0 + (j + 1) * l) =~= part.subrange(
                    0 + j * l,
                    0 + (j + 1) * l,
                ));
            } else {
                assert(all.subrange(0 + n * l, 0 + (n + 1) * l) =~= poly_bytes64(
                    s[n].coeffs@,
                    KAHE_MODULUS as int,
                ));
            }
        }
    }
}

/// Reading a written post gives it back.
pub proof fn law_client_post_round_trip(e: ClientBulletinEntry, j: int)
    requires
        e.fits(),
        e.ctxt.len() < 65536,
    ensures
        e.wire().len() == 2 + ClientBulletinEntry::announced(e.wire()) * poly_len(
            KAHE_MODULUS as int,
        ) + poly_len(HVC_MODULUS as int),
        ClientBulletinEntry::announced(e.wire()) == e.ctxt.len(),
        0 <= j < e.ctxt.len() ==> wide_at(e.wire(), 2, j) == e.ctxt[j].coeffs@,
        poly_value(
            e.wire().skip(e.wire().len() - poly_len(HVC_MODULUS as int)),
            HVC_MODULUS as int,
        ) == e.comm.root.coeffs@,
{
    let w = e.wire();
    let l = poly_len(KAHE_MODULUS as int);
    let (head, run, tail) = (
        le_bytes(e.ctxt.len() as nat, 2),
        wide_run(e.ctxt@),
        poly_bytes(e.comm.root.coeffs@, HVC_MODULUS as int),
    );
    crate::bytes::lemma_le_len(e.ctxt.len() as nat, 2);
    reveal_with_fuel(crate::bytes::byte_span, 3);
    crate::bytes::lemma_le_round_trip(e.ctxt.len() as nat, 2);
    lemma_wide_run(e.ctxt@);
    law_poly_round_trip(e.comm.root.coeffs@, HVC_MODULUS as u32);
    assert(w.take(2) =~= head);
    assert(w.skip(w.len() - tail.len()) =~= tail);
    if 0 <= j < e.ctxt.len() {
        assert(0 <= j * l && (j + 1) * l == j * l + l && (j + 1) * l <= e.ctxt.len() * l)
            by (nonlinear_arith)
            requires
                0 <= j < e.ctxt.len(),
                0 <= l,
        ;
        assert(w.subrange(2 + j * l, 2 + (j + 1) * l) =~= run.subrange(
            0 + j * l,
            0 + (j + 1) * l,
        ));
        assert(e.ctxt@[j].coeffs@ == wide_at(run, 0, j));
    }
}

/// A client's post in the sharded mode.
pub struct RsClientBulletinEntry {
    pub comm: Commitment,
    /// Root over the client's coded shares, one leaf per lane.
    pub share_root: HVCPoly,
    pub pubkey: [u8; PUBKEY_LEN],
    pub sig: [u8; SIG_LEN],
}

/// Bytes of one coded polynomial: two residues of three bytes per coefficient.
pub fn rs_poly_packed_len() -> (r: usize)
    ensures
        r == N * 2 * 3,
{
    N * 2 * 3
}

/// Separates signed posts from other signatures.
pub open spec fn post_domain() -> Seq<u8> {
    seq![
        112u8, 97u8, 110u8, 101u8, 116u8, 105u8, 101u8, 114u8, 101u8, 47u8, 114u8, 115u8, 45u8, 98u8, 117u8, 108u8, 108u8, 101u8, 116u8, 105u8, 110u8, 47u8, 118u8, 51u8,
    ]
}

impl RsClientBulletinEntry {
    pub open spec fn fits(&self) -> bool {
        &&& in_range(self.comm.root.coeffs@, HVC_MODULUS as int)
        &&& in_range(self.share_root.coeffs@, HVC_MODULUS as int)
    }

    /// Whether every coefficient is within the modulus.
    pub fn check_fits(&self) -> (r: bool)
        ensures
            r == self.fits(),
    {
        root_fits(&self.comm.root) && root_fits(&self.share_root)
    }

    /// What a client signs.
    pub open spec fn signed(
        sid: SessionId,
        client_id: ClientId,
        comm: Commitment,
        share_root: HVCPoly,
    ) -> Seq<u8> {
        post_domain() + sid.0@ + le_bytes(client_id.0 as nat, 4) + poly_bytes(
            comm.root.coeffs@,
            HVC_MODULUS as int,
        ) + poly_bytes(share_root.coeffs@, HVC_MODULUS as int)
    }

    pub fn signing_bytes(
        sid: &SessionId,
        client_id: ClientId,
        comm: &Commitment,
        share_root: &HVCPoly,
    ) -> (r: Vec<u8>)
        requires
            in_range(comm.root.coeffs@, HVC_MODULUS as int),
            in_range(share_root.coeffs@, HVC_MODULUS as int),
        ensures
            r@ == Self::signed(*sid, client_id, *comm, *share_root),
    {
        let domain: [u8; 24] = [112u8, 97, 110, 101, 116, 105, 101, 114, 101, 47, 114, 115, 45, 98, 117, 108, 108, 101, 116, 105, 110, 47, 118, 51];
        let mut out: Vec<u8> = Vec::new();
        push_all(&mut out, domain.as_slice());
        assert(out@ =~= post_domain());
        push_all(&mut out, sid.0.as_slice());
        push_le(&mut out, client_id.0 as u64, 4);
        let c: Vec<u8> = comm.to_bytes();
        push_all(&mut out, &c);
        pack_poly(share_root.coeffs.as_slice(), HVC_MODULUS, &mut out);
        out
    }

    /// Commitment, root, key, signature.
    pub open spec fn wire(&self) -> Seq<u8> {
        poly_bytes(self.comm.root.coeffs@, HVC_MODULUS as int) + poly_bytes(
            self.share_root.coeffs@,
            HVC_MODULUS as int,
        ) + self.pubkey@ + self.sig@
    }

    pub fn to_bytes(&self) -> (r: Vec<u8>)
        requires
            self.fits(),
        ensures
            r@ == self.wire(),
    {
        let mut out: Vec<u8> = self.comm.to_bytes();
        pack_poly(self.share_root.coeffs.as_slice(), HVC_MODULUS, &mut out);
        push_all(&mut out, self.pubkey.as_slice());
        push_all(&mut out, self.sig.as_slice());
        out
    }

    /// The same whatever the message length.
    pub fn packed_len() -> (r: usize)
        ensures
            r == 2 * poly_len(HVC_MODULUS as int) + PUBKEY_LEN + SIG_LEN,
    {
        2 * poly_packed_len(HVC_MODULUS) + PUBKEY_LEN + SIG_LEN
    }

    /// Reads a post; `None` unless it has the one length there is.
    pub fn from_bytes(bytes: &[u8]) -> (r: Option<Self>)
        ensures
            r is Some <==> bytes.len() == 2 * poly_len(HVC_MODULUS as int) + PUBKEY_LEN + SIG_LEN,
            r matches Some(e) ==> ({
                let l = poly_len(HVC_MODULUS as int);
                &&& e.comm.root.coeffs@ == poly_value(bytes@.subrange(0, l), HVC_MODULUS as int)
                &&& e.share_root.coeffs@ == poly_value(
                    bytes@.subrange(l, 2 * l),
                    HVC_MODULUS as int,
                )
                &&& e.pubkey@ == bytes@.subrange(2 * l, 2 * l + 33)
                &&& e.sig@ == bytes@.subrange(2 * l + 33, 2 * l + 97)
            }),
    {
        if bytes.len() != Self::packed_len() {
            return None;
        }
        let l: usize = poly_packed_len(HVC_MODULUS);
        let (c, at): ([i32; N], usize) = unpack_poly(bytes, 0, HVC_MODULUS);
        let (root, start): ([i32; N], usize) = unpack_poly(bytes, at, HVC_MODULUS);
        let mut pubkey: [u8; PUBKEY_LEN] = [0u8; PUBKEY_LEN];
        for i in 0..PUBKEY_LEN
            invariant
                start + 97 == bytes.len(),
                forall|k: int| 0 <= k < i ==> #[trigger] pubkey@[k] == bytes@[start + k],
        {
            pubkey[i] = bytes[start + i];
        }
        let mut sig: [u8; SIG_LEN] = [0u8; SIG_LEN];
        for i in 0..SIG_LEN
            invariant
                start + 97 == bytes.len(),
                forall|k: int| 0 <= k < i ==> #[trigger] sig@[k] == bytes@[start + 33 + k],
        {
            sig[i] = bytes[start + 33 + i];
        }
        assert(pubkey@ =~= bytes@.subrange(start as int, start + 33));
        assert(sig@ =~= bytes@.subrange(start + 33, start + 97));
        Some(
            RsClientBulletinEntry {
                comm: Commitment { root: HVCPoly::from_coeffs(c) },
                share_root: HVCPoly::from_coeffs(root),
                pubkey,
                sig,
            },
        )
    }
}

impl Clone for RsClientBulletinEntry {
    fn clone(&self) -> (r: Self)
        ensures
            r == *self,
    {
        RsClientBulletinEntry {
            comm: self.comm,
            share_root: self.share_root,
            pubkey: self.pubkey,
            sig: self.sig,
        }
    }
}

/// Reading a written post gives it back.
pub proof fn law_rs_post_round_trip(e: RsClientBulletinEntry)
    requires
        e.fits(),
    ensures
        ({
            let (w, l) = (e.wire(), poly_len(HVC_MODULUS as int));
            &&& w.len() == 2 * l + PUBKEY_LEN + SIG_LEN
            &&& poly_value(w.subrange(0, l), HVC_MODULUS as int) == e.comm.root.coeffs@
            &&& poly_value(w.subrange(l, 2 * l), HVC_MODULUS as int) == e.share_root.coeffs@
            &&& w.subrange(2 * l, 2 * l + 33) == e.pubkey@
            &&& w.subrange(2 * l + 33, 2 * l + 97) == e.sig@
        }),
{
    let (w, l) = (e.wire(), poly_len(HVC_MODULUS as int));
    law_poly_round_trip(e.comm.root.coeffs@, HVC_MODULUS as u32);
    law_poly_round_trip(e.share_root.coeffs@, HVC_MODULUS as u32);
    assert(w.subrange(0, l) =~= poly_bytes(e.comm.root.coeffs@, HVC_MODULUS as int));
    assert(w.subrange(l, 2 * l) =~= poly_bytes(e.share_root.coeffs@, HVC_MODULUS as int));
    assert(w.subrange(2 * l, 2 * l + 33) =~= e.pubkey@);
    assert(w.subrange(2 * l + 33, 2 * l + 97) =~= e.sig@);
}

/// A lane's post.
#[derive(Clone)]
pub struct RsNodeBulletinEntry {
    pub node_id: NodeId,
    pub clients: Vec<ClientId>,
    /// Positional sum of the lane's shares.
    pub share_sum: Share,
    /// The summed opening: proves that the sum opens the summed roots.
    pub agg_open: ShareOpening,
}

/// A server's post.
pub struct ServerBulletinEntry {
    pub server_id: ServerId,
    pub clients: Vec<ClientId>,
    pub agg_open: Opening,
    pub agg_share: CsPoly,
}

pub(crate) fn copy_ids(s: &Vec<ClientId>) -> (r: Vec<ClientId>)
    ensures
        r@ == s@,
{
    let n: usize = s.len();
    let mut r: Vec<ClientId> = Vec::with_capacity(n);
    for i in 0..n
        invariant
            n == s.len(),
            r@ == s@.take(i as int),
    {
        r.push(s[i]);
        assert(r@ =~= s@.take(i + 1));
    }
    assert(s@.take(n as int) =~= s@);
    r
}

/// Same values.
pub open spec fn same_opening(a: Opening, b: Opening) -> bool {
    &&& a.server_index == b.server_index
    &&& a.path_index == b.path_index
    &&& a.kappa_cs == b.kappa_cs
    &&& a.mu_cs == b.mu_cs
    &&& a.stored_path_len == b.stored_path_len
    &&& a.rs@ == b.rs@
    &&& a.data@ == b.data@
}

/// Same values.
pub open spec fn same_post(a: ServerBulletinEntry, b: ServerBulletinEntry) -> bool {
    &&& a.server_id == b.server_id
    &&& a.clients@ == b.clients@
    &&& same_opening(a.agg_open, b.agg_open)
    &&& a.agg_share == b.agg_share
}

impl Clone for ServerBulletinEntry {
    fn clone(&self) -> (r: Self)
        ensures
            same_post(r, *self),
    {
        let o: &Opening = &self.agg_open;
        let (n, m): (usize, usize) = (o.rs.len(), o.data.len());
        let mut rs: Vec<CsPoly> = Vec::with_capacity(n);
        for i in 0..n
            invariant
                n == o.rs.len(),
                rs@ == o.rs@.take(i as int),
        {
            rs.push(o.rs[i]);
            assert(rs@ =~= o.rs@.take(i + 1));
        }
        assert(o.rs@.take(n as int) =~= o.rs@);
        let mut data: Vec<HVCPoly> = Vec::with_capacity(m);
        for i in 0..m
            invariant
                m == o.data.len(),
                data@ == o.data@.take(i as int),
        {
            data.push(o.data[i]);
            assert(data@ =~= o.data@.take(i + 1));
        }
        assert(o.data@.take(m as int) =~= o.data@);
        ServerBulletinEntry {
            server_id: self.server_id,
            clients: copy_ids(&self.clients),
            agg_open: Opening {
                server_index: o.server_index,
                path_index: o.path_index,
                kappa_cs: o.kappa_cs,
                mu_cs: o.mu_cs,
                stored_path_len: o.stored_path_len,
                rs,
                data,
            },
            agg_share: self.agg_share,
        }
    }
}

/// What a round has published so far.
pub struct InMemoryBulletin {
    pub clients: Vec<(ClientId, ClientBulletinEntry)>,
    pub servers: Vec<ServerBulletinEntry>,
    pub canonical: Option<Vec<ClientId>>,
}

impl InMemoryBulletin {
    pub fn new() -> (r: Self)
        ensures
            r.clients@ == Seq::<(ClientId, ClientBulletinEntry)>::empty(),
            r.servers@ == Seq::<ServerBulletinEntry>::empty(),
            r.canonical is None,
    {
        InMemoryBulletin { clients: Vec::new(), servers: Vec::new(), canonical: None }
    }

    pub fn publish_client(&mut self, id: ClientId, p: ClientBulletinEntry)
        ensures
            final(self).clients@ == old(self).clients@.push((id, p)),
            final(self).servers == old(self).servers,
            final(self).canonical == old(self).canonical,
    {
        self.clients.push((id, p));
    }

    pub fn publish_server(&mut self, p: ServerBulletinEntry)
        ensures
            final(self).servers@ == old(self).servers@.push(p),
            final(self).clients == old(self).clients,
            final(self).canonical == old(self).canonical,
    {
        self.servers.push(p);
    }

    pub fn publish_canonical(&mut self, set: Vec<ClientId>)
        ensures
            final(self).canonical == Some(set),
            final(self).clients == old(self).clients,
            final(self).servers == old(self).servers,
    {
        self.canonical = Some(set);
    }

    pub fn clients(&self) -> (r: Vec<(ClientId, ClientBulletinEntry)>)
        ensures
            r.len() == self.clients.len(),
            forall|i: int|
                0 <= i < r.len() ==> (#[trigger] r[i]).0 == self.clients[i].0 && r[i].1.ctxt@
                    == self.clients[i].1.ctxt@ && r[i].1.comm == self.clients[i].1.comm,
    {
        let n: usize = self.clients.len();
        let mut r: Vec<(ClientId, ClientBulletinEntry)> = Vec::with_capacity(n);
        for i in 0..n
            invariant
                n == self.clients.len(),
                r.len() == i,
                forall|k: int|
                    0 <= k < i ==> (#[trigger] r[k]).0 == self.clients[k].0 && r[k].1.ctxt@
                        == self.clients[k].1.ctxt@ && r[k].1.comm == self.clients[k].1.comm,
        {
            let e: ClientBulletinEntry = self.clients[i].1.clone();
            r.push((self.clients[i].0, e));
        }
        r
    }

    pub fn servers(&self) -> (r: Vec<ServerBulletinEntry>)
        ensures
            r.len() == self.servers.len(),
            forall|i: int| 0 <= i < r.len() ==> same_post(#[trigger] r[i], self.servers[i]),
    {
        let n: usize = self.servers.len();
        let mut r: Vec<ServerBulletinEntry> = Vec::with_capacity(n);
        for i in 0..n
            invariant
                n == self.servers.len(),
                r.len() == i,
                forall|k: int| 0 <= k < i ==> same_post(#[trigger] r[k], self.servers[k]),
        {
            r.push(self.servers[i].clone());
        }
        r
    }

    pub fn canonical(&self) -> (r: Option<Vec<ClientId>>)
        ensures
            r is Some <==> self.canonical is Some,
            r matches Some(s) ==> self.canonical matches Some(t) && s@ == t@,
    {
        match &self.canonical {
            None => None,
            Some(s) => Some(copy_ids(s)),
        }
    }
}

impl Default for InMemoryBulletin {
    fn default() -> (r: Self)
        ensures
            r.clients@ == Seq::<(ClientId, ClientBulletinEntry)>::empty(),
            r.servers@ == Seq::<ServerBulletinEntry>::empty(),
            r.canonical is None,
    {
        InMemoryBulletin::new()
    }
}

// ---------------------------------------------------------------
// Layout
// ---------------------------------------------------------------

/// A client's post holds its number of ciphertext polynomials in two bytes, least
/// significant first, then these polynomials packed against their modulus, in
/// order, then the root packed against its own.
pub proof fn law_client_post_layout(e: ClientBulletinEntry, j: int)
    requires
        e.fits(),
        0 <= j < e.ctxt.len() < 65536,
    ensures
        ({
            let (w, l) = (e.wire(), poly_len(KAHE_MODULUS as int));
            &&& w[0] + 256 * w[1] == e.ctxt.len()
            &&& w.subrange(2 + j * l, 2 + (j + 1) * l) == poly_bytes64(
                e.ctxt[j].coeffs@,
                KAHE_MODULUS as int,
            )
            &&& w.skip(2 + e.ctxt.len() * l) == poly_bytes(
                e.comm.root.coeffs@,
                HVC_MODULUS as int,
            )
        }),
{
    let (w, l) = (e.wire(), poly_len(KAHE_MODULUS as int));
    let (head, run) = (le_bytes(e.ctxt.len() as nat, 2), wide_run(e.ctxt@));
    crate::bytes::lemma_le_len(e.ctxt.len() as nat, 2);
    reveal_with_fuel(crate::bytes::byte_span, 3);
    crate::bytes::lemma_le_round_trip(e.ctxt.len() as nat, 2);
    assert(le_value(head) == head[0] + 256 * head[1]) by {
        reveal_with_fuel(le_value, 3);
    }
    assert(w[0] == head[0] && w[1] == head[1]);
    lemma_wide_run(e.ctxt@);
    lemma_wide_part(e.ctxt@, j);
    assert((j + 1) * l == j * l + l) by (nonlinear_arith);
    assert(0 <= j * l && (j + 1) * l <= e.ctxt.len() * l) by (nonlinear_arith)
        requires
            0 <= j,
            j + 1 <= e.ctxt.len(),
            l >= 0,
    ;
    assert(run.len() == e.ctxt.len() * l);
    assert(w.subrange(2 + j * l, 2 + (j + 1) * l) =~= run.subrange(j * l, (j + 1) * l));
    assert(w.skip(2 + e.ctxt.len() * l) =~= poly_bytes(e.comm.root.coeffs@, HVC_MODULUS as int));
}

proof fn lemma_wide_part(s: Seq<KahePoly>, j: int)
    requires
        ctxt_fits(s),
        0 <= j < s.len(),
    ensures
        poly_len(KAHE_MODULUS as int) >= 0,
        wide_run(s).subrange(
            j * poly_len(KAHE_MODULUS as int),
            (j + 1) * poly_len(KAHE_MODULUS as int),
        ) == poly_bytes64(s[j].coeffs@, KAHE_MODULUS as int),
    decreases s.len(),
{
    let (b, l, low) = (KAHE_MODULUS as int, poly_len(KAHE_MODULUS as int), s.drop_last());
    let n = low.len() as int;
    assert(ctxt_fits(low)) by {
        assert forall|i: int| 0 <= i < low.len() implies in_range64(
            (#[trigger] low[i]).coeffs@,
            b,
        ) by {
            assert(low[i] == s[i]);
        }
    }
    lemma_wide_run(low);
    lemma_wide_run(s);
    assert(in_range64(s[n].coeffs@, b));
    law_poly64_round_trip(s[n].coeffs@, KAHE_MODULUS as u64);
    assert((n + 1) * l == n * l + l) by (nonlinear_arith);
    assert((j + 1) * l == j * l + l) by (nonlinear_arith);
    assert(0 <= j * l <= n * l) by (nonlinear_arith)
        requires
            0 <= j <= n,
            l >= 0,
    ;
    let all = wide_run(s);
    if j == n {
        assert(all.subrange(j * l, (j + 1) * l) =~= poly_bytes64(s[j].coeffs@, b));
    } else {
        lemma_wide_part(low, j);
        assert((j + 1) * l <= n * l) by (nonlinear_arith)
            requires
                j + 1 <= n,
                l >= 0,
        ;
        assert(all.subrange(j * l, (j + 1) * l) =~= wide_run(low).subrange(j * l, (j + 1) * l));
    }
}

/// What a client signs determines the session, the client, the commitment and
/// the share root: a signature on one post is a signature on no other.
pub proof fn law_signed_bytes_differ(
    sid: SessionId,
    id: ClientId,
    comm: Commitment,
    root: HVCPoly,
    sid2: SessionId,
    id2: ClientId,
    comm2: Commitment,
    root2: HVCPoly,
)
    requires
        in_range(comm.root.coeffs@, HVC_MODULUS as int),
        in_range(root.coeffs@, HVC_MODULUS as int),
        in_range(comm2.root.coeffs@, HVC_MODULUS as int),
        in_range(root2.coeffs@, HVC_MODULUS as int),
        RsClientBulletinEntry::signed(sid, id, comm, root) == RsClientBulletinEntry::signed(
            sid2,
            id2,
            comm2,
            root2,
        ),
    ensures
        sid.0@ == sid2.0@,
        id == id2,
        comm.root.coeffs@ == comm2.root.coeffs@,
        root.coeffs@ == root2.coeffs@,
{
    let (a, b) = (
        RsClientBulletinEntry::signed(sid, id, comm, root),
        RsClientBulletinEntry::signed(sid2, id2, comm2, root2),
    );
    let (l, m) = (poly_len(HVC_MODULUS as int), HVC_MODULUS as int);
    law_poly_round_trip(comm.root.coeffs@, HVC_MODULUS as u32);
    law_poly_round_trip(root.coeffs@, HVC_MODULUS as u32);
    law_poly_round_trip(comm2.root.coeffs@, HVC_MODULUS as u32);
    law_poly_round_trip(root2.coeffs@, HVC_MODULUS as u32);
    crate::bytes::lemma_le_len(id.0 as nat, 4);
    crate::bytes::lemma_le_len(id2.0 as nat, 4);
    reveal_with_fuel(crate::bytes::byte_span, 5);
    crate::bytes::lemma_le_round_trip(id.0 as nat, 4);
    crate::bytes::lemma_le_round_trip(id2.0 as nat, 4);
    assert(post_domain().len() == 24);
    assert(a.subrange(24, 56) =~= sid.0@ && b.subrange(24, 56) =~= sid2.0@);
    assert(a.subrange(56, 60) =~= le_bytes(id.0 as nat, 4));
    assert(b.subrange(56, 60) =~= le_bytes(id2.0 as nat, 4));
    assert(a.subrange(60, 60 + l) =~= poly_bytes(comm.root.coeffs@, m));
    assert(b.subrange(60, 60 + l) =~= poly_bytes(comm2.root.coeffs@, m));
    assert(a.subrange(60 + l, 60 + 2 * l) =~= poly_bytes(root.coeffs@, m));
    assert(b.subrange(60 + l, 60 + 2 * l) =~= poly_bytes(root2.coeffs@, m));
}

} // verus!
