//! The plan of a measurement sweep: who is timed, how cells are named, seeded
//! and sized, and how the tables of two runs are put together.

pub mod text;

use crate::bytes::{copy_range, le_bytes, push_all, push_le};
use crate::codec::{BYTES_PER_COEFF, BYTES_PER_POLY};
use crate::hash::{sha256, sha256_of};
use text::{
    decimal, fields, find_bytes, joined, law_decimal_round_trip, lemma_fields, position,
    push_decimal, same_bytes, split, texts, trim, trimmed, COMMA,
};
use vstd::prelude::*;

verus! {

/// The party a timed phase belongs to.
#[derive(Clone, Copy, Debug, PartialEq, Eq, Structural)]
pub enum Owner {
    Client,
    Server,
    Verifier,
    Agg,
    Rs,
}

/// The name of a party in a list of roles.
pub open spec fn role_name(o: Owner) -> Seq<u8> {
    match o {
        Owner::Client => seq![99u8, 108u8, 105u8, 101u8, 110u8, 116u8],
        Owner::Server => seq![115u8, 101u8, 114u8, 118u8, 101u8, 114u8],
        Owner::Verifier => seq![118u8, 101u8, 114u8, 105u8, 102u8, 105u8, 101u8, 114u8],
        Owner::Agg => seq![97u8, 103u8, 103u8],
        Owner::Rs => seq![114u8, 115u8],
    }
}

/// The word that stands for every party.
pub open spec fn all_name() -> Seq<u8> {
    seq![97u8, 108u8, 108u8]
}

/// The name of a party.
pub fn name_of_role(o: Owner) -> (r: Vec<u8>)
    ensures
        r@ == role_name(o),
{
    let out: Vec<u8> = match o {
        Owner::Client => vec![99u8, 108u8, 105u8, 101u8, 110u8, 116u8],
        Owner::Server => vec![115u8, 101u8, 114u8, 118u8, 101u8, 114u8],
        Owner::Verifier => vec![118u8, 101u8, 114u8, 105u8, 102u8, 105u8, 101u8, 114u8],
        Owner::Agg => vec![97u8, 103u8, 103u8],
        Owner::Rs => vec![114u8, 115u8],
    };
    assert(out@ =~= role_name(o));
    out
}

/// The parties whose phases a run records.
#[derive(Clone, Copy, Debug, PartialEq, Eq, Structural)]
pub struct Roles {
    pub client: bool,
    pub server: bool,
    pub verifier: bool,
    pub agg: bool,
    pub rs: bool,
}

/// One of the first `n` entries names `o`.
pub open spec fn named(f: Seq<Seq<u8>>, n: int, o: Owner) -> bool {
    exists|i: int| 0 <= i < n && trimmed(#[trigger] f[i]) == role_name(o)
}

/// An entry that names a party.
pub open spec fn is_role(entry: Seq<u8>) -> bool {
    exists|o: Owner| entry == #[trigger] role_name(o)
}

impl Roles {
    /// Whether the phases of `o` are recorded.
    pub open spec fn records(&self, o: Owner) -> bool {
        match o {
            Owner::Client => self.client,
            Owner::Server => self.server,
            Owner::Verifier => self.verifier,
            Owner::Agg => self.agg,
            Owner::Rs => self.rs,
        }
    }

    /// Whether the phases of `o` are recorded.
    pub fn owns(&self, o: Owner) -> (r: bool)
        ensures
            r == self.records(o),
    {
        match o {
            Owner::Client => self.client,
            Owner::Server => self.server,
            Owner::Verifier => self.verifier,
            Owner::Agg => self.agg,
            Owner::Rs => self.rs,
        }
    }

    /// Every party.
    pub fn all() -> (r: Self)
        ensures
            forall|o: Owner| #[trigger] r.records(o),
    {
        Roles { client: true, server: true, verifier: true, agg: true, rs: true }
    }

    /// Reads a list such as `server,verifier`. A blank text and `all` stand for
    /// every party; `None` where an entry names none.
    pub fn from_env_str(raw: &[u8]) -> (r: Option<Self>)
        ensures
            ({
                let f = fields(raw@, COMMA);
                if trimmed(raw@).len() == 0 || trimmed(raw@) == all_name() {
                    r matches Some(roles) && (forall|o: Owner| #[trigger] roles.records(o))
                } else {
                    match r {
                        Some(roles) => (forall|i: int|
                            0 <= i < f.len() ==> is_role(trimmed(#[trigger] f[i]))) && (forall|
                            o: Owner,
                        | #[trigger]
                            roles.records(o) == named(f, f.len() as int, o)),
                        None => exists|i: int|
                            0 <= i < f.len() && !is_role(trimmed(#[trigger] f[i])),
                    }
                }
            }),
    {
        let bare: Vec<u8> = trim(raw);
        let every: Vec<u8> = vec![97u8, 108u8, 108u8];
        assert(every@ =~= all_name());
        if bare.len() == 0 || same_bytes(bare.as_slice(), every.as_slice()) {
            return Some(Self::all());
        }
        let parts: Vec<Vec<u8>> = split(raw, COMMA);
        let ghost f = fields(raw@, COMMA);
        assert(texts(parts@).len() == f.len());
        let client: Vec<u8> = name_of_role(Owner::Client);
        let server: Vec<u8> = name_of_role(Owner::Server);
        let verifier: Vec<u8> = name_of_role(Owner::Verifier);
        let agg: Vec<u8> = name_of_role(Owner::Agg);
        let rs: Vec<u8> = name_of_role(Owner::Rs);
        let mut roles = Roles {
            client: false,
            server: false,
            verifier: false,
            agg: false,
            rs: false,
        };
        assert forall|o: Owner| #[trigger] roles.records(o) == named(f, 0, o) by {}
        for i in 0..parts.len()
            invariant
                texts(parts@) == f,
                f == fields(raw@, COMMA),
                parts.len() == f.len(),
                trimmed(raw@).len() > 0,
                trimmed(raw@) != all_name(),
                client@ == role_name(Owner::Client),
                server@ == role_name(Owner::Server),
                verifier@ == role_name(Owner::Verifier),
                agg@ == role_name(Owner::Agg),
                rs@ == role_name(Owner::Rs),
                forall|k: int| 0 <= k < i ==> is_role(trimmed(#[trigger] f[k])),
                forall|o: Owner| #[trigger] roles.records(o) == named(f, i as int, o),
        {
            assert(texts(parts@)[i as int] == parts@[i as int]@);
            let entry: Vec<u8> = trim(parts[i].as_slice());
            let is_client: bool = same_bytes(entry.as_slice(), client.as_slice());
            let is_server: bool = same_bytes(entry.as_slice(), server.as_slice());
            let is_verifier: bool = same_bytes(entry.as_slice(), verifier.as_slice());
            let is_agg: bool = same_bytes(entry.as_slice(), agg.as_slice());
            let is_rs: bool = same_bytes(entry.as_slice(), rs.as_slice());
            if !(is_client || is_server || is_verifier || is_agg || is_rs) {
                assert(!is_role(trimmed(f[i as int])));
                return None;
            }
            let ghost before = roles;
            roles = Roles {
                client: roles.client || is_client,
                server: roles.server || is_server,
                verifier: roles.verifier || is_verifier,
                agg: roles.agg || is_agg,
                rs: roles.rs || is_rs,
            };
            proof {
                assert(is_role(trimmed(f[i as int])));
                assert forall|o: Owner| #[trigger] roles.records(o) == named(f, i + 1, o) by {
                    assert(before.records(o) == named(f, i as int, o));
                    if named(f, i as int, o) {
                        let k = choose|k: int|
                            0 <= k < i && trimmed(#[trigger] f[k]) == role_name(o);
                        assert(0 <= k < i + 1 && trimmed(f[k]) == role_name(o));
                    }
                }
            }
        }
        Some(roles)
    }
}

/// The label of the `i`-th cell: a letter, then how often the alphabet was
/// used up.
pub open spec fn id_of(i: nat) -> Seq<u8> {
    seq![(65 + i % 26) as u8] + (if i < 26 {
        Seq::empty()
    } else {
        decimal(i / 26)
    })
}

/// The label of the `i`-th cell.
pub fn cell_id(i: usize) -> (r: Vec<u8>)
    ensures
        r@ == id_of(i as nat),
{
    let mut out: Vec<u8> = Vec::new();
    out.push(65 + (i % 26) as u8);
    if i >= 26 {
        push_decimal(&mut out, i / 26);
    }
    assert(out@ =~= id_of(i as nat));
    out
}

/// Different cells have different labels.
pub proof fn law_labels_differ(i: nat, j: nat)
    requires
        id_of(i) == id_of(j),
    ensures
        i == j,
{
    let a = id_of(i);
    let b = id_of(j);
    assert(a[0] == b[0]);
    assert(a.drop_first() =~= if i < 26 { Seq::empty() } else { decimal(i / 26) });
    assert(b.drop_first() =~= if j < 26 { Seq::empty() } else { decimal(j / 26) });
    law_decimal_round_trip(i / 26);
    law_decimal_round_trip(j / 26);
    reveal_with_fuel(decimal, 1);
    assert(decimal(i / 26).len() > 0);
    assert(decimal(j / 26).len() > 0);
    assert(i % 26 == j % 26);
}

/// The size of an aggregation group: the least that is at least two and whose
/// square covers all clients.
pub fn agg_group_size(n: usize) -> (g: usize)
    ensures
        g >= 2,
        g * g >= n,
        g > 2 ==> (g - 1) * (g - 1) < n,
{
    let mut g: usize = 2;
    while g as u128 * (g as u128) < n as u128
        invariant
            2 <= g,
            g > 2 ==> (g - 1) * (g - 1) < n,
            g as int * g as int <= u128::MAX,
            g < 0x1_0000_0001,
        decreases 0x1_0000_0001 - g,
    {
        assert(g < 0x1_0000_0000) by (nonlinear_arith)
            requires
                g * g < n,
                n <= usize::MAX,
        ;
        assert(g < n) by (nonlinear_arith)
            requires
                g * g < n,
                g >= 2,
        ;
        g += 1;
        assert(g as int * g as int <= 0x1_0000_0001 * 0x1_0000_0001) by (nonlinear_arith)
            requires
                2 <= g <= 0x1_0000_0001,
        ;
    }
    g
}

/// How many groups of `size` cover `n` clients.
pub fn group_count(n: usize, size: usize) -> (r: usize)
    requires
        size > 0,
    ensures
        r * size >= n,
        n > 0 ==> (r - 1) * size < n,
        n == 0 ==> r == 0,
{
    let whole: usize = n / size;
    proof {
        vstd::arithmetic::div_mod::lemma_fundamental_div_mod(n as int, size as int);
        assert((whole + 1) * size == whole * size + size) by (nonlinear_arith);
        assert((whole - 1) * size == whole * size - size) by (nonlinear_arith);
        assert(size * whole == whole * size) by (nonlinear_arith);
    }
    if n % size == 0 {
        whole
    } else {
        assert(whole < usize::MAX) by (nonlinear_arith)
            requires
                n == size * whole + n % size,
                n % size > 0,
                size > 0,
                n <= usize::MAX,
        ;
        whole + 1
    }
}

/// The bytes of one slot of a message vector: an equal part for each active
/// client, rounded up to whole coefficients.
pub fn slot_bytes(message_bytes: usize, active: usize) -> (r: usize)
    requires
        message_bytes + BYTES_PER_COEFF <= usize::MAX,
    ensures
        ({
            let part = message_bytes as int / (if active == 0 {
                1
            } else {
                active as int
            });
            r as int % BYTES_PER_COEFF as int == 0 && part <= r < part + BYTES_PER_COEFF
        }),
{
    let among: usize = if active == 0 {
        1
    } else {
        active
    };
    let part: usize = message_bytes / among;
    assert(part <= message_bytes) by (nonlinear_arith)
        requires
            part as int == message_bytes as int / among as int,
            among >= 1,
    ;
    (part + (BYTES_PER_COEFF - 1)) / BYTES_PER_COEFF * BYTES_PER_COEFF
}

/// How many polynomials hold `active` slots.
pub fn message_polys(active: usize, slot: usize) -> (r: usize)
    requires
        active * slot <= usize::MAX,
    ensures
        r * BYTES_PER_POLY >= active * slot,
        active * slot > 0 ==> (r - 1) * BYTES_PER_POLY < active * slot,
        active * slot == 0 ==> r == 0,
{
    let total: usize = active * slot;
    group_count(total, BYTES_PER_POLY)
}

/// The lanes of a sharded round: every server is a lane, and the number of
/// spare lanes is that of the pair. Returns `(k, n)`.
pub fn lane_plan(k: usize, n: usize, servers: usize) -> (r: (usize, usize))
    requires
        k <= n,
    ensures
        r.1 == (if n >= servers {
            n
        } else {
            servers
        }),
        r.1 - r.0 == n - k,
{
    let lanes: usize = if n >= servers {
        n
    } else {
        servers
    };
    (lanes - (n - k), lanes)
}

/// Separates cell seeds from other uses of the hash.
pub open spec fn cell_domain() -> Seq<u8> {
    seq![
        112u8, 97u8, 110u8, 101u8, 116u8, 105u8, 101u8, 114u8, 101u8, 45u8, 115u8, 99u8, 97u8, 108u8, 105u8, 110u8, 103u8, 45u8, 99u8, 101u8, 108u8, 108u8,
    ]
}

/// Separates seeds of sharded rounds from other uses of the hash.
pub open spec fn lane_domain() -> Seq<u8> {
    seq![
        112u8, 97u8, 110u8, 101u8, 116u8, 105u8, 101u8, 114u8, 101u8, 47u8, 98u8, 101u8, 110u8, 99u8, 104u8, 47u8, 114u8, 115u8,
    ]
}

/// What a cell's seed is the hash of.
pub open spec fn cell_text(
    s: nat,
    n: nat,
    active: nat,
    xi: nat,
    flow: Flow,
    message_bytes: nat,
) -> Seq<u8> {
    cell_domain() + le_bytes(s, 8) + le_bytes(n, 8) + le_bytes(active, 8) + le_bytes(xi, 8)
        + le_bytes(message_bytes, 8) + flow_name(flow)
}

/// The seed of a cell, a hash over every parameter that defines it.
pub fn cell_seed(
    s: usize,
    n: usize,
    active: usize,
    xi: usize,
    flow: Flow,
    message_bytes: usize,
) -> (r: [u8; 32])
    ensures
        r@ == sha256_of(
            cell_text(
                s as nat,
                n as nat,
                active as nat,
                xi as nat,
                flow,
                message_bytes as nat,
            ),
        ),
{
    let mut data: Vec<u8> = vec![
        112u8, 97u8, 110u8, 101u8, 116u8, 105u8, 101u8, 114u8, 101u8, 45u8, 115u8, 99u8, 97u8, 108u8, 105u8, 110u8, 103u8, 45u8, 99u8, 101u8, 108u8, 108u8,
    ];
    assert(data@ =~= cell_domain());
    push_le(&mut data, s as u64, 8);
    push_le(&mut data, n as u64, 8);
    push_le(&mut data, active as u64, 8);
    push_le(&mut data, xi as u64, 8);
    push_le(&mut data, message_bytes as u64, 8);
    let name: Vec<u8> = name_of_flow(flow);
    push_all(&mut data, name.as_slice());
    sha256(data.as_slice())
}

/// The seed of a sharded round of a cell.
pub fn rs_seed(cell: &[u8; 32], k: usize, n_nodes: usize) -> (r: [u8; 32])
    ensures
        r@ == sha256_of(
            lane_domain() + cell@ + le_bytes(k as nat, 8) + le_bytes(n_nodes as nat, 8),
        ),
{
    let mut data: Vec<u8> = vec![
        112u8, 97u8, 110u8, 101u8, 116u8, 105u8, 101u8, 114u8, 101u8, 47u8, 98u8, 101u8, 110u8, 99u8, 104u8, 47u8, 114u8, 115u8,
    ];
    assert(data@ =~= lane_domain());
    push_all(&mut data, cell.as_slice());
    push_le(&mut data, k as u64, 8);
    push_le(&mut data, n_nodes as u64, 8);
    sha256(data.as_slice())
}

/// How a cell's clients use the channel.
#[derive(Clone, Copy, Debug, PartialEq, Eq, Structural)]
pub enum Flow {
    Mse,
    Prony,
    Sched,
}

/// The name of a flow.
pub open spec fn flow_name(flow: Flow) -> Seq<u8> {
    match flow {
        Flow::Mse => seq![109u8, 115u8, 101u8],
        Flow::Prony => seq![112u8, 114u8, 111u8, 110u8, 121u8],
        Flow::Sched => seq![115u8, 99u8, 104u8, 101u8, 100u8],
    }
}

/// The name of a flow.
pub fn name_of_flow(flow: Flow) -> (r: Vec<u8>)
    ensures
        r@ == flow_name(flow),
{
    let out: Vec<u8> = match flow {
        Flow::Mse => vec![109u8, 115u8, 101u8],
        Flow::Prony => vec![112u8, 114u8, 111u8, 110u8, 121u8],
        Flow::Sched => vec![115u8, 99u8, 104u8, 101u8, 100u8],
    };
    assert(out@ =~= flow_name(flow));
    out
}

/// The flow of that name.
pub fn parse_flow(s: &[u8]) -> (r: Option<Flow>)
    ensures
        match r {
            Some(flow) => s@ == flow_name(flow),
            None => forall|flow: Flow| s@ != #[trigger] flow_name(flow),
        },
{
    let mse: Vec<u8> = name_of_flow(Flow::Mse);
    let prony: Vec<u8> = name_of_flow(Flow::Prony);
    let sched: Vec<u8> = name_of_flow(Flow::Sched);
    if same_bytes(s, mse.as_slice()) {
        Some(Flow::Mse)
    } else if same_bytes(s, prony.as_slice()) {
        Some(Flow::Prony)
    } else if same_bytes(s, sched.as_slice()) {
        Some(Flow::Sched)
    } else {
        assert forall|flow: Flow| s@ != #[trigger] flow_name(flow) by {
            match flow {
                Flow::Mse => {},
                Flow::Prony => {},
                Flow::Sched => {},
            }
        }
        None
    }
}

/// The parameter columns of a row: the twelve after its label.
pub open spec fn key_of(line: Seq<u8>) -> Seq<u8> {
    let f = fields(line, COMMA);
    joined(
        f.subrange(
            1,
            if f.len() < 13 {
                f.len() as int
            } else {
                13
            },
        ),
        COMMA,
    )
}

/// The parameter columns of a row.
pub fn param_key(line: &[u8]) -> (r: Vec<u8>)
    ensures
        r@ == key_of(line@),
{
    let parts: Vec<Vec<u8>> = split(line, COMMA);
    let ghost f = fields(line@, COMMA);
    proof {
        lemma_fields(line@, COMMA);
        assert(texts(parts@).len() == f.len());
    }
    let end: usize = if parts.len() < 13 {
        parts.len()
    } else {
        13
    };
    let mut out: Vec<u8> = Vec::new();
    assert(joined(f.subrange(1, 1), COMMA) =~= Seq::<u8>::empty());
    for i in 1..end
        invariant
            texts(parts@) == f,
            end <= parts.len(),
            parts.len() == f.len(),
            out@ == joined(f.subrange(1, i as int), COMMA),
    {
        proof {
            assert(texts(parts@)[i as int] == parts@[i as int]@);
            lemma_join_push(f.subrange(1, i as int), f[i as int], COMMA);
            assert(f.subrange(1, i + 1) =~= f.subrange(1, i as int).push(f[i as int]));
        }
        if i > 1 {
            out.push(COMMA);
        }
        push_all(&mut out, parts[i].as_slice());
        assert(out@ =~= joined(f.subrange(1, i + 1), COMMA));
    }
    out
}

proof fn lemma_join_push(f: Seq<Seq<u8>>, x: Seq<u8>, sep: u8)
    ensures
        joined(f.push(x), sep) == (if f.len() == 0 {
            x
        } else {
            joined(f, sep) + seq![sep] + x
        }),
    decreases f.len(),
{
    if f.len() > 0 {
        lemma_join_push(f.drop_first(), x, sep);
        assert(f.push(x).drop_first() =~= f.drop_first().push(x));
        assert(joined(f.push(x), sep) =~= joined(f, sep) + seq![sep] + x);
    }
}

/// The keys of rows.
pub open spec fn keys_of(lines: Seq<Vec<u8>>) -> Seq<Seq<u8>> {
    Seq::new(lines.len(), |i: int| key_of(lines[i]@))
}

/// The rows among the first `n` of `old` whose key none of `new` has.
pub open spec fn kept_rows(old: Seq<Vec<u8>>, new: Seq<Vec<u8>>, n: int) -> Seq<Seq<u8>>
    decreases n,
{
    if n <= 0 {
        Seq::empty()
    } else if keys_of(new).contains(key_of(old[n - 1]@)) {
        kept_rows(old, new, n - 1)
    } else {
        kept_rows(old, new, n - 1).push(old[n - 1]@)
    }
}

/// A row with the label of the `i`-th cell in place of its own.
pub open spec fn relabelled(i: nat, line: Seq<u8>) -> Seq<u8> {
    id_of(i) + line.subrange(position(line, COMMA, 0), line.len() as int)
}

/// The rows of a table that old rows were merged into: those of `old` that were
/// not run again, if its header is the same, and then those of `new`.
pub open spec fn merged_rows(
    header: Seq<u8>,
    old: Seq<Vec<u8>>,
    new: Seq<Vec<u8>>,
) -> Seq<Seq<u8>> {
    if old.len() > 0 && old[0]@ == header {
        kept_rows(old.drop_first(), new, old.len() - 1) + texts(new)
    } else {
        texts(new)
    }
}

/// Merges the rows of a new run into the lines of an older table.
pub fn merge_rows(header: &[u8], old: &[Vec<u8>], new: &[Vec<u8>]) -> (r: Vec<Vec<u8>>)
    ensures
        texts(r@) == merged_rows(header@, old@, new@),
{
    let mut out: Vec<Vec<u8>> = Vec::new();
    let ghost base: Seq<Seq<u8>> = Seq::empty();
    if old.len() > 0 && same_bytes(old[0].as_slice(), header) {
        let mut keys: Vec<Vec<u8>> = Vec::new();
        for i in 0..new.len()
            invariant
                keys.len() == i,
                forall|k: int| 0 <= k < i ==> (#[trigger] keys@[k])@ == key_of(new@[k]@),
        {
            let key: Vec<u8> = param_key(new[i].as_slice());
            keys.push(key);
        }
        let ghost rest = old@.drop_first();
        assert(texts(out@) =~= kept_rows(rest, new@, 0));
        for i in 1..old.len()
            invariant
                rest == old@.drop_first(),
                keys.len() == new.len(),
                forall|k: int| 0 <= k < keys.len() ==> (#[trigger] keys@[k])@ == key_of(new@[k]@),
                texts(out@) == kept_rows(rest, new@, i - 1),
        {
            let key: Vec<u8> = param_key(old[i].as_slice());
            let found: Option<usize> = find_bytes(keys.as_slice(), key.as_slice());
            let ghost before = out@;
            proof {
                let all = keys_of(new@);
                if let Some(k) = found {
                    assert(all[k as int] == key@);
                } else {
                    assert(!all.contains(key@)) by {
                        if all.contains(key@) {
                            let k = choose|k: int| 0 <= k < all.len() && all[k] == key@;
                            assert(keys@[k]@ == key@);
                        }
                    }
                }
                assert(rest[i - 1] == old@[i as int]);
            }
            if found.is_none() {
                let line: Vec<u8> = copy_range(old[i].as_slice(), 0, old[i].len());
                assert(line@ =~= old@[i as int]@);
                out.push(line);
                assert(texts(out@) =~= texts(before).push(line@));
            }
        }
        proof {
            base = texts(out@);
        }
    } else {
        assert(texts(out@) =~= base);
    }
    assert(base + texts(new@.take(0)) =~= base);
    assert(base + texts(new@) == merged_rows(header@, old@, new@)) by {
        if !(old.len() > 0 && old@[0]@ == header@) {
            assert(base + texts(new@) =~= texts(new@));
        }
    }
    for i in 0..new.len()
        invariant
            texts(out@) == base + texts(new@.take(i as int)),
    {
        let ghost before = out@;
        let line: Vec<u8> = copy_range(new[i].as_slice(), 0, new[i].len());
        assert(line@ =~= new@[i as int]@);
        out.push(line);
        assert(texts(out@) =~= texts(before).push(line@));
        assert(texts(new@.take(i + 1)) =~= texts(new@.take(i as int)).push(line@));
        assert(texts(out@) =~= base + texts(new@.take(i + 1)));
    }
    assert(new@.take(new@.len() as int) =~= new@);
    out
}

/// Puts the label of the `i`-th cell on a row.
pub fn relabel(i: usize, line: &[u8]) -> (r: Vec<u8>)
    ensures
        r@ == relabelled(i as nat, line@),
{
    let mut p: usize = 0;
    proof {
        assert(position(line@, COMMA, 0) == position(line@, COMMA, p as int));
    }
    while p < line.len() && line[p] != COMMA
        invariant
            p <= line.len(),
            position(line@, COMMA, 0) == position(line@, COMMA, p as int),
        decreases line.len() - p,
    {
        p += 1;
    }
    let mut out: Vec<u8> = cell_id(i);
    let rest: Vec<u8> = copy_range(line, p, line.len());
    push_all(&mut out, rest.as_slice());
    out
}

/// Why a row cannot be read.
#[derive(Clone, Debug, PartialEq, Eq)]
pub enum RowError {
    /// The row and the header have different numbers of fields.
    FieldCount { got: usize, want: usize },
    /// The header has no such column.
    MissingColumn,
}

/// The field of a row under the first column of that name.
pub fn cell_at(header: &[Vec<u8>], cells: &[Vec<u8>], name: &[u8]) -> (r: Result<Vec<u8>, RowError>)
    ensures
        match r {
            Ok(v) => header.len() == cells.len() && exists|i: int|
                0 <= i < header.len() && (#[trigger] header@[i])@ == name@ && v@ == cells@[i]@ && (
                forall|j: int| 0 <= j < i ==> (#[trigger] header@[j])@ != name@),
            Err(RowError::FieldCount { got, want }) => header.len() != cells.len() && got
                == cells.len() && want == header.len(),
            Err(RowError::MissingColumn) => header.len() == cells.len() && forall|j: int|
                0 <= j < header.len() ==> (#[trigger] header@[j])@ != name@,
        },
{
    if cells.len() != header.len() {
        return Err(RowError::FieldCount { got: cells.len(), want: header.len() });
    }
    match find_bytes(header, name) {
        Some(i) => {
            let v: Vec<u8> = copy_range(cells[i].as_slice(), 0, cells[i].len());
            assert(v@ =~= cells@[i as int]@);
            assert(header@[i as int]@ == name@);
            Ok(v)
        },
        None => Err(RowError::MissingColumn),
    }
}

/// What identifies a cell in a table, and what must agree between two runs of
/// it.
pub struct CellFacts {
    pub key: Vec<u8>,
    pub threads: usize,
    pub open_env_b: usize,
    pub ctxt_client_b: usize,
    pub agg_open_b: usize,
}

/// Why two runs of a cell cannot be put together.
#[derive(Clone, Copy, Debug, PartialEq, Eq, Structural)]
pub enum SpliceError {
    Threads,
    OpeningSize,
    CiphertextSize,
    AggregateSize,
}

/// What keeps two runs of a cell apart.
pub open spec fn disagreement(client: CellFacts, host: CellFacts) -> Option<SpliceError> {
    if client.threads != host.threads {
        Some(SpliceError::Threads)
    } else if client.open_env_b != host.open_env_b {
        Some(SpliceError::OpeningSize)
    } else if client.ctxt_client_b != host.ctxt_client_b {
        Some(SpliceError::CiphertextSize)
    } else if client.agg_open_b != host.agg_open_b {
        Some(SpliceError::AggregateSize)
    } else {
        None
    }
}

/// The first of `cells` from `i` on with that key.
pub open spec fn partner(cells: Seq<CellFacts>, key: Seq<u8>, i: int) -> Option<int>
    decreases cells.len() - i,
{
    if i < 0 || i >= cells.len() {
        None
    } else if cells[i].key@ == key {
        Some(i)
    } else {
        partner(cells, key, i + 1)
    }
}

/// The partner of a host's cell and what keeps them apart.
pub open spec fn match_of(clients: Seq<CellFacts>, host: CellFacts) -> (
    Option<int>,
    Option<SpliceError>,
) {
    match partner(clients, host.key@, 0) {
        None => (None, None),
        Some(i) => (Some(i), disagreement(clients[i], host)),
    }
}

fn find_partner(cells: &[CellFacts], key: &[u8]) -> (r: Option<usize>)
    ensures
        match r {
            Some(i) => i < cells.len() && partner(cells@, key@, 0) == Some(i as int),
            None => partner(cells@, key@, 0) is None,
        },
{
    let mut i: usize = 0;
    while i < cells.len()
        invariant
            i <= cells.len(),
            partner(cells@, key@, 0) == partner(cells@, key@, i as int),
        decreases cells.len() - i,
    {
        if same_bytes(cells[i].key.as_slice(), key) {
            return Some(i);
        }
        i += 1;
    }
    None
}

/// The client's run of a host's cell, if there is one and the two agree.
pub fn match_cell(clients: &[CellFacts], host: &CellFacts) -> (r: Result<
    Option<usize>,
    SpliceError,
>)
    ensures
        match r {
            Ok(None) => match_of(clients@, *host) == (None::<int>, None::<SpliceError>),
            Ok(Some(i)) => match_of(clients@, *host) == (Some(i as int), None::<SpliceError>),
            Err(e) => match_of(clients@, *host).1 == Some(e),
        },
{
    match find_partner(clients, host.key.as_slice()) {
        None => Ok(None),
        Some(i) => {
            let client: &CellFacts = &clients[i];
            if client.threads != host.threads {
                Err(SpliceError::Threads)
            } else if client.open_env_b != host.open_env_b {
                Err(SpliceError::OpeningSize)
            } else if client.ctxt_client_b != host.ctxt_client_b {
                Err(SpliceError::CiphertextSize)
            } else if client.agg_open_b != host.agg_open_b {
                Err(SpliceError::AggregateSize)
            } else {
                Ok(Some(i))
            }
        },
    }
}

/// Pairs every host cell with the client's run of it. The error names the
/// first host cell whose partner disagrees with it.
pub fn splice_plan(clients: &[CellFacts], hosts: &[CellFacts]) -> (r: Result<
    Vec<Option<usize>>,
    (usize, SpliceError),
>)
    ensures
        match r {
            Ok(v) => v.len() == hosts.len() && forall|j: int|
                0 <= j < hosts.len() ==> match_of(clients@, #[trigger] hosts@[j]) == (
                    match v@[j] {
                        Some(i) => Some(i as int),
                        None => None,
                    },
                    None::<SpliceError>,
                ),
            Err(e) => e.0 < hosts.len() && match_of(clients@, hosts@[e.0 as int]).1 == Some(e.1)
                && forall|j: int|
                0 <= j < e.0 ==> match_of(clients@, #[trigger] hosts@[j]).1 is None,
        },
{
    let mut out: Vec<Option<usize>> = Vec::new();
    for j in 0..hosts.len()
        invariant
            out.len() == j,
            forall|k: int|
                0 <= k < j ==> match_of(clients@, #[trigger] hosts@[k]) == (
                    match out@[k] {
                        Some(i) => Some(i as int),
                        None => None,
                    },
                    None::<SpliceError>,
                ),
    {
        match match_cell(clients, &hosts[j]) {
            Ok(m) => {
                out.push(m);
            },
            Err(e) => {
                return Err((j, e));
            },
        }
    }
    Ok(out)
}

/// The client cells among the first `n` that no host ran.
pub open spec fn unmatched(clients: Seq<CellFacts>, hosts: Seq<CellFacts>, n: int) -> Seq<int>
    decreases n,
{
    if n <= 0 {
        Seq::empty()
    } else if partner(hosts, clients[n - 1].key@, 0) is None {
        unmatched(clients, hosts, n - 1).push(n - 1)
    } else {
        unmatched(clients, hosts, n - 1)
    }
}

/// The client cells that no host ran.
pub fn client_only(clients: &[CellFacts], hosts: &[CellFacts]) -> (r: Vec<usize>)
    ensures
        r@.map_values(|i: usize| i as int) == unmatched(clients@, hosts@, clients@.len() as int),
{
    let mut out: Vec<usize> = Vec::new();
    assert(out@.map_values(|i: usize| i as int) =~= unmatched(clients@, hosts@, 0));
    for j in 0..clients.len()
        invariant
            out@.map_values(|i: usize| i as int) == unmatched(clients@, hosts@, j as int),
    {
        let ghost before = out@;
        if find_partner(hosts, clients[j].key.as_slice()).is_none() {
            out.push(j);
            assert(out@.map_values(|i: usize| i as int) =~= before.map_values(
                |i: usize| i as int,
            ).push(j as int));
        }
    }
    out
}

/// The sizes of one cell's messages, in bytes.
pub struct CellSizes {
    pub servers: usize,
    pub open_env_b: usize,
    pub comm_client_b: usize,
    pub ctxt_client_b: usize,
    pub agg_open_b: usize,
    pub agg_share_b: usize,
}

impl CellSizes {
    /// The totals fit a machine word.
    pub open spec fn fits(&self) -> bool {
        &&& self.servers * self.open_env_b + self.comm_client_b + self.ctxt_client_b <= usize::MAX
        &&& self.agg_open_b + self.agg_share_b <= usize::MAX
    }

    /// Whether the totals fit a machine word.
    pub fn check(&self) -> (r: bool)
        ensures
            r == self.fits(),
    {
        assert(self.servers * self.open_env_b <= 0xffff_ffff_ffff_ffff * 0xffff_ffff_ffff_ffff)
            by (nonlinear_arith)
            requires
                self.servers <= 0xffff_ffff_ffff_ffff,
                self.open_env_b <= 0xffff_ffff_ffff_ffff,
        ;
        assert(self.servers * self.open_env_b >= 0) by (nonlinear_arith);
        let sealed: u128 = self.servers as u128 * self.open_env_b as u128;
        sealed + self.comm_client_b as u128 + self.ctxt_client_b as u128 <= usize::MAX as u128
            && self.agg_open_b as u128 + self.agg_share_b as u128 <= usize::MAX as u128
    }

    /// The sealed openings of one client.
    pub fn client_to_server_b(&self) -> (r: usize)
        requires
            self.fits(),
        ensures
            r == self.servers * self.open_env_b,
    {
        assert(self.servers * self.open_env_b >= 0) by (nonlinear_arith);
        self.servers * self.open_env_b
    }

    /// The post of one client: commitment and ciphertext.
    pub fn client_to_recipient_b(&self) -> (r: usize)
        requires
            self.fits(),
        ensures
            r == self.comm_client_b + self.ctxt_client_b,
    {
        assert(self.servers * self.open_env_b >= 0) by (nonlinear_arith);
        self.comm_client_b + self.ctxt_client_b
    }

    /// All that one client sends.
    pub fn client_post_b(&self) -> (r: usize)
        requires
            self.fits(),
        ensures
            r == self.servers * self.open_env_b + self.comm_client_b + self.ctxt_client_b,
    {
        self.client_to_server_b() + self.client_to_recipient_b()
    }

    /// The post of one server.
    pub fn server_entry_b(&self) -> (r: usize)
        requires
            self.fits(),
        ensures
            r == self.agg_open_b + self.agg_share_b,
    {
        self.agg_open_b + self.agg_share_b
    }
}

// ---------------------------------------------------------------
// What the tables' operations mean
// ---------------------------------------------------------------

/// The rows of the older table that stay are exactly those whose parameters no
/// new row has, in their order: the result gives their places.
pub proof fn law_rows_that_stay(old: Seq<Vec<u8>>, new: Seq<Vec<u8>>, n: int) -> (at: Seq<int>)
    requires
        0 <= n <= old.len(),
    ensures
        at.len() == kept_rows(old, new, n).len(),
        forall|j: int| 0 <= j < at.len() ==> 0 <= #[trigger] at[j] < n,
        forall|j: int, k: int| 0 <= j < k < at.len() ==> #[trigger] at[j] < #[trigger] at[k],
        forall|j: int| 0 <= j < at.len() ==> #[trigger] kept_rows(old, new, n)[j] == old[at[j]]@,
        forall|i: int|
            0 <= i < n ==> (at.contains(i) <==> forall|k: int|
                0 <= k < new.len() ==> key_of((#[trigger] new[k])@) != key_of(old[i]@)),
    decreases n,
{
    if n <= 0 {
        Seq::empty()
    } else {
        let before = law_rows_that_stay(old, new, n - 1);
        let m = n - 1;
        let key = key_of(old[m]@);
        let gone = keys_of(new).contains(key);
        assert(gone <==> exists|k: int| 0 <= k < new.len() && key_of((#[trigger] new[k])@) == key)
            by {
            if gone {
                let k = choose|k: int| 0 <= k < keys_of(new).len() && keys_of(new)[k] == key;
                assert(key_of(new[k]@) == key);
            }
            if exists|k: int| 0 <= k < new.len() && key_of((#[trigger] new[k])@) == key {
                let k = choose|k: int| 0 <= k < new.len() && key_of((#[trigger] new[k])@) == key;
                assert(keys_of(new)[k] == key);
            }
        }
        let at = if gone {
            before
        } else {
            before.push(m)
        };
        let (a, b) = (kept_rows(old, new, m), kept_rows(old, new, n));
        assert forall|j: int| 0 <= j < at.len() implies 0 <= #[trigger] at[j] < n by {
            if j < before.len() {
                assert(0 <= before[j] < m);
            }
        }
        assert forall|j: int, k: int| 0 <= j < k < at.len() implies #[trigger] at[j]
            < #[trigger] at[k] by {
            assert(0 <= before[j] < m);
            if k < before.len() {
                assert(before[j] < before[k]);
            }
        }
        assert forall|j: int| 0 <= j < at.len() implies #[trigger] b[j] == old[at[j]]@ by {
            if j < before.len() {
                assert(a[j] == old[before[j]]@);
            }
        }
        assert forall|i: int| 0 <= i < n implies (at.contains(i) <==> forall|k: int|
            0 <= k < new.len() ==> key_of((#[trigger] new[k])@) != key_of(old[i]@)) by {
            if i < m {
                if before.contains(i) {
                    let j = choose|j: int| 0 <= j < before.len() && before[j] == i;
                    assert(at[j] == i);
                }
                if at.contains(i) {
                    let j = choose|j: int| 0 <= j < at.len() && at[j] == i;
                    assert(j < before.len());
                    assert(before[j] == i);
                }
            } else {
                if !gone {
                    assert(at[before.len() as int] == m);
                }
                if at.contains(m) {
                    let j = choose|j: int| 0 <= j < at.len() && at[j] == m;
                    if j < before.len() {
                        assert(0 <= before[j] < m);
                    }
                }
            }
        }
        at
    }
}

/// A merged table ends with all new rows as they are; before them stand rows of
/// the older table only if it has the same header.
pub proof fn law_new_rows_come_last(header: Seq<u8>, old: Seq<Vec<u8>>, new: Seq<Vec<u8>>, i: int)
    requires
        0 <= i < new.len(),
    ensures
        ({
            let m = merged_rows(header, old, new);
            &&& m.len() >= new.len()
            &&& m[m.len() - new.len() + i] == new[i]@
            &&& old.len() == 0 || old[0]@ != header ==> m.len() == new.len()
        }),
{
}

/// A host's cell is matched with the first of the client's cells that has its
/// key, and with none exactly if no cell has it.
pub proof fn law_first_cell_with_the_key(cells: Seq<CellFacts>, key: Seq<u8>, from: int)
    requires
        0 <= from <= cells.len(),
    ensures
        match partner(cells, key, from) {
            Some(i) => from <= i < cells.len() && cells[i].key@ == key && forall|j: int|
                from <= j < i ==> (#[trigger] cells[j]).key@ != key,
            None => forall|j: int| from <= j < cells.len() ==> (#[trigger] cells[j]).key@ != key,
        },
    decreases cells.len() - from,
{
    if from < cells.len() {
        law_first_cell_with_the_key(cells, key, from + 1);
        assert(forall|j: int|
            from <= j < cells.len() ==> (#[trigger] cells[j] == cells[from] || from + 1 <= j));
    }
}

/// Two runs of a cell go together exactly if they agree in all four numbers.
pub proof fn law_runs_agree(client: CellFacts, host: CellFacts)
    ensures
        disagreement(client, host) is None <==> client.threads == host.threads && client.open_env_b
            == host.open_env_b && client.ctxt_client_b == host.ctxt_client_b && client.agg_open_b
            == host.agg_open_b,
        match disagreement(client, host) {
            None => true,
            Some(SpliceError::Threads) => client.threads != host.threads,
            Some(SpliceError::OpeningSize) => client.open_env_b != host.open_env_b,
            Some(SpliceError::CiphertextSize) => client.ctxt_client_b != host.ctxt_client_b,
            Some(SpliceError::AggregateSize) => client.agg_open_b != host.agg_open_b,
        },
{
}

/// The client's own cells are exactly those whose key no host's cell has, in
/// order.
pub proof fn law_own_cells(clients: Seq<CellFacts>, hosts: Seq<CellFacts>, n: int)
    requires
        0 <= n <= clients.len(),
    ensures
        forall|j: int, k: int|
            0 <= j < k < unmatched(clients, hosts, n).len() ==> #[trigger] unmatched(
                clients,
                hosts,
                n,
            )[j] < #[trigger] unmatched(clients, hosts, n)[k],
        forall|j: int|
            0 <= j < unmatched(clients, hosts, n).len() ==> 0 <= #[trigger] unmatched(
                clients,
                hosts,
                n,
            )[j] < n,
        forall|i: int|
            0 <= i < n ==> (unmatched(clients, hosts, n).contains(i) <==> forall|h: int|
                0 <= h < hosts.len() ==> (#[trigger] hosts[h]).key@ != clients[i].key@),
    decreases n,
{
    if n > 0 {
        let m = n - 1;
        law_own_cells(clients, hosts, m);
        law_first_cell_with_the_key(hosts, clients[m].key@, 0);
        let (a, b) = (unmatched(clients, hosts, m), unmatched(clients, hosts, n));
        assert forall|j: int| 0 <= j < b.len() implies 0 <= #[trigger] b[j] < n by {
            if j < a.len() {
                assert(0 <= a[j] < m);
            }
        }
        assert forall|j: int, k: int| 0 <= j < k < b.len() implies #[trigger] b[j]
            < #[trigger] b[k] by {
            assert(0 <= a[j] < m);
            if k < a.len() {
                assert(a[j] < a[k]);
            }
        }
        assert forall|i: int| 0 <= i < n implies (b.contains(i) <==> forall|h: int|
            0 <= h < hosts.len() ==> (#[trigger] hosts[h]).key@ != clients[i].key@) by {
            if i < m {
                if a.contains(i) {
                    let j = choose|j: int| 0 <= j < a.len() && a[j] == i;
                    assert(b[j] == i);
                }
                if b.contains(i) {
                    let j = choose|j: int| 0 <= j < b.len() && b[j] == i;
                    assert(j < a.len());
                    assert(a[j] == i);
                }
            } else {
                if b.len() > a.len() {
                    assert(b[a.len() as int] == m);
                }
                if b.contains(m) {
                    let j = choose|j: int| 0 <= j < b.len() && b[j] == m;
                    if j < a.len() {
                        assert(0 <= a[j] < m);
                    }
                }
            }
        }
    }
}

/// Cells that differ in any parameter have seeds that are hashes of different
/// texts.
pub proof fn law_cells_are_seeded_apart(
    s: nat,
    n: nat,
    active: nat,
    xi: nat,
    flow: Flow,
    bytes: nat,
    s2: nat,
    n2: nat,
    active2: nat,
    xi2: nat,
    flow2: Flow,
    bytes2: nat,
)
    requires
        s <= u64::MAX && n <= u64::MAX && active <= u64::MAX && xi <= u64::MAX && bytes <= u64::MAX,
        s2 <= u64::MAX && n2 <= u64::MAX && active2 <= u64::MAX && xi2 <= u64::MAX && bytes2
            <= u64::MAX,
        cell_text(s, n, active, xi, flow, bytes) == cell_text(s2, n2, active2, xi2, flow2, bytes2),
    ensures
        s == s2 && n == n2 && active == active2 && xi == xi2 && flow == flow2 && bytes == bytes2,
{
    let (a, b) = (
        cell_text(s, n, active, xi, flow, bytes),
        cell_text(s2, n2, active2, xi2, flow2, bytes2),
    );
    let d = cell_domain().len() as int;
    lemma_word(s);
    lemma_word(n);
    lemma_word(active);
    lemma_word(xi);
    lemma_word(bytes);
    lemma_word(s2);
    lemma_word(n2);
    lemma_word(active2);
    lemma_word(xi2);
    lemma_word(bytes2);
    assert(a.subrange(d, d + 8) =~= le_bytes(s, 8) && b.subrange(d, d + 8) =~= le_bytes(s2, 8));
    assert(a.subrange(d + 8, d + 16) =~= le_bytes(n, 8) && b.subrange(d + 8, d + 16) =~= le_bytes(
        n2,
        8,
    ));
    assert(a.subrange(d + 16, d + 24) =~= le_bytes(active, 8) && b.subrange(d + 16, d + 24)
        =~= le_bytes(active2, 8));
    assert(a.subrange(d + 24, d + 32) =~= le_bytes(xi, 8) && b.subrange(d + 24, d + 32)
        =~= le_bytes(xi2, 8));
    assert(a.subrange(d + 32, d + 40) =~= le_bytes(bytes, 8) && b.subrange(d + 32, d + 40)
        =~= le_bytes(bytes2, 8));
    assert(a.skip(d + 40) =~= flow_name(flow) && b.skip(d + 40) =~= flow_name(flow2));
    assert(flow_name(flow)[0] == flow_name(flow2)[0]);
}

proof fn lemma_word(v: nat)
    requires
        v <= u64::MAX,
    ensures
        le_bytes(v, 8).len() == 8,
        crate::bytes::le_value(le_bytes(v, 8)) == v,
{
    crate::bytes::lemma_le_len(v, 8);
    reveal_with_fuel(crate::bytes::byte_span, 9);
    crate::bytes::lemma_le_round_trip(v, 8);
}

} // verus!
