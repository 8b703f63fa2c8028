//! Protocol name derivation.
//!
//! The notification protocol a node registers for statement gossip is named
//! `/<hex of genesis hash>[/<fork id>]/statement/1`.

use vstd::prelude::*;

verus! {

/// The lowercase hexadecimal digit for a nibble.
pub open spec fn hex_digit(n: int) -> u8
    recommends
        0 <= n < 16,
{
    if n < 10 {
        (48 + n) as u8
    } else {
        (87 + n) as u8
    }
}

/// The lowercase hexadecimal encoding of a byte string, two digits per
/// byte, high nibble first.
pub open spec fn hex_bytes(s: Seq<u8>) -> Seq<u8>
    decreases s.len(),
{
    if s.len() == 0 {
        Seq::empty()
    } else {
        hex_bytes(s.drop_last()) + seq![
            hex_digit(s.last() as int / 16),
            hex_digit(s.last() as int % 16),
        ]
    }
}

/// The trailing path of the protocol name, `/statement/1`, as bytes.
pub open spec fn statement_path_suffix() -> Seq<u8> {
    seq![47u8, 115u8, 116u8, 97u8, 116u8, 101u8, 109u8, 101u8, 110u8, 116u8, 47u8, 49u8]
}

/// The view of an optional fork identifier.
pub open spec fn fork_view(f: Option<&Vec<u8>>) -> Option<Seq<u8>> {
    match f {
        None => None,
        Some(v) => Some(v@),
    }
}

/// The protocol name for a chain: a slash, the hex of the genesis hash, an
/// optional slash-separated fork identifier, then `/statement/1`.
pub open spec fn protocol_name_spec(genesis: Seq<u8>, fork: Option<Seq<u8>>) -> Seq<u8> {
    let base = seq![47u8] + hex_bytes(genesis);
    let with_fork = match fork {
        None => base,
        Some(f) => base + seq![47u8] + f,
    };
    with_fork + statement_path_suffix()
}

fn hex_digit_of(n: u8) -> (r: u8)
    requires
        n < 16,
    ensures
        r == hex_digit(n as int),
{
    if n < 10 {
        48 + n
    } else {
        87 + n
    }
}

/// Derive the protocol name from the genesis hash and optional fork id.
pub fn protocol_name(genesis_hash: &Vec<u8>, fork_id: Option<&Vec<u8>>) -> (name: Vec<u8>)
    ensures
        name@ == protocol_name_spec(genesis_hash@, fork_view(fork_id)),
{
    let mut name: Vec<u8> = Vec::new();
    name.push(47);
    let n = genesis_hash.len();
    let mut i: usize = 0;
    proof {
        assert(hex_bytes(genesis_hash@.take(0)) =~= Seq::<u8>::empty());
        assert(name@ =~= seq![47u8] + hex_bytes(genesis_hash@.take(0)));
    }
    while i < n
        invariant
            n == genesis_hash@.len(),
            i <= n,
            name@ == seq![47u8] + hex_bytes(genesis_hash@.take(i as int)),
        decreases n - i,
    {
        let b = genesis_hash[i];
        name.push(hex_digit_of(b / 16));
        name.push(hex_digit_of(b % 16));
        proof {
            let tk1 = genesis_hash@.take(i + 1);
            assert(tk1.drop_last() =~= genesis_hash@.take(i as int));
            assert(tk1.last() == b);
            assert(name@ =~= seq![47u8] + hex_bytes(tk1));
        }
        i += 1;
    }
    proof {
        assert(genesis_hash@.take(n as int) =~= genesis_hash@);
    }
    match fork_id {
        None => {},
        Some(f) => {
            let ghost before = name@;
            name.push(47);
            let m = f.len();
            let mut j: usize = 0;
            proof {
                assert(name@ =~= before + seq![47u8] + f@.take(0));
            }
            while j < m
                invariant
                    m == f@.len(),
                    j <= m,
                    name@ == before + seq![47u8] + f@.take(j as int),
                decreases m - j,
            {
                let c = f[j];
                name.push(c);
                proof {
                    assert(f@.take(j + 1) =~= f@.take(j as int).push(c));
                    assert(name@ =~= before + seq![47u8] + f@.take(j + 1));
                }
                j += 1;
            }
            proof {
                assert(f@.take(m as int) =~= f@);
            }
        },
    }
    let ghost stem = name@;
    name.push(47);
    name.push(115);
    name.push(116);
    name.push(97);
    name.push(116);
    name.push(101);
    name.push(109);
    name.push(101);
    name.push(110);
    name.push(116);
    name.push(47);
    name.push(49);
    proof {
        assert(name@ =~= stem + statement_path_suffix());
    }
    name
}

} // verus!
