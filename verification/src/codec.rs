//! Wire codec for statement sequences.
//!
//! A notification payload is the length-prefixed encoding of an ordered
//! sequence of statements: a compact-encoded count, then each statement as a
//! compact-encoded byte length followed by its bytes. The compact form is the
//! standard four-mode little-endian scheme for values below `2^32`. Decoding
//! is strict about canonical length prefixes and ignores trailing bytes.

use vstd::prelude::*;

use vstd::arithmetic::div_mod::lemma_div_denominator;
use vstd::arithmetic::div_mod::lemma_fundamental_div_mod;
use vstd::arithmetic::div_mod::lemma_fundamental_div_mod_converse;

verus! {

/// Compact encoding of a length `n` (for `0 <= n < 2^32`): two mode bits in
/// the lowest bits of the first byte, then little-endian payload.
pub open spec fn compact_encode(n: int) -> Seq<u8>
    recommends
        0 <= n < 0x100000000,
{
    if n < 64 {
        seq![(4 * n) as u8]
    } else if n < 16384 {
        let v = 4 * n + 1;
        seq![(v % 256) as u8, (v / 256) as u8]
    } else if n < 0x40000000 {
        let v = 4 * n + 2;
        seq![
            (v % 256) as u8,
            ((v / 256) % 256) as u8,
            ((v / 65536) % 256) as u8,
            ((v / 16777216) % 256) as u8,
        ]
    } else {
        seq![
            3u8,
            (n % 256) as u8,
            ((n / 256) % 256) as u8,
            ((n / 65536) % 256) as u8,
            ((n / 16777216) % 256) as u8,
        ]
    }
}

/// Decode a compact length at position `pos`: the value and the position
/// after it, or nothing when the bytes are not a canonical compact length.
pub open spec fn compact_decode(s: Seq<u8>, pos: int) -> Option<(int, int)>
    recommends
        0 <= pos,
{
    if pos >= s.len() {
        None
    } else {
        let b0 = s[pos] as int;
        if b0 % 4 == 0 {
            Some((b0 / 4, pos + 1))
        } else if b0 % 4 == 1 {
            if pos + 2 > s.len() {
                None
            } else {
                let v = (b0 + 256 * (s[pos + 1] as int)) / 4;
                if v >= 64 {
                    Some((v, pos + 2))
                } else {
                    None
                }
            }
        } else if b0 % 4 == 2 {
            if pos + 4 > s.len() {
                None
            } else {
                let w = b0 + 256 * (s[pos + 1] as int) + 65536 * (s[pos + 2] as int) + 16777216 * (
                s[pos + 3] as int);
                let v = w / 4;
                if v >= 16384 {
                    Some((v, pos + 4))
                } else {
                    None
                }
            }
        } else {
            if b0 != 3 {
                None
            } else if pos + 5 > s.len() {
                None
            } else {
                let v = (s[pos + 1] as int) + 256 * (s[pos + 2] as int) + 65536 * (s[pos
                    + 3] as int) + 16777216 * (s[pos + 4] as int);
                if v >= 0x40000000 {
                    Some((v, pos + 5))
                } else {
                    None
                }
            }
        }
    }
}

/// Concatenated encoding of the statements themselves, first to last.
pub open spec fn encoded_items(ss: Seq<Seq<u8>>) -> Seq<u8>
    decreases ss.len(),
{
    if ss.len() == 0 {
        Seq::empty()
    } else {
        compact_encode(ss.first().len() as int) + ss.first() + encoded_items(ss.drop_first())
    }
}

/// The wire encoding of an ordered statement sequence.
pub open spec fn statements_encoding(ss: Seq<Seq<u8>>) -> Seq<u8> {
    compact_encode(ss.len() as int) + encoded_items(ss)
}

/// Decode `count` length-prefixed items starting at `pos`; the items and the
/// position after them.
pub open spec fn items_decoding(s: Seq<u8>, pos: int, count: int) -> Option<(Seq<Seq<u8>>, int)>
    decreases count,
{
    if count <= 0 {
        Some((Seq::empty(), pos))
    } else {
        match compact_decode(s, pos) {
            None => None,
            Some((len, p1)) => {
                if p1 + len > s.len() {
                    None
                } else {
                    match items_decoding(s, p1 + len, count - 1) {
                        None => None,
                        Some((rest, p2)) => Some((seq![s.subrange(p1, p1 + len)] + rest, p2)),
                    }
                }
            },
        }
    }
}

/// What a notification payload decodes to: the statement sequence, or
/// nothing when the payload is malformed. Trailing bytes are ignored.
pub open spec fn statements_decoding(s: Seq<u8>) -> Option<Seq<Seq<u8>>> {
    match compact_decode(s, 0) {
        None => None,
        Some((n, p)) => match items_decoding(s, p, n) {
            None => None,
            Some((items, _)) => Some(items),
        },
    }
}

/// Append the compact encoding of `n` to `out`.
fn push_compact(out: &mut Vec<u8>, n: u32)
    ensures
        final(out)@ == old(out)@ + compact_encode(n as int),
{
    let ghost o0 = out@;
    if n < 64 {
        out.push((n * 4) as u8);
        proof {
            assert(out@ =~= o0 + compact_encode(n as int));
        }
    } else if n < 16384 {
        let v: u32 = n * 4 + 1;
        out.push((v % 256) as u8);
        out.push((v / 256) as u8);
        proof {
            assert(out@ =~= o0 + compact_encode(n as int));
        }
    } else if n < 0x40000000 {
        let v: u32 = n * 4 + 2;
        out.push((v % 256) as u8);
        out.push(((v / 256) % 256) as u8);
        out.push(((v / 65536) % 256) as u8);
        out.push(((v / 16777216) % 256) as u8);
        proof {
            assert(out@ =~= o0 + compact_encode(n as int));
        }
    } else {
        out.push(3u8);
        out.push((n % 256) as u8);
        out.push(((n / 256) % 256) as u8);
        out.push(((n / 65536) % 256) as u8);
        out.push(((n / 16777216) % 256) as u8);
        proof {
            assert(out@ =~= o0 + compact_encode(n as int));
        }
    }
}

/// The views of a sequence of byte vectors.
pub open spec fn views_of(ss: Seq<Vec<u8>>) -> Seq<Seq<u8>> {
    ss.map_values(|v: Vec<u8>| v@)
}

/// Appending one more statement extends the item encoding at the end.
pub proof fn lemma_encoded_items_push(ss: Seq<Seq<u8>>, x: Seq<u8>)
    ensures
        encoded_items(ss.push(x)) == encoded_items(ss) + compact_encode(x.len() as int) + x,
    decreases ss.len(),
{
    if ss.len() == 0 {
        assert(ss.push(x).drop_first() =~= Seq::<Seq<u8>>::empty());
        assert(ss.push(x).first() == x);
        assert(encoded_items(Seq::<Seq<u8>>::empty()) == Seq::<u8>::empty());
        assert(encoded_items(ss) == Seq::<u8>::empty());
        assert(encoded_items(ss.push(x)) == compact_encode(x.len() as int) + x + Seq::<
            u8,
        >::empty());
        assert(encoded_items(ss.push(x)) =~= encoded_items(ss) + compact_encode(x.len() as int)
            + x);
    } else {
        assert(ss.push(x).first() == ss.first());
        assert(ss.push(x).drop_first() =~= ss.drop_first().push(x));
        lemma_encoded_items_push(ss.drop_first(), x);
        assert(encoded_items(ss.push(x)) =~= encoded_items(ss) + compact_encode(x.len() as int)
            + x);
    }
}

/// Encode an ordered statement sequence for the wire.
pub fn encode_statements(ss: &Vec<Vec<u8>>) -> (out: Vec<u8>)
    requires
        ss@.len() < 0x100000000,
        forall|i: int| 0 <= i < ss@.len() ==> (#[trigger] ss@[i])@.len() < 0x100000000,
    ensures
        out@ == statements_encoding(views_of(ss@)),
{
    let mut out: Vec<u8> = Vec::new();
    push_compact(&mut out, ss.len() as u32);
    let n = ss.len();
    let mut i: usize = 0;
    while i < n
        invariant
            n == ss@.len(),
            i <= n,
            ss@.len() < 0x100000000,
            forall|k: int| 0 <= k < ss@.len() ==> (#[trigger] ss@[k])@.len() < 0x100000000,
            out@ == compact_encode(n as int) + encoded_items(views_of(ss@).take(i as int)),
        decreases n - i,
    {
        let ghost pre = out@;
        push_compact(&mut out, ss[i].len() as u32);
        let mut k: usize = 0;
        let m = ss[i].len();
        while k < m
            invariant
                i < ss@.len(),
                m == ss@[i as int]@.len(),
                k <= m,
                out@ == pre + compact_encode(m as int) + ss@[i as int]@.take(k as int),
            decreases m - k,
        {
            let b = ss[i][k];
            out.push(b);
            proof {
                assert(ss@[i as int]@.take(k + 1) =~= ss@[i as int]@.take(k as int).push(b));
                assert(out@ =~= pre + compact_encode(m as int) + ss@[i as int]@.take(k + 1));
            }
            k += 1;
        }
        proof {
            assert(ss@[i as int]@.take(m as int) =~= ss@[i as int]@);
            assert(out@ == pre + compact_encode(m as int) + ss@[i as int]@);
            lemma_encoded_items_push(views_of(ss@).take(i as int), ss@[i as int]@);
            assert(views_of(ss@).take(i + 1) =~= views_of(ss@).take(i as int).push(
                ss@[i as int]@,
            ));
            assert(out@ =~= compact_encode(n as int) + encoded_items(views_of(ss@).take(i + 1)));
        }
        i += 1;
    }
    proof {
        assert(views_of(ss@).take(n as int) =~= views_of(ss@));
    }
    out
}

/// Decode a compact length at `pos`.
fn decode_compact(bytes: &Vec<u8>, pos: usize) -> (r: Option<(u32, usize)>)
    ensures
        (r is Some) <==> (compact_decode(bytes@, pos as int) is Some),
        r is Some ==> compact_decode(bytes@, pos as int) == Some(
            (r.unwrap().0 as int, r.unwrap().1 as int),
        ),
        r is Some ==> pos < r.unwrap().1 <= bytes@.len(),
{
    if pos >= bytes.len() {
        return None;
    }
    let b0 = bytes[pos];
    let mode = b0 % 4;
    if mode == 0 {
        Some(((b0 / 4) as u32, pos + 1))
    } else if mode == 1 {
        if bytes.len() - pos < 2 {
            return None;
        }
        let v: u32 = ((b0 as u32) + 256 * (bytes[pos + 1] as u32)) / 4;
        if v >= 64 {
            Some((v, pos + 2))
        } else {
            None
        }
    } else if mode == 2 {
        if bytes.len() - pos < 4 {
            return None;
        }
        let w: u32 = (b0 as u32) + 256 * (bytes[pos + 1] as u32) + 65536 * (bytes[pos
            + 2] as u32) + 16777216 * (bytes[pos + 3] as u32);
        let v: u32 = w / 4;
        if v >= 16384 {
            Some((v, pos + 4))
        } else {
            None
        }
    } else {
        if b0 != 3 {
            return None;
        }
        if bytes.len() - pos < 5 {
            return None;
        }
        let v: u32 = (bytes[pos + 1] as u32) + 256 * (bytes[pos + 2] as u32) + 65536 * (bytes[pos
            + 3] as u32) + 16777216 * (bytes[pos + 4] as u32);
        if v >= 0x40000000 {
            Some((v, pos + 5))
        } else {
            None
        }
    }
}

/// Prepend already-decoded items to the rest of a decoding in progress.
pub open spec fn extend_decoding(done: Seq<Seq<u8>>, tail: Option<(Seq<Seq<u8>>, int)>) -> Option<
    (Seq<Seq<u8>>, int),
> {
    match tail {
        None => None,
        Some((rest, p)) => Some((done + rest, p)),
    }
}

/// Position right after the leading count, when the payload has one.
pub open spec fn statements_start(s: Seq<u8>) -> int {
    compact_decode(s, 0).unwrap().1
}

/// Decode a notification payload into its statement sequence; trailing bytes
/// are ignored, any other malformation yields nothing.
pub fn decode_statements(bytes: &Vec<u8>) -> (r: Option<Vec<Vec<u8>>>)
    ensures
        (r is Some) <==> (statements_decoding(bytes@) is Some),
        r is Some ==> views_of(r.unwrap()@) == statements_decoding(bytes@).unwrap(),
{
    let head = decode_compact(bytes, 0);
    let (n, mut pos) = match head {
        None => {
            return None;
        },
        Some(p) => p,
    };
    let ghost n0 = n as int;
    let mut items: Vec<Vec<u8>> = Vec::new();
    proof {
        assert(views_of(items@) =~= Seq::<Seq<u8>>::empty());
        match items_decoding(bytes@, pos as int, n0) {
            Some((rest, p2)) => {
                assert(Seq::<Seq<u8>>::empty() + rest =~= rest);
            },
            None => {},
        }
    }
    let mut i: u32 = 0;
    while i < n
        invariant
            i <= n,
            n0 == n as int,
            pos <= bytes@.len(),
            compact_decode(bytes@, 0) == Some((n0, statements_start(bytes@))),
            items_decoding(bytes@, statements_start(bytes@), n0) == extend_decoding(
                views_of(items@),
                items_decoding(bytes@, pos as int, n0 - i),
            ),
        decreases n - i,
    {
        let ghost pos_pre = pos as int;
        let ghost items_pre = items@;
        let next = decode_compact(bytes, pos);
        let (len, p1) = match next {
            None => {
                proof {
                    assert(items_decoding(bytes@, pos_pre, n0 - i) is None);
                }
                return None;
            },
            Some(p) => p,
        };
        if (len as usize) > bytes.len() - p1 {
            proof {
                assert(items_decoding(bytes@, pos_pre, n0 - i) is None);
            }
            return None;
        }
        let len_us = len as usize;
        let mut item: Vec<u8> = Vec::new();
        let mut k: usize = 0;
        while k < len_us
            invariant
                k <= len_us,
                p1 + len_us <= bytes@.len(),
                bytes@.len() <= usize::MAX,
                item@ == bytes@.subrange(p1 as int, p1 + k),
            decreases len_us - k,
        {
            let b = bytes[p1 + k];
            item.push(b);
            proof {
                assert(bytes@.subrange(p1 as int, p1 + k + 1) =~= bytes@.subrange(
                    p1 as int,
                    p1 + k,
                ).push(b));
            }
            k += 1;
        }
        pos = p1 + len_us;
        items.push(item);
        proof {
            let item_s = bytes@.subrange(p1 as int, p1 + len_us);
            assert(views_of(items@) =~= views_of(items_pre).push(item_s));
            match items_decoding(bytes@, pos as int, n0 - (i + 1)) {
                Some((rest, p2)) => {
                    assert(items_decoding(bytes@, pos_pre, n0 - i) == Some::<(Seq<Seq<u8>>, int)>(
                        (seq![item_s] + rest, p2),
                    ));
                    assert(views_of(items_pre) + (seq![item_s] + rest) =~= views_of(items@)
                        + rest);
                },
                None => {
                    assert(items_decoding(bytes@, pos_pre, n0 - i) is None);
                },
            }
        }
        i += 1;
    }
    proof {
        assert(items_decoding(bytes@, pos as int, 0) == Some::<(Seq<Seq<u8>>, int)>(
            (Seq::empty(), pos as int),
        ));
        assert(views_of(items@) + Seq::<Seq<u8>>::empty() =~= views_of(items@));
        assert(statements_decoding(bytes@) == Some(views_of(items@)));
    }
    Some(items)
}

proof fn lemma_le4_digits(v: int)
    requires
        0 <= v < 0x100000000,
    ensures
        (v % 256) + 256 * ((v / 256) % 256) + 65536 * ((v / 65536) % 256) + 16777216 * ((v
            / 16777216) % 256) == v,
        0 <= v % 256 < 256,
        0 <= (v / 256) % 256 < 256,
        0 <= (v / 65536) % 256 < 256,
        0 <= (v / 16777216) % 256 < 256,
        (v / 16777216) % 256 == v / 16777216,
{
    lemma_fundamental_div_mod(v, 256);
    lemma_div_denominator(v, 256, 256);
    lemma_fundamental_div_mod(v / 256, 256);
    lemma_div_denominator(v, 65536, 256);
    lemma_fundamental_div_mod(v / 65536, 256);
    lemma_fundamental_div_mod(v, 16777216);
    assert(v / 16777216 >= 0) by {
        if v / 16777216 < 0 {
            assert(16777216 * (v / 16777216) <= -16777216);
        }
    }
    assert(v / 16777216 < 256) by {
        if v / 16777216 >= 256 {
            assert(16777216 * (v / 16777216) >= 16777216 * 256);
        }
    }
    vstd::arithmetic::div_mod::lemma_small_mod((v / 16777216) as nat, 256nat);
}

/// A canonical compact encoding placed at `pos` in a larger buffer decodes
/// back to its value, leaving the position right after it.
proof fn lemma_compact_round_trip(s: Seq<u8>, pos: int, n: int)
    requires
        0 <= n < 0x100000000,
        0 <= pos,
        pos + compact_encode(n).len() <= s.len(),
        s.subrange(pos, pos + compact_encode(n).len() as int) == compact_encode(n),
    ensures
        compact_decode(s, pos) == Some((n, pos + compact_encode(n).len() as int)),
{
    let e = compact_encode(n);
    assert(s[pos] == e[0]) by {
        assert(s.subrange(pos, pos + e.len() as int)[0] == s[pos]);
    }
    if n < 64 {
        let b0 = s[pos] as int;
        assert(b0 == 4 * n);
        lemma_fundamental_div_mod_converse(b0, 4, n, 0);
    } else if n < 16384 {
        let v = 4 * n + 1;
        assert(s[pos + 1] == e[1]) by {
            assert(s.subrange(pos, pos + e.len() as int)[1] == s[pos + 1]);
        }
        lemma_fundamental_div_mod(v, 256);
        assert(v / 256 >= 0) by {
            if v / 256 < 0 {
                assert(256 * (v / 256) <= -256);
            }
        }
        assert(v / 256 < 256) by {
            if v / 256 >= 256 {
                assert(256 * (v / 256) >= 65536);
            }
        }
        let b0 = s[pos] as int;
        let b1 = s[pos + 1] as int;
        assert(b0 == v % 256);
        assert(b1 == v / 256);
        assert(b0 + 256 * b1 == v);
        let q = v / 256;
        let k = n - 64 * q;
        assert(b0 == 4 * k + 1);
        assert(k >= 0);
        lemma_fundamental_div_mod_converse(b0, 4, k, 1);
        assert(b0 % 4 == 1);
        lemma_fundamental_div_mod_converse(v, 4, n, 1);
        assert(v / 4 == n);
    } else if n < 0x40000000 {
        let v = 4 * n + 2;
        lemma_le4_digits(v);
        assert(s[pos + 1] == e[1] && s[pos + 2] == e[2] && s[pos + 3] == e[3]) by {
            assert(s.subrange(pos, pos + e.len() as int)[1] == s[pos + 1]);
            assert(s.subrange(pos, pos + e.len() as int)[2] == s[pos + 2]);
            assert(s.subrange(pos, pos + e.len() as int)[3] == s[pos + 3]);
        }
        let b0 = s[pos] as int;
        let w = b0 + 256 * (s[pos + 1] as int) + 65536 * (s[pos + 2] as int) + 16777216 * (s[pos
            + 3] as int);
        assert(b0 == v % 256);
        assert(w == v);
        lemma_fundamental_div_mod(v, 256);
        let q = v / 256;
        let k = n - 64 * q;
        assert(b0 == 4 * k + 2);
        assert(k >= 0);
        lemma_fundamental_div_mod_converse(b0, 4, k, 2);
        assert(b0 % 4 == 2);
        lemma_fundamental_div_mod_converse(v, 4, n, 2);
        assert(v / 4 == n);
    } else {
        lemma_le4_digits(n);
        assert(s[pos + 1] == e[1] && s[pos + 2] == e[2] && s[pos + 3] == e[3] && s[pos + 4]
            == e[4]) by {
            assert(s.subrange(pos, pos + e.len() as int)[1] == s[pos + 1]);
            assert(s.subrange(pos, pos + e.len() as int)[2] == s[pos + 2]);
            assert(s.subrange(pos, pos + e.len() as int)[3] == s[pos + 3]);
            assert(s.subrange(pos, pos + e.len() as int)[4] == s[pos + 4]);
        }
        let b0 = s[pos] as int;
        assert(b0 == 3);
        let w = (s[pos + 1] as int) + 256 * (s[pos + 2] as int) + 65536 * (s[pos + 3] as int)
            + 16777216 * (s[pos + 4] as int);
        assert(w == n);
    }
}

/// The item encodings placed at `pos` decode back to the items themselves.
proof fn lemma_items_round_trip(s: Seq<u8>, pos: int, ss: Seq<Seq<u8>>)
    requires
        0 <= pos,
        forall|i: int| 0 <= i < ss.len() ==> (#[trigger] ss[i]).len() < 0x100000000,
        pos + encoded_items(ss).len() <= s.len(),
        s.subrange(pos, pos + encoded_items(ss).len() as int) == encoded_items(ss),
    ensures
        items_decoding(s, pos, ss.len() as int) == Some(
            (ss, pos + encoded_items(ss).len() as int),
        ),
    decreases ss.len(),
{
    if ss.len() == 0 {
        assert(items_decoding(s, pos, 0) == Some((Seq::<Seq<u8>>::empty(), pos)));
        assert(ss =~= Seq::<Seq<u8>>::empty());
    } else {
        let x = ss.first();
        let rest = ss.drop_first();
        let e0 = compact_encode(x.len() as int);
        let er = encoded_items(rest);
        let total = encoded_items(ss);
        assert(total == e0 + x + er);
        assert(x.len() < 0x100000000) by {
            assert(ss[0] == x);
        }
        assert(s.subrange(pos, pos + e0.len() as int) =~= e0) by {
            assert forall|j: int| 0 <= j < e0.len() implies s.subrange(
                pos,
                pos + e0.len() as int,
            )[j] == e0[j] by {
                assert(s.subrange(pos, pos + total.len() as int)[j] == s[pos + j]);
                assert(total[j] == e0[j]);
            }
        }
        lemma_compact_round_trip(s, pos, x.len() as int);
        let p1 = pos + e0.len() as int;
        assert(compact_decode(s, pos) == Some((x.len() as int, p1)));
        assert(s.subrange(p1, p1 + x.len() as int) =~= x) by {
            assert forall|j: int| 0 <= j < x.len() implies s.subrange(p1, p1 + x.len() as int)[j]
                == x[j] by {
                assert(s.subrange(pos, pos + total.len() as int)[e0.len() + j] == s[pos + e0.len()
                    + j]);
                assert(total[e0.len() + j] == x[j]);
            }
        }
        let p2 = p1 + x.len() as int;
        assert(s.subrange(p2, p2 + er.len() as int) =~= er) by {
            assert forall|j: int| 0 <= j < er.len() implies s.subrange(p2, p2 + er.len() as int)[j]
                == er[j] by {
                assert(s.subrange(pos, pos + total.len() as int)[e0.len() + x.len() + j] == s[pos
                    + e0.len() + x.len() + j]);
                assert(total[e0.len() + x.len() + j] == er[j]);
            }
        }
        assert forall|i: int| 0 <= i < rest.len() implies (#[trigger] rest[i]).len()
            < 0x100000000 by {
            assert(rest[i] == ss[i + 1]);
        }
        lemma_items_round_trip(s, p2, rest);
        assert(items_decoding(s, p2, rest.len() as int) == Some((rest, p2 + er.len() as int)));
        assert(seq![s.subrange(p1, p2)] + rest =~= ss) by {
            assert(s.subrange(p1, p2) == x);
            assert((seq![x] + rest).len() == ss.len());
            assert forall|i: int| 0 <= i < ss.len() implies (seq![x] + rest)[i] == ss[i] by {
                if i > 0 {
                    assert(rest[i - 1] == ss[i]);
                }
            }
        }
        assert(items_decoding(s, pos, ss.len() as int) == Some(
            (ss, pos + encoded_items(ss).len() as int),
        ));
    }
}

/// Encoding a statement sequence and decoding the result yields the
/// original sequence.
pub proof fn lemma_statements_round_trip(ss: Seq<Seq<u8>>)
    requires
        ss.len() < 0x100000000,
        forall|i: int| 0 <= i < ss.len() ==> (#[trigger] ss[i]).len() < 0x100000000,
    ensures
        statements_decoding(statements_encoding(ss)) == Some(ss),
{
    let s = statements_encoding(ss);
    let e0 = compact_encode(ss.len() as int);
    let er = encoded_items(ss);
    assert(s == e0 + er);
    assert(s.subrange(0, e0.len() as int) =~= e0);
    lemma_compact_round_trip(s, 0, ss.len() as int);
    assert(compact_decode(s, 0) == Some((ss.len() as int, e0.len() as int)));
    assert(s.subrange(e0.len() as int, (e0.len() + er.len()) as int) =~= er);
    lemma_items_round_trip(s, e0.len() as int, ss);
}

} // verus!
