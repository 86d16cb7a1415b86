//! Decoder for the Avro datum encoding of the tag list carried by bundle
//! items: an `array` of records with two `bytes` fields, `name` and `value`.
//!
//! The wire format: an array is a sequence of blocks, each introduced by a
//! zigzag-varint `long` item count; a count of zero ends the array, and a
//! negative count stands for its absolute value and is followed by a `long`
//! block size in bytes. Each record is two length-prefixed byte strings.
//! Varints are at most ten bytes; bits beyond the 64th are discarded.

use vstd::prelude::*;
use vstd::slice::{slice_subrange, slice_to_vec};

verus! {

/// A decoded tag: raw name bytes and raw value bytes.
pub type TagPair = (Seq<u8>, Seq<u8>);

/// A varint continued from partial state: `j` groups of seven bits already
/// read into `acc`.
pub open spec fn varint_at(b: Seq<u8>, pos: int, j: int, acc: u64) -> Option<(u64, int)>
    decreases 10 - j,
{
    if j > 9 {
        None
    } else if pos < 0 || pos >= b.len() {
        None
    } else {
        let byte = b[pos];
        let acc2 = acc | (((byte & 0x7f) as u64) << ((7 * j) as u64));
        if byte < 0x80 {
            Some((acc2, pos + 1))
        } else {
            varint_at(b, pos + 1, j + 1, acc2)
        }
    }
}

/// Zigzag decoding of a varint value.
pub open spec fn zigzag(z: u64) -> i64 {
    if z & 1 == 0 {
        (z >> 1) as i64
    } else {
        !(z >> 1) as i64
    }
}

/// A `long` at `pos`: varint bits, zigzag decoded.
pub open spec fn avro_long(b: Seq<u8>, pos: int) -> Option<(i64, int)> {
    match varint_at(b, pos, 0, 0) {
        Some((z, p)) => Some((zigzag(z), p)),
        None => None,
    }
}

/// A `bytes` item at `pos`: a non-negative `long` length, then that many bytes.
pub open spec fn avro_bytes(b: Seq<u8>, pos: int) -> Option<(Seq<u8>, int)> {
    match avro_long(b, pos) {
        Some((l, p)) => if l < 0 {
            None
        } else if p + l <= b.len() {
            Some((b.subrange(p, p + l), p + l))
        } else {
            None
        },
        None => None,
    }
}

/// A tag record at `pos`: `name` bytes then `value` bytes.
pub open spec fn avro_tag(b: Seq<u8>, pos: int) -> Option<(TagPair, int)> {
    match avro_bytes(b, pos) {
        Some((name, p)) => match avro_bytes(b, p) {
            Some((value, p2)) => Some(((name, value), p2)),
            None => None,
        },
        None => None,
    }
}

/// `count` consecutive tag records starting at `pos`.
pub open spec fn avro_block_items(b: Seq<u8>, pos: int, count: int) -> Option<(Seq<TagPair>, int)>
    decreases count,
{
    if count <= 0 {
        Some((Seq::empty(), pos))
    } else {
        match avro_tag(b, pos) {
            Some((t, p)) => match avro_block_items(b, p, count - 1) {
                Some((rest, p2)) => Some((seq![t] + rest, p2)),
                None => None,
            },
            None => None,
        }
    }
}

/// The blocks of an array starting at `pos`. Each block consumes at least one
/// byte, so any array that ends within the input has fewer blocks than input
/// bytes; `fuel` only bounds that recursion.
pub open spec fn avro_blocks(b: Seq<u8>, pos: int, fuel: nat) -> Option<Seq<TagPair>>
    decreases fuel,
{
    if fuel == 0 {
        None
    } else {
        match avro_long(b, pos) {
            None => None,
            Some((l, p)) => {
                if l == 0 {
                    Some(Seq::empty())
                } else if l == i64::MIN {
                    None
                } else {
                    let start = if l < 0 {
                        match avro_long(b, p) {
                            Some((_size, p2)) => p2,
                            None => -1,
                        }
                    } else {
                        p
                    };
                    if start < 0 {
                        None
                    } else {
                        let count = if l < 0 { -(l as int) } else { l as int };
                        match avro_block_items(b, start, count) {
                            Some((items, p3)) => match avro_blocks(b, p3, (fuel - 1) as nat) {
                                Some(rest) => Some(items + rest),
                                None => None,
                            },
                            None => None,
                        }
                    }
                }
            },
        }
    }
}

/// The tag list encoded by an Avro datum, or `None` where the datum is
/// malformed. Bytes after the array's final block are ignored.
pub open spec fn avro_tags(b: Seq<u8>) -> Option<Seq<TagPair>> {
    avro_blocks(b, 0, b.len() + 1)
}

/// The raw views of decoded tag pairs.
pub open spec fn pairs_view(v: Seq<(Vec<u8>, Vec<u8>)>) -> Seq<TagPair> {
    v.map_values(|p: (Vec<u8>, Vec<u8>)| (p.0@, p.1@))
}

fn read_varint(b: &[u8], pos: usize) -> (r: Option<(u64, usize)>)
    requires
        pos <= b@.len(),
    ensures
        match r {
            Some((v, p)) => varint_at(b@, pos as int, 0, 0) == Some((v, p as int)) && pos < p
                <= b@.len(),
            None => varint_at(b@, pos as int, 0, 0) is None,
        },
{
    let mut acc: u64 = 0;
    let mut j: usize = 0;
    let mut p: usize = pos;

    loop
        invariant
            pos <= p <= b@.len(),
            j <= 10,
            j == 0 ==> p == pos,
            j > 0 ==> p > pos,
            varint_at(b@, pos as int, 0, 0) == varint_at(b@, p as int, j as int, acc),
        decreases 10 - j,
    {
        if j > 9 {
            return None;
        }
        if p >= b.len() {
            return None;
        }
        let byte = b[p];
        let shift: u64 = (7 * j) as u64;
        acc = acc | (((byte & 0x7f) as u64) << shift);
        p = p + 1;
        if byte < 0x80 {
            return Some((acc, p));
        }
        j = j + 1;
    }
}

fn read_long(b: &[u8], pos: usize) -> (r: Option<(i64, usize)>)
    requires
        pos <= b@.len(),
    ensures
        match r {
            Some((v, p)) => avro_long(b@, pos as int) == Some((v, p as int)) && pos < p <= b@.len(),
            None => avro_long(b@, pos as int) is None,
        },
{
    match read_varint(b, pos) {
        Some((z, p)) => {
            let v: i64 = if z & 1 == 0 {
                (z >> 1u64) as i64
            } else {
                !(z >> 1u64) as i64
            };
            Some((v, p))
        },
        None => None,
    }
}

fn read_bytes(b: &[u8], pos: usize) -> (r: Option<(Vec<u8>, usize)>)
    requires
        pos <= b@.len(),
    ensures
        match r {
            Some((v, p)) => avro_bytes(b@, pos as int) == Some((v@, p as int)) && pos < p
                <= b@.len(),
            None => avro_bytes(b@, pos as int) is None,
        },
{
    let (l, p) = match read_long(b, pos) {
        Some(x) => x,
        None => {
            return None;
        },
    };
    if l < 0 {
        return None;
    }
    let len = l as u64;
    if len > (b.len() - p) as u64 {
        return None;
    }
    let end = p + (len as usize);
    let v = slice_to_vec(slice_subrange(b, p, end));
    Some((v, end))
}

fn read_tag(b: &[u8], pos: usize) -> (r: Option<((Vec<u8>, Vec<u8>), usize)>)
    requires
        pos <= b@.len(),
    ensures
        match r {
            Some((t, p)) => avro_tag(b@, pos as int) == Some(((t.0@, t.1@), p as int)) && pos < p
                <= b@.len(),
            None => avro_tag(b@, pos as int) is None,
        },
{
    let (name, p) = match read_bytes(b, pos) {
        Some(x) => x,
        None => {
            return None;
        },
    };
    let (value, p2) = match read_bytes(b, p) {
        Some(x) => x,
        None => {
            return None;
        },
    };
    Some(((name, value), p2))
}

spec fn items_continuation(
    out: Seq<TagPair>,
    o: Option<(Seq<TagPair>, int)>,
) -> Option<(Seq<TagPair>, int)> {
    match o {
        Some((items, p)) => Some((out + items, p)),
        None => None,
    }
}

fn read_block_items(b: &[u8], pos: usize, count: u64, out: &mut Vec<(Vec<u8>, Vec<u8>)>) -> (r:
    Option<usize>)
    requires
        pos <= b@.len(),
    ensures
        match r {
            Some(p) => avro_block_items(b@, pos as int, count as int) == Some(
                (pairs_view(final(out)@.skip(old(out)@.len() as int)), p as int),
            ) && final(out)@.take(old(out)@.len() as int) == old(out)@ && final(out)@.len() == old(
                out,
            )@.len() + count && pos <= p <= b@.len(),
            None => avro_block_items(b@, pos as int, count as int) is None,
        },
{
    let ghost base = out@.len() as int;
    let mut k: u64 = 0;
    let mut p: usize = pos;

    proof {
        assert(out@.skip(base) =~= Seq::<(Vec<u8>, Vec<u8>)>::empty());
        assert(pairs_view(Seq::empty()) =~= Seq::<TagPair>::empty());
    }

    while k < count
        invariant
            pos <= p <= b@.len(),
            k <= count,
            out@.len() == base + k,
            base <= out@.len(),
            out@.take(base) == old(out)@,
            old(out)@.len() == base,
            items_continuation(
                pairs_view(out@.skip(base)),
                avro_block_items(b@, p as int, (count - k) as int),
            ) == avro_block_items(b@, pos as int, count as int),
        decreases count - k,
    {
        let (t, p2) = match read_tag(b, p) {
            Some(x) => x,
            None => {
                return None;
            },
        };
        let ghost prev = out@;
        out.push(t);
        proof {
            let tv = (t.0@, t.1@);
            assert(out@.skip(base) =~= prev.skip(base) + seq![t]);
            assert(pairs_view(prev.skip(base) + seq![t]) =~= pairs_view(prev.skip(base)) + seq![tv]);
            assert(out@.take(base) =~= prev.take(base));
            match avro_block_items(b@, p2 as int, (count - k - 1) as int) {
                Some((rest, pe)) => {
                    assert(avro_block_items(b@, p as int, (count - k) as int) == Some(
                        (seq![tv] + rest, pe),
                    ));
                    assert(pairs_view(prev.skip(base)) + (seq![tv] + rest) =~= (pairs_view(
                        prev.skip(base),
                    ) + seq![tv]) + rest);
                },
                None => {
                    assert(avro_block_items(b@, p as int, (count - k) as int) is None);
                },
            }
        }
        p = p2;
        k = k + 1;
    }
    Some(p)
}

/// Decode the Avro datum encoding of a tag array into raw byte pairs.
pub fn decode_tag_pairs(b: &[u8]) -> (r: Option<Vec<(Vec<u8>, Vec<u8>)>>)
    ensures
        match r {
            Some(v) => avro_tags(b@) == Some(pairs_view(v@)),
            None => avro_tags(b@) is None,
        },
{
    let mut out: Vec<(Vec<u8>, Vec<u8>)> = Vec::new();
    let mut pos: usize = 0;
    let ghost fuel0: nat = b@.len() + 1;
    let ghost mut fuel: nat = fuel0;

    proof {
        assert(pairs_view(out@) =~= Seq::<TagPair>::empty());
        if let Some(rest) = avro_blocks(b@, 0, fuel0) {
            assert(pairs_view(out@) + rest =~= rest);
        }
    }

    loop
        invariant
            pos <= b@.len(),
            fuel >= 1,
            fuel0 == b@.len() + 1,
            fuel >= fuel0 - pos,
            (match avro_blocks(b@, pos as int, fuel) {
                Some(rest) => avro_tags(b@) == Some(pairs_view(out@) + rest),
                None => avro_tags(b@) is None,
            }),
        decreases fuel,
    {
        let (l, p) = match read_long(b, pos) {
            Some(x) => x,
            None => {
                return None;
            },
        };
        if l == 0 {
            proof {
                assert(pairs_view(out@) + Seq::<TagPair>::empty() =~= pairs_view(out@));
            }
            return Some(out);
        }
        if l == i64::MIN {
            return None;
        }
        let (count, start) = if l < 0 {
            let (_size, p2) = match read_long(b, p) {
                Some(x) => x,
                None => {
                    return None;
                },
            };
            ((-l) as u64, p2)
        } else {
            (l as u64, p)
        };
        let ghost before = out@;
        let p3 = match read_block_items(b, start, count, &mut out) {
            Some(x) => x,
            None => {
                return None;
            },
        };
        proof {
            let items = pairs_view(out@.skip(before.len() as int));
            assert(out@.take(before.len() as int) == before);
            assert(out@ =~= before + out@.skip(before.len() as int));
            assert(pairs_view(before + out@.skip(before.len() as int)) =~= pairs_view(before)
                + items);
            match avro_blocks(b@, p3 as int, (fuel - 1) as nat) {
                Some(rest) => {
                    assert(avro_blocks(b@, pos as int, fuel) == Some(items + rest));
                    assert(pairs_view(before) + (items + rest) =~= (pairs_view(before) + items)
                        + rest);
                },
                None => {
                    assert(avro_blocks(b@, pos as int, fuel) is None);
                },
            }
            fuel = (fuel - 1) as nat;
        }
        pos = p3;
    }
}

} // verus!
