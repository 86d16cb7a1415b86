//! The on-disk transaction cache: an ordered key-to-transaction map with a
//! JSON form. Reading back what was written yields the original entries,
//! which `lemma_cache_round_trip` states; the file I/O around it stays with
//! the caller.

use vstd::prelude::*;
use vstd::utf8::{valid_utf8, decode_utf8, encode_utf8};
use crate::bundle::tags::{Base64, Base64Tags, Tag, tags_seq_view};
use crate::bundle::tx::{BundleTx, TxView};
use crate::json::{
    dec_digits, esc, json_string, parse_decimal, parse_string_body, push_bytes, push_decimal,
    push_json_string, starts_with, lemma_parse_esc, lemma_parse_decimal, expect_lit,
    parse_string_at, parse_decimal_at,
};
use crate::text::string_from_utf8;

verus! {

/// A key-to-value map in insertion order, persisted at `file`.
pub struct Cache<T> {
    pub data: Vec<(String, T)>,
    pub file: String,
}

/// Whether some entry carries the key.
pub open spec fn has_key<T>(entries: Seq<(String, T)>, k: Seq<char>) -> bool {
    exists|i: int| 0 <= i < entries.len() && entries[i].0@ == k
}

impl<T> Cache<T> {
    /// An empty cache persisted at `file`.
    pub fn new(file: String) -> (r: Cache<T>)
        ensures
            r.data@ == Seq::<(String, T)>::empty(),
            r.file@ == file@,
    {
        Cache { data: Vec::new(), file }
    }

    /// Whether the key is cached.
    pub fn contains_key(&self, id: &String) -> (r: bool)
        ensures
            r == has_key(self.data@, id@),
    {
        let mut i: usize = 0;
        while i < self.data.len()
            invariant
                i <= self.data@.len(),
                forall|j: int| 0 <= j < i ==> self.data@[j].0@ != id@,
            decreases self.data@.len() - i,
        {
            if self.data[i].0 == *id {
                proof {
                    assert(self.data@[i as int].0@ == id@);
                }
                return true;
            }
            i = i + 1;
        }
        false
    }

    /// The first value stored under the key.
    pub fn get(&self, id: &String) -> (r: Option<&T>)
        ensures
            match r {
                Some(v) => exists|i: int|
                    0 <= i < self.data@.len() && self.data@[i].0@ == id@ && self.data@[i].1 == *v,
                None => !has_key(self.data@, id@),
            },
    {
        let mut i: usize = 0;
        while i < self.data.len()
            invariant
                i <= self.data@.len(),
                forall|j: int| 0 <= j < i ==> self.data@[j].0@ != id@,
            decreases self.data@.len() - i,
        {
            if self.data[i].0 == *id {
                proof {
                    assert(self.data@[i as int].0@ == id@);
                }
                return Some(&self.data[i].1);
            }
            i = i + 1;
        }
        None
    }

    /// Store a value under the key: an existing entry is replaced in place,
    /// a new key is appended.
    pub fn insert(&mut self, id: String, value: T)
        ensures
            ({
                let entries = old(self).data@;
                if has_key(entries, id@) {
                    exists|i: int|
                        0 <= i < entries.len() && entries[i].0@ == id@ && final(self).data@
                            == entries.update(i, (id, value))
                } else {
                    final(self).data@ == entries.push((id, value))
                }
            }),
            final(self).file@ == old(self).file@,
    {
        let mut i: usize = 0;
        while i < self.data.len()
            invariant
                i <= self.data@.len(),
                self.data@ == old(self).data@,
                self.file@ == old(self).file@,
                forall|j: int| 0 <= j < i ==> self.data@[j].0@ != id@,
            decreases self.data@.len() - i,
        {
            if self.data[i].0 == id {
                let ghost entries = self.data@;
                self.data.remove(i);
                self.data.insert(i, (id, value));
                proof {
                    assert(self.data@ =~= entries.update(i as int, self.data@[i as int]));
                }
                return;
            }
            i = i + 1;
        }
        self.data.push((id, value));
    }
}

/// The view of the cache entries.
pub open spec fn entries_view(entries: Seq<(String, BundleTx)>) -> Seq<(Seq<char>, TxView)> {
    entries.map_values(|e: (String, BundleTx)| (e.0@, e.1@))
}

/// The JSON bytes of one string value.
pub open spec fn jchars(s: Seq<char>) -> Seq<u8> {
    json_string(encode_utf8(s))
}

/// `{"name":`
pub open spec fn lit_name() -> Seq<u8> {
    seq![0x7Bu8, 0x22, 0x6E, 0x61, 0x6D, 0x65, 0x22, 0x3A]
}

/// `,"value":`
pub open spec fn lit_value() -> Seq<u8> {
    seq![0x2Cu8, 0x22, 0x76, 0x61, 0x6C, 0x75, 0x65, 0x22, 0x3A]
}

/// The JSON bytes of one tag.
pub open spec fn jtag(p: (Seq<char>, Seq<char>)) -> Seq<u8> {
    lit_name() + jchars(p.0) + lit_value() + jchars(p.1) + seq![0x7Du8]
}

/// The later tags of a JSON tag list, each after a comma.
pub open spec fn jtags_rest(ts: Seq<(Seq<char>, Seq<char>)>) -> Seq<u8>
    decreases ts.len(),
{
    if ts.len() == 0 {
        Seq::empty()
    } else {
        seq![0x2Cu8] + jtag(ts[0]) + jtags_rest(ts.drop_first())
    }
}

/// The JSON bytes of a tag list.
pub open spec fn jtags(ts: Seq<(Seq<char>, Seq<char>)>) -> Seq<u8> {
    if ts.len() == 0 {
        seq![0x5Bu8, 0x5Du8]
    } else {
        seq![0x5Bu8] + jtag(ts[0]) + jtags_rest(ts.drop_first()) + seq![0x5Du8]
    }
}

/// `{"format":`
pub open spec fn lit_format() -> Seq<u8> {
    seq![0x7Bu8, 0x22, 0x66, 0x6F, 0x72, 0x6D, 0x61, 0x74, 0x22, 0x3A]
}

/// `,"id":`
pub open spec fn lit_id() -> Seq<u8> {
    seq![0x2Cu8, 0x22, 0x69, 0x64, 0x22, 0x3A]
}

/// `,"last_tx":`
pub open spec fn lit_last_tx() -> Seq<u8> {
    seq![0x2Cu8, 0x22, 0x6C, 0x61, 0x73, 0x74, 0x5F, 0x74, 0x78, 0x22, 0x3A]
}

/// `,"owner":`
pub open spec fn lit_owner() -> Seq<u8> {
    seq![0x2Cu8, 0x22, 0x6F, 0x77, 0x6E, 0x65, 0x72, 0x22, 0x3A]
}

/// `,"tags":`
pub open spec fn lit_tags() -> Seq<u8> {
    seq![0x2Cu8, 0x22, 0x74, 0x61, 0x67, 0x73, 0x22, 0x3A]
}

/// `,"target":`
pub open spec fn lit_target() -> Seq<u8> {
    seq![0x2Cu8, 0x22, 0x74, 0x61, 0x72, 0x67, 0x65, 0x74, 0x22, 0x3A]
}

/// `,"quantity":`
pub open spec fn lit_quantity() -> Seq<u8> {
    seq![0x2Cu8, 0x22, 0x71, 0x75, 0x61, 0x6E, 0x74, 0x69, 0x74, 0x79, 0x22, 0x3A]
}

/// `,"data":`
pub open spec fn lit_data() -> Seq<u8> {
    seq![0x2Cu8, 0x22, 0x64, 0x61, 0x74, 0x61, 0x22, 0x3A]
}

/// `,"data_root":`
pub open spec fn lit_data_root() -> Seq<u8> {
    seq![0x2Cu8, 0x22, 0x64, 0x61, 0x74, 0x61, 0x5F, 0x72, 0x6F, 0x6F, 0x74, 0x22, 0x3A]
}

/// `,"data_size":`
pub open spec fn lit_data_size() -> Seq<u8> {
    seq![0x2Cu8, 0x22, 0x64, 0x61, 0x74, 0x61, 0x5F, 0x73, 0x69, 0x7A, 0x65, 0x22, 0x3A]
}

/// `,"reward":`
pub open spec fn lit_reward() -> Seq<u8> {
    seq![0x2Cu8, 0x22, 0x72, 0x65, 0x77, 0x61, 0x72, 0x64, 0x22, 0x3A]
}

/// `,"signature":`
pub open spec fn lit_signature() -> Seq<u8> {
    seq![0x2Cu8, 0x22, 0x73, 0x69, 0x67, 0x6E, 0x61, 0x74, 0x75, 0x72, 0x65, 0x22, 0x3A]
}

/// The closing string fields of a transaction record's JSON.
#[verifier::opaque]
pub open spec fn json_tx_tail(t: TxView) -> Seq<u8> {
    lit_target() + jchars(t.target) + lit_quantity() + jchars(t.quantity) + lit_data() + jchars(
        t.data,
    ) + lit_data_root() + jchars(t.data_root) + lit_data_size() + jchars(t.data_size)
        + lit_reward() + jchars(t.reward) + lit_signature() + jchars(t.signature) + seq![0x7Du8]
}

/// The JSON bytes of one transaction record, fields in declaration order.
#[verifier::opaque]
pub open spec fn json_of_tx(t: TxView) -> Seq<u8> {
    lit_format() + dec_digits(t.format as nat) + lit_id() + jchars(t.id) + lit_last_tx() + jchars(
        t.last_tx,
    ) + lit_owner() + jchars(t.owner) + lit_tags() + jtags(t.tags) + json_tx_tail(t)
}

/// One cache entry: the key and its record.
pub open spec fn jentry(e: (Seq<char>, TxView)) -> Seq<u8> {
    jchars(e.0) + seq![0x3Au8] + json_of_tx(e.1)
}

/// The later entries of the cache object, each after a comma.
pub open spec fn jentries_rest(es: Seq<(Seq<char>, TxView)>) -> Seq<u8>
    decreases es.len(),
{
    if es.len() == 0 {
        Seq::empty()
    } else {
        seq![0x2Cu8] + jentry(es[0]) + jentries_rest(es.drop_first())
    }
}

/// The JSON bytes of the whole cache.
pub open spec fn json_of_cache(es: Seq<(Seq<char>, TxView)>) -> Seq<u8> {
    if es.len() == 0 {
        seq![0x7Bu8, 0x7Du8]
    } else {
        seq![0x7Bu8] + jentry(es[0]) + jentries_rest(es.drop_first()) + seq![0x7Du8]
    }
}

fn push_jchars(out: &mut Vec<u8>, s: &String)
    ensures
        final(out)@ == old(out)@ + jchars(s@),
{
    push_json_string(out, s.as_str().as_bytes());
}

fn push_tag(out: &mut Vec<u8>, t: &Tag<Base64>)
    ensures
        final(out)@ == old(out)@ + jtag((t.name@, t.value@)),
{
    let ln: Vec<u8> = vec![0x7B, 0x22, 0x6E, 0x61, 0x6D, 0x65, 0x22, 0x3A];
    let lv: Vec<u8> = vec![0x2C, 0x22, 0x76, 0x61, 0x6C, 0x75, 0x65, 0x22, 0x3A];
    proof {
        assert(ln@ =~= lit_name());
        assert(lv@ =~= lit_value());
    }
    push_bytes(out, ln.as_slice());
    push_jchars(out, &t.name.0);
    push_bytes(out, lv.as_slice());
    push_jchars(out, &t.value.0);
    out.push(0x7D);
    proof {
        assert(out@ =~= old(out)@ + jtag((t.name@, t.value@)));
    }
}

proof fn lemma_jtags_rest_snoc(ts: Seq<(Seq<char>, Seq<char>)>, j: int)
    requires
        0 <= j < ts.len(),
    ensures
        jtags_rest(ts.take(j + 1)) == jtags_rest(ts.take(j)) + seq![0x2Cu8] + jtag(ts[j]),
    decreases j,
{
    if j == 0 {
        assert(ts.take(0) =~= Seq::<(Seq<char>, Seq<char>)>::empty());
        assert(ts.take(1)[0] == ts[0]);
        assert(ts.take(1).drop_first() =~= Seq::<(Seq<char>, Seq<char>)>::empty());
        assert(jtags_rest(ts.take(1)) =~= jtags_rest(ts.take(0)) + seq![0x2Cu8] + jtag(ts[0]));
    } else {
        lemma_jtags_rest_snoc(ts.drop_first(), j - 1);
        assert(ts.take(j + 1).drop_first() =~= ts.drop_first().take(j));
        assert(ts.take(j).drop_first() =~= ts.drop_first().take(j - 1));
        assert(ts.take(j + 1)[0] == ts[0]);
        assert(ts.take(j)[0] == ts[0]);
        assert(ts.drop_first()[j - 1] == ts[j]);
        assert(jtags_rest(ts.take(j + 1)) =~= jtags_rest(ts.take(j)) + seq![0x2Cu8] + jtag(ts[j]));
    }
}

fn push_jtags(out: &mut Vec<u8>, tags: &Base64Tags)
    ensures
        final(out)@ == old(out)@ + jtags(tags@),
{
    let ghost ts = tags@;
    if tags.0.len() == 0 {
        out.push(0x5B);
        out.push(0x5D);
        proof {
            assert(out@ =~= old(out)@ + jtags(ts));
        }
        return;
    }
    out.push(0x5B);
    push_tag(out, &tags.0[0]);
    let ghost base = out@;
    let mut j: usize = 1;
    proof {
        assert(ts[0] == (tags.0@[0].name@, tags.0@[0].value@));
        assert(base + jtags_rest(ts.drop_first().take(0)) =~= base);
        assert(ts.drop_first().take(0) =~= Seq::<(Seq<char>, Seq<char>)>::empty());
    }
    while j < tags.0.len()
        invariant
            1 <= j <= tags.0@.len(),
            ts == tags@,
            ts.len() == tags.0@.len(),
            out@ == base + jtags_rest(ts.drop_first().take(j - 1)),
        decreases tags.0@.len() - j,
    {
        out.push(0x2C);
        push_tag(out, &tags.0[j]);
        proof {
            assert(ts[j as int] == (tags.0@[j as int].name@, tags.0@[j as int].value@));
            lemma_jtags_rest_snoc(ts.drop_first(), j - 1);
            assert(ts.drop_first()[j - 1] == ts[j as int]);
            assert(out@ =~= base + jtags_rest(ts.drop_first().take(j as int)));
        }
        j = j + 1;
    }
    out.push(0x5D);
    proof {
        assert(ts.drop_first().take(ts.len() - 1) =~= ts.drop_first());
        assert(out@ =~= old(out)@ + jtags(ts));
    }
}

#[verifier::rlimit(100)]
#[verifier::spinoff_prover]
fn push_tx(out: &mut Vec<u8>, tx: &BundleTx)
    ensures
        final(out)@ == old(out)@ + json_of_tx(tx@),
{
    let l_format: Vec<u8> = vec![0x7B, 0x22, 0x66, 0x6F, 0x72, 0x6D, 0x61, 0x74, 0x22, 0x3A];
    let l_id: Vec<u8> = vec![0x2C, 0x22, 0x69, 0x64, 0x22, 0x3A];
    let l_last_tx: Vec<u8> = vec![
        0x2C,
        0x22,
        0x6C,
        0x61,
        0x73,
        0x74,
        0x5F,
        0x74,
        0x78,
        0x22,
        0x3A,
    ];
    let l_owner: Vec<u8> = vec![0x2C, 0x22, 0x6F, 0x77, 0x6E, 0x65, 0x72, 0x22, 0x3A];
    let l_tags: Vec<u8> = vec![0x2C, 0x22, 0x74, 0x61, 0x67, 0x73, 0x22, 0x3A];
    proof {
        assert(l_format@ =~= lit_format());
        assert(l_id@ =~= lit_id());
        assert(l_last_tx@ =~= lit_last_tx());
        assert(l_owner@ =~= lit_owner());
        assert(l_tags@ =~= lit_tags());
    }
    push_bytes(out, l_format.as_slice());
    push_decimal(out, tx.format as u64);
    push_bytes(out, l_id.as_slice());
    push_jchars(out, &tx.id);
    push_bytes(out, l_last_tx.as_slice());
    push_jchars(out, &tx.last_tx);
    push_bytes(out, l_owner.as_slice());
    push_jchars(out, &tx.owner);
    push_bytes(out, l_tags.as_slice());
    push_jtags(out, &tx.tags);
    push_tx_tail(out, tx);
    proof {
        reveal(json_of_tx);
        assert(out@ =~= old(out)@ + json_of_tx(tx@));
    }
}

#[verifier::rlimit(100)]
#[verifier::spinoff_prover]
fn push_tx_tail(out: &mut Vec<u8>, tx: &BundleTx)
    ensures
        final(out)@ == old(out)@ + json_tx_tail(tx@),
{
    let l_target: Vec<u8> = vec![0x2C, 0x22, 0x74, 0x61, 0x72, 0x67, 0x65, 0x74, 0x22, 0x3A];
    let l_quantity: Vec<u8> = vec![
        0x2C,
        0x22,
        0x71,
        0x75,
        0x61,
        0x6E,
        0x74,
        0x69,
        0x74,
        0x79,
        0x22,
        0x3A,
    ];
    let l_data: Vec<u8> = vec![0x2C, 0x22, 0x64, 0x61, 0x74, 0x61, 0x22, 0x3A];
    let l_data_root: Vec<u8> = vec![
        0x2C,
        0x22,
        0x64,
        0x61,
        0x74,
        0x61,
        0x5F,
        0x72,
        0x6F,
        0x6F,
        0x74,
        0x22,
        0x3A,
    ];
    let l_data_size: Vec<u8> = vec![
        0x2C,
        0x22,
        0x64,
        0x61,
        0x74,
        0x61,
        0x5F,
        0x73,
        0x69,
        0x7A,
        0x65,
        0x22,
        0x3A,
    ];
    let l_reward: Vec<u8> = vec![0x2C, 0x22, 0x72, 0x65, 0x77, 0x61, 0x72, 0x64, 0x22, 0x3A];
    let l_signature: Vec<u8> = vec![
        0x2C,
        0x22,
        0x73,
        0x69,
        0x67,
        0x6E,
        0x61,
        0x74,
        0x75,
        0x72,
        0x65,
        0x22,
        0x3A,
    ];
    proof {
        assert(l_target@ =~= lit_target());
        assert(l_quantity@ =~= lit_quantity());
        assert(l_data@ =~= lit_data());
        assert(l_data_root@ =~= lit_data_root());
        assert(l_data_size@ =~= lit_data_size());
        assert(l_reward@ =~= lit_reward());
        assert(l_signature@ =~= lit_signature());
    }
    push_bytes(out, l_target.as_slice());
    push_jchars(out, &tx.target);
    push_bytes(out, l_quantity.as_slice());
    push_jchars(out, &tx.quantity);
    push_bytes(out, l_data.as_slice());
    push_jchars(out, &tx.data);
    push_bytes(out, l_data_root.as_slice());
    push_jchars(out, &tx.data_root);
    push_bytes(out, l_data_size.as_slice());
    push_jchars(out, &tx.data_size);
    push_bytes(out, l_reward.as_slice());
    push_jchars(out, &tx.reward);
    push_bytes(out, l_signature.as_slice());
    push_jchars(out, &tx.signature);
    out.push(0x7D);
    proof {
        reveal(json_tx_tail);
        assert(out@ =~= old(out)@ + json_tx_tail(tx@));
    }
}

proof fn lemma_jentries_rest_snoc(es: Seq<(Seq<char>, TxView)>, j: int)
    requires
        0 <= j < es.len(),
    ensures
        jentries_rest(es.take(j + 1)) == jentries_rest(es.take(j)) + seq![0x2Cu8] + jentry(es[j]),
    decreases j,
{
    if j == 0 {
        assert(es.take(0) =~= Seq::<(Seq<char>, TxView)>::empty());
        assert(es.take(1)[0] == es[0]);
        assert(es.take(1).drop_first() =~= Seq::<(Seq<char>, TxView)>::empty());
        assert(jentries_rest(es.take(1)) =~= jentries_rest(es.take(0)) + seq![0x2Cu8] + jentry(
            es[0],
        ));
    } else {
        lemma_jentries_rest_snoc(es.drop_first(), j - 1);
        assert(es.take(j + 1).drop_first() =~= es.drop_first().take(j));
        assert(es.take(j).drop_first() =~= es.drop_first().take(j - 1));
        assert(es.take(j + 1)[0] == es[0]);
        assert(es.take(j)[0] == es[0]);
        assert(es.drop_first()[j - 1] == es[j]);
        assert(jentries_rest(es.take(j + 1)) =~= jentries_rest(es.take(j)) + seq![0x2Cu8] + jentry(
            es[j],
        ));
    }
}

impl Cache<BundleTx> {
    /// The JSON bytes of the whole cache, ready to be written out.
    pub fn flush_bytes(&self) -> (r: Vec<u8>)
        ensures
            r@ == json_of_cache(entries_view(self.data@)),
    {
        let ghost es = entries_view(self.data@);
        let mut out: Vec<u8> = Vec::new();
        if self.data.len() == 0 {
            out.push(0x7B);
            out.push(0x7D);
            proof {
                assert(out@ =~= json_of_cache(es));
            }
            return out;
        }
        out.push(0x7B);
        push_jchars(&mut out, &self.data[0].0);
        out.push(0x3A);
        push_tx(&mut out, &self.data[0].1);
        let ghost base = out@;
        let mut j: usize = 1;
        proof {
            assert(es[0] == (self.data@[0].0@, self.data@[0].1@));
            assert(base =~= seq![0x7Bu8] + jentry(es[0]));
            assert(base + jentries_rest(es.drop_first().take(0)) =~= base);
            assert(es.drop_first().take(0) =~= Seq::<(Seq<char>, TxView)>::empty());
        }
        while j < self.data.len()
            invariant
                1 <= j <= self.data@.len(),
                es == entries_view(self.data@),
                es.len() == self.data@.len(),
                out@ == base + jentries_rest(es.drop_first().take(j - 1)),
            decreases self.data@.len() - j,
        {
            out.push(0x2C);
            push_jchars(&mut out, &self.data[j].0);
            out.push(0x3A);
            push_tx(&mut out, &self.data[j].1);
            proof {
                assert(es[j as int] == (self.data@[j as int].0@, self.data@[j as int].1@));
                lemma_jentries_rest_snoc(es.drop_first(), j - 1);
                assert(es.drop_first()[j - 1] == es[j as int]);
                assert(out@ =~= base + jentries_rest(es.drop_first().take(j as int)));
            }
            j = j + 1;
        }
        out.push(0x7D);
        proof {
            assert(es.drop_first().take(es.len() - 1) =~= es.drop_first());
            assert(out@ =~= json_of_cache(es));
        }
        out
    }
}


/// The position after a fixed literal at `pos`, where it is present.
pub open spec fn after_lit(s: Seq<u8>, pos: int, lit: Seq<u8>) -> Option<int> {
    if starts_with(s, pos, lit) {
        Some(pos + lit.len())
    } else {
        None
    }
}

/// A JSON string at `pos`: an opening quote, a body, and the closing quote,
/// with the content read back as characters.
pub open spec fn parse_jchars_at(s: Seq<u8>, pos: int) -> Option<(Seq<char>, int)> {
    if 0 <= pos < s.len() && s[pos] == 0x22 {
        match parse_string_body(s, pos + 1) {
            Some((b, e)) => if valid_utf8(b) {
                Some((decode_utf8(b), e))
            } else {
                None
            },
            None => None,
        }
    } else {
        None
    }
}

/// One tag object at `pos`.
pub open spec fn parse_tag_at(s: Seq<u8>, pos: int) -> Option<((Seq<char>, Seq<char>), int)> {
    match after_lit(s, pos, lit_name()) {
        None => None,
        Some(p1) => match parse_jchars_at(s, p1) {
            None => None,
            Some((n, p2)) => match after_lit(s, p2, lit_value()) {
                None => None,
                Some(p3) => match parse_jchars_at(s, p3) {
                    None => None,
                    Some((v, p4)) => match after_lit(s, p4, seq![0x7Du8]) {
                        None => None,
                        Some(p5) => Some(((n, v), p5)),
                    },
                },
            },
        },
    }
}

/// The tags after the first in a tag list, up to and past the closing
/// bracket. Each one consumes bytes, so `fuel` only bounds the recursion.
pub open spec fn parse_tags_rest_at(s: Seq<u8>, pos: int, fuel: nat) -> Option<
    (Seq<(Seq<char>, Seq<char>)>, int),
>
    decreases fuel,
{
    if fuel == 0 {
        None
    } else if !(0 <= pos < s.len()) {
        None
    } else if s[pos] == 0x5D {
        Some((Seq::empty(), pos + 1))
    } else if s[pos] == 0x2C {
        match parse_tag_at(s, pos + 1) {
            None => None,
            Some((t, p)) => match parse_tags_rest_at(s, p, (fuel - 1) as nat) {
                None => None,
                Some((ts, e)) => Some((seq![t] + ts, e)),
            },
        }
    } else {
        None
    }
}

/// A whole JSON tag list at `pos`.
pub open spec fn parse_jtags_at(s: Seq<u8>, pos: int) -> Option<
    (Seq<(Seq<char>, Seq<char>)>, int),
> {
    if !(0 <= pos < s.len()) || s[pos] != 0x5B {
        None
    } else if pos + 1 < s.len() && s[pos + 1] == 0x5D {
        Some((Seq::empty(), pos + 2))
    } else {
        match parse_tag_at(s, pos + 1) {
            None => None,
            Some((t, p)) => match parse_tags_rest_at(s, p, s.len() + 1) {
                None => None,
                Some((ts, e)) => Some((seq![t] + ts, e)),
            },
        }
    }
}

/// One transaction record at `pos`, fields in the written order.
#[verifier::opaque]
pub open spec fn parse_tx_at(s: Seq<u8>, pos: int) -> Option<(TxView, int)> {
    match after_lit(s, pos, lit_format()) {
        None => None,
        Some(p0) => match parse_decimal(s, p0) {
            None => None,
            Some((fv, p1)) => if fv > 255 {
                None
            } else {
                match after_lit(s, p1, lit_id()) {
                    None => None,
                    Some(p2) => match parse_jchars_at(s, p2) {
                        None => None,
                        Some((id, p3)) => match after_lit(s, p3, lit_last_tx()) {
                            None => None,
                            Some(p4) => match parse_jchars_at(s, p4) {
                                None => None,
                                Some((last_tx, p5)) => match after_lit(s, p5, lit_owner()) {
                                    None => None,
                                    Some(p6) => match parse_jchars_at(s, p6) {
                                        None => None,
                                        Some((owner, p7)) => match after_lit(s, p7, lit_tags()) {
                                            None => None,
                                            Some(p8) => match parse_jtags_at(s, p8) {
                                                None => None,
                                                Some((tags, p9)) => parse_tx_tail_at(
                                                    s,
                                                    p9,
                                                    fv as u8,
                                                    id,
                                                    last_tx,
                                                    owner,
                                                    tags,
                                                ),
                                            },
                                        },
                                    },
                                },
                            },
                        },
                    },
                }
            },
        },
    }
}

/// The string fields that close a transaction record.
#[verifier::opaque]
pub open spec fn parse_tx_tail_at(
    s: Seq<u8>,
    pos: int,
    format: u8,
    id: Seq<char>,
    last_tx: Seq<char>,
    owner: Seq<char>,
    tags: Seq<(Seq<char>, Seq<char>)>,
) -> Option<(TxView, int)> {
    match after_lit(s, pos, lit_target()) {
        None => None,
        Some(p0) => match parse_jchars_at(s, p0) {
            None => None,
            Some((target, p1)) => match after_lit(s, p1, lit_quantity()) {
                None => None,
                Some(p2) => match parse_jchars_at(s, p2) {
                    None => None,
                    Some((quantity, p3)) => match after_lit(s, p3, lit_data()) {
                        None => None,
                        Some(p4) => match parse_jchars_at(s, p4) {
                            None => None,
                            Some((data, p5)) => match after_lit(s, p5, lit_data_root()) {
                                None => None,
                                Some(p6) => match parse_jchars_at(s, p6) {
                                    None => None,
                                    Some((data_root, p7)) => match after_lit(
                                        s,
                                        p7,
                                        lit_data_size(),
                                    ) {
                                        None => None,
                                        Some(p8) => match parse_jchars_at(s, p8) {
                                            None => None,
                                            Some((data_size, p9)) => match after_lit(
                                                s,
                                                p9,
                                                lit_reward(),
                                            ) {
                                                None => None,
                                                Some(p10) => match parse_jchars_at(s, p10) {
                                                    None => None,
                                                    Some((reward, p11)) => match after_lit(
                                                        s,
                                                        p11,
                                                        lit_signature(),
                                                    ) {
                                                        None => None,
                                                        Some(p12) => match parse_jchars_at(
                                                            s,
                                                            p12,
                                                        ) {
                                                            None => None,
                                                            Some((signature, p13)) => match
                                                                after_lit(s, p13, seq![0x7Du8]) {
                                                                None => None,
                                                                Some(p14) => Some(
                                                                    (
                                                                        TxView {
                                                                            format,
                                                                            id,
                                                                            last_tx,
                                                                            owner,
                                                                            tags,
                                                                            target,
                                                                            quantity,
                                                                            data,
                                                                            data_root,
                                                                            data_size,
                                                                            reward,
                                                                            signature,
                                                                        },
                                                                        p14,
                                                                    ),
                                                                ),
                                                            },
                                                        },
                                                    },
                                                },
                                            },
                                        },
                                    },
                                },
                            },
                        },
                    },
                },
            },
        },
    }
}

/// The entries after the first, up to and past the closing brace.
pub open spec fn parse_entries_rest_at(s: Seq<u8>, pos: int, fuel: nat) -> Option<
    (Seq<(Seq<char>, TxView)>, int),
>
    decreases fuel,
{
    if fuel == 0 {
        None
    } else if !(0 <= pos < s.len()) {
        None
    } else if s[pos] == 0x7D {
        Some((Seq::empty(), pos + 1))
    } else if s[pos] == 0x2C {
        match parse_jchars_at(s, pos + 1) {
            None => None,
            Some((k, p1)) => match after_lit(s, p1, seq![0x3Au8]) {
                None => None,
                Some(p2) => match parse_tx_at(s, p2) {
                    None => None,
                    Some((t, p3)) => match parse_entries_rest_at(s, p3, (fuel - 1) as nat) {
                        None => None,
                        Some((es, e)) => Some((seq![(k, t)] + es, e)),
                    },
                },
            },
        }
    } else {
        None
    }
}

/// What a whole cache file holds: the entries, with nothing after the
/// closing brace.
pub open spec fn parse_cache_bytes(s: Seq<u8>) -> Option<Seq<(Seq<char>, TxView)>> {
    if s.len() < 1 || s[0] != 0x7B {
        None
    } else if 1 < s.len() && s[1] == 0x7D {
        if s.len() == 2 {
            Some(Seq::empty())
        } else {
            None
        }
    } else {
        match parse_jchars_at(s, 1) {
            None => None,
            Some((k, p1)) => match after_lit(s, p1, seq![0x3Au8]) {
                None => None,
                Some(p2) => match parse_tx_at(s, p2) {
                    None => None,
                    Some((t, p3)) => match parse_entries_rest_at(s, p3, s.len() + 1) {
                        None => None,
                        Some((es, e)) => if e == s.len() {
                            Some(seq![(k, t)] + es)
                        } else {
                            None
                        },
                    },
                },
            },
        }
    }
}

fn parse_jchars_exec(s: &[u8], pos: usize) -> (r: Option<(String, usize)>)
    ensures
        match r {
            Some((v, end)) => parse_jchars_at(s@, pos as int) == Some((v@, end as int)) && pos
                < end <= s@.len(),
            None => parse_jchars_at(s@, pos as int) is None,
        },
{
    if pos >= s.len() || s[pos] != 0x22 {
        return None;
    }
    let (bytes, end) = match parse_string_at(s, pos + 1) {
        Some(x) => x,
        None => {
            return None;
        },
    };
    match string_from_utf8(bytes) {
        Some(st) => Some((st, end)),
        None => None,
    }
}

fn parse_tag_exec(s: &[u8], pos: usize) -> (r: Option<((String, String), usize)>)
    ensures
        match r {
            Some((t, end)) => parse_tag_at(s@, pos as int) == Some(((t.0@, t.1@), end as int))
                && pos < end <= s@.len(),
            None => parse_tag_at(s@, pos as int) is None,
        },
{
    let ln: Vec<u8> = vec![0x7B, 0x22, 0x6E, 0x61, 0x6D, 0x65, 0x22, 0x3A];
    let lv: Vec<u8> = vec![0x2C, 0x22, 0x76, 0x61, 0x6C, 0x75, 0x65, 0x22, 0x3A];
    let lc: Vec<u8> = vec![0x7D];
    proof {
        assert(ln@ =~= lit_name());
        assert(lv@ =~= lit_value());
        assert(lc@ =~= seq![0x7Du8]);
    }
    let p1 = match expect_lit(s, pos, ln.as_slice()) {
        Some(p) => p,
        None => {
            return None;
        },
    };
    let (n, p2) = match parse_jchars_exec(s, p1) {
        Some(x) => x,
        None => {
            return None;
        },
    };
    let p3 = match expect_lit(s, p2, lv.as_slice()) {
        Some(p) => p,
        None => {
            return None;
        },
    };
    let (v, p4) = match parse_jchars_exec(s, p3) {
        Some(x) => x,
        None => {
            return None;
        },
    };
    let p5 = match expect_lit(s, p4, lc.as_slice()) {
        Some(p) => p,
        None => {
            return None;
        },
    };
    Some(((n, v), p5))
}

spec fn tags_cont(
    out: Seq<(Seq<char>, Seq<char>)>,
    o: Option<(Seq<(Seq<char>, Seq<char>)>, int)>,
) -> Option<(Seq<(Seq<char>, Seq<char>)>, int)> {
    match o {
        Some((ts, e)) => Some((out + ts, e)),
        None => None,
    }
}

fn parse_jtags_exec(s: &[u8], pos: usize) -> (r: Option<(Base64Tags, usize)>)
    ensures
        match r {
            Some((tags, end)) => parse_jtags_at(s@, pos as int) == Some((tags@, end as int))
                && pos < end <= s@.len(),
            None => parse_jtags_at(s@, pos as int) is None,
        },
{
    if pos >= s.len() || s[pos] != 0x5B {
        return None;
    }
    if pos + 1 < s.len() && s[pos + 1] == 0x5D {
        let tags = Base64Tags(Vec::new());
        proof {
            assert(tags@ =~= Seq::<(Seq<char>, Seq<char>)>::empty());
        }
        return Some((tags, pos + 2));
    }
    let (t0, mut p) = match parse_tag_exec(s, pos + 1) {
        Some(x) => x,
        None => {
            return None;
        },
    };
    let mut out: Vec<Tag<Base64>> = Vec::new();
    out.push(Tag { name: Base64(t0.0), value: Base64(t0.1) });
    let ghost first = tags_seq_view(out@)[0];
    let ghost fuel0: nat = s@.len() + 1;
    let ghost mut fuel: nat = fuel0;
    proof {
        assert(tags_seq_view(out@) =~= seq![first]);
    }
    loop
        invariant
            pos < p <= s@.len(),
            fuel0 == s@.len() + 1,
            fuel >= fuel0 - p,
            fuel >= 1,
            out@.len() >= 1,
            tags_seq_view(out@)[0] == first,
            (match parse_tags_rest_at(s@, p as int, fuel) {
                Some((ts, e)) => parse_jtags_at(s@, pos as int) == Some(
                    (tags_seq_view(out@) + ts, e),
                ),
                None => parse_jtags_at(s@, pos as int) is None,
            }),
        decreases fuel,
    {
        if p >= s.len() {
            return None;
        }
        if s[p] == 0x5D {
            let tags = Base64Tags(out);
            proof {
                assert(tags@ + Seq::<(Seq<char>, Seq<char>)>::empty() =~= tags@);
            }
            return Some((tags, p + 1));
        }
        if s[p] != 0x2C {
            return None;
        }
        let (t, p2) = match parse_tag_exec(s, p + 1) {
            Some(x) => x,
            None => {
                return None;
            },
        };
        let ghost prev = out@;
        out.push(Tag { name: Base64(t.0), value: Base64(t.1) });
        proof {
            let tv = (t.0@, t.1@);
            assert(tags_seq_view(out@) =~= tags_seq_view(prev) + seq![tv]);
            match parse_tags_rest_at(s@, p2 as int, (fuel - 1) as nat) {
                Some((ts, e)) => {
                    assert(parse_tags_rest_at(s@, p as int, fuel) == Some((seq![tv] + ts, e)));
                    assert(tags_seq_view(prev) + (seq![tv] + ts) =~= (tags_seq_view(prev) + seq![
                        tv,
                    ]) + ts);
                },
                None => {
                    assert(parse_tags_rest_at(s@, p as int, fuel) is None);
                },
            }
            fuel = (fuel - 1) as nat;
        }
        p = p2;
    }
}

fn parse_tx_exec(s: &[u8], pos: usize) -> (r: Option<(BundleTx, usize)>)
    ensures
        match r {
            Some((tx, end)) => parse_tx_at(s@, pos as int) == Some((tx@, end as int)) && pos < end
                <= s@.len(),
            None => parse_tx_at(s@, pos as int) is None,
        },
{
    proof {
        reveal(parse_tx_at);
    }
    let l_format: Vec<u8> = vec![0x7B, 0x22, 0x66, 0x6F, 0x72, 0x6D, 0x61, 0x74, 0x22, 0x3A];
    let l_id: Vec<u8> = vec![0x2C, 0x22, 0x69, 0x64, 0x22, 0x3A];
    let l_last_tx: Vec<u8> = vec![
        0x2C,
        0x22,
        0x6C,
        0x61,
        0x73,
        0x74,
        0x5F,
        0x74,
        0x78,
        0x22,
        0x3A,
    ];
    let l_owner: Vec<u8> = vec![0x2C, 0x22, 0x6F, 0x77, 0x6E, 0x65, 0x72, 0x22, 0x3A];
    let l_tags: Vec<u8> = vec![0x2C, 0x22, 0x74, 0x61, 0x67, 0x73, 0x22, 0x3A];
    proof {
        assert(l_format@ =~= lit_format());
        assert(l_id@ =~= lit_id());
        assert(l_last_tx@ =~= lit_last_tx());
        assert(l_owner@ =~= lit_owner());
        assert(l_tags@ =~= lit_tags());
    }
    let p0 = match expect_lit(s, pos, l_format.as_slice()) {
        Some(p) => p,
        None => {
            return None;
        },
    };
    let (fv, p1) = match parse_decimal_at(s, p0) {
        Some(x) => x,
        None => {
            return None;
        },
    };
    if fv > 255 {
        return None;
    }
    let p2 = match expect_lit(s, p1, l_id.as_slice()) {
        Some(p) => p,
        None => {
            return None;
        },
    };
    let (id, p3) = match parse_jchars_exec(s, p2) {
        Some(x) => x,
        None => {
            return None;
        },
    };
    let p4 = match expect_lit(s, p3, l_last_tx.as_slice()) {
        Some(p) => p,
        None => {
            return None;
        },
    };
    let (last_tx, p5) = match parse_jchars_exec(s, p4) {
        Some(x) => x,
        None => {
            return None;
        },
    };
    let p6 = match expect_lit(s, p5, l_owner.as_slice()) {
        Some(p) => p,
        None => {
            return None;
        },
    };
    let (owner, p7) = match parse_jchars_exec(s, p6) {
        Some(x) => x,
        None => {
            return None;
        },
    };
    let p8 = match expect_lit(s, p7, l_tags.as_slice()) {
        Some(p) => p,
        None => {
            return None;
        },
    };
    let (tags, p9) = match parse_jtags_exec(s, p8) {
        Some(x) => x,
        None => {
            return None;
        },
    };
    parse_tx_tail_exec(s, p9, fv as u8, id, last_tx, owner, tags)
}

fn parse_tx_tail_exec(
    s: &[u8],
    pos: usize,
    format: u8,
    id: String,
    last_tx: String,
    owner: String,
    tags: Base64Tags,
) -> (r: Option<(BundleTx, usize)>)
    ensures
        match r {
            Some((tx, end)) => parse_tx_tail_at(
                s@,
                pos as int,
                format,
                id@,
                last_tx@,
                owner@,
                tags@,
            ) == Some((tx@, end as int)) && pos < end <= s@.len(),
            None => parse_tx_tail_at(s@, pos as int, format, id@, last_tx@, owner@, tags@)
                is None,
        },
{
    proof {
        reveal(parse_tx_tail_at);
    }
    let l_target: Vec<u8> = vec![0x2C, 0x22, 0x74, 0x61, 0x72, 0x67, 0x65, 0x74, 0x22, 0x3A];
    let l_quantity: Vec<u8> = vec![
        0x2C,
        0x22,
        0x71,
        0x75,
        0x61,
        0x6E,
        0x74,
        0x69,
        0x74,
        0x79,
        0x22,
        0x3A,
    ];
    let l_data: Vec<u8> = vec![0x2C, 0x22, 0x64, 0x61, 0x74, 0x61, 0x22, 0x3A];
    let l_data_root: Vec<u8> = vec![
        0x2C,
        0x22,
        0x64,
        0x61,
        0x74,
        0x61,
        0x5F,
        0x72,
        0x6F,
        0x6F,
        0x74,
        0x22,
        0x3A,
    ];
    let l_data_size: Vec<u8> = vec![
        0x2C,
        0x22,
        0x64,
        0x61,
        0x74,
        0x61,
        0x5F,
        0x73,
        0x69,
        0x7A,
        0x65,
        0x22,
        0x3A,
    ];
    let l_reward: Vec<u8> = vec![0x2C, 0x22, 0x72, 0x65, 0x77, 0x61, 0x72, 0x64, 0x22, 0x3A];
    let l_signature: Vec<u8> = vec![
        0x2C,
        0x22,
        0x73,
        0x69,
        0x67,
        0x6E,
        0x61,
        0x74,
        0x75,
        0x72,
        0x65,
        0x22,
        0x3A,
    ];
    let l_close: Vec<u8> = vec![0x7D];
    proof {
        assert(l_target@ =~= lit_target());
        assert(l_quantity@ =~= lit_quantity());
        assert(l_data@ =~= lit_data());
        assert(l_data_root@ =~= lit_data_root());
        assert(l_data_size@ =~= lit_data_size());
        assert(l_reward@ =~= lit_reward());
        assert(l_signature@ =~= lit_signature());
        assert(l_close@ =~= seq![0x7Du8]);
    }
    let p0 = match expect_lit(s, pos, l_target.as_slice()) {
        Some(p) => p,
        None => {
            return None;
        },
    };
    let (target, p1) = match parse_jchars_exec(s, p0) {
        Some(x) => x,
        None => {
            return None;
        },
    };
    let p2 = match expect_lit(s, p1, l_quantity.as_slice()) {
        Some(p) => p,
        None => {
            return None;
        },
    };
    let (quantity, p3) = match parse_jchars_exec(s, p2) {
        Some(x) => x,
        None => {
            return None;
        },
    };
    let p4 = match expect_lit(s, p3, l_data.as_slice()) {
        Some(p) => p,
        None => {
            return None;
        },
    };
    let (data, p5) = match parse_jchars_exec(s, p4) {
        Some(x) => x,
        None => {
            return None;
        },
    };
    let p6 = match expect_lit(s, p5, l_data_root.as_slice()) {
        Some(p) => p,
        None => {
            return None;
        },
    };
    let (data_root, p7) = match parse_jchars_exec(s, p6) {
        Some(x) => x,
        None => {
            return None;
        },
    };
    let p8 = match expect_lit(s, p7, l_data_size.as_slice()) {
        Some(p) => p,
        None => {
            return None;
        },
    };
    let (data_size, p9) = match parse_jchars_exec(s, p8) {
        Some(x) => x,
        None => {
            return None;
        },
    };
    let p10 = match expect_lit(s, p9, l_reward.as_slice()) {
        Some(p) => p,
        None => {
            return None;
        },
    };
    let (reward, p11) = match parse_jchars_exec(s, p10) {
        Some(x) => x,
        None => {
            return None;
        },
    };
    let p12 = match expect_lit(s, p11, l_signature.as_slice()) {
        Some(p) => p,
        None => {
            return None;
        },
    };
    let (signature, p13) = match parse_jchars_exec(s, p12) {
        Some(x) => x,
        None => {
            return None;
        },
    };
    let p14 = match expect_lit(s, p13, l_close.as_slice()) {
        Some(p) => p,
        None => {
            return None;
        },
    };
    let tx = BundleTx {
        format,
        id,
        last_tx,
        owner,
        tags,
        target,
        quantity,
        data,
        data_root,
        data_size,
        reward,
        signature,
    };
    Some((tx, p14))
}

impl Cache<BundleTx> {
    /// Read a cache back from its JSON bytes; `None` exactly where the bytes
    /// are not a written cache.
    pub fn load_bytes(file: String, bytes: &[u8]) -> (r: Option<Cache<BundleTx>>)
        ensures
            match r {
                Some(c) => parse_cache_bytes(bytes@) == Some(entries_view(c.data@)) && c.file@
                    == file@,
                None => parse_cache_bytes(bytes@) is None,
            },
    {
        let s = bytes;
        if s.len() < 1 || s[0] != 0x7B {
            return None;
        }
        if 1 < s.len() && s[1] == 0x7D {
            if s.len() == 2 {
                let c = Cache { data: Vec::new(), file };
                proof {
                    assert(entries_view(c.data@) =~= Seq::<(Seq<char>, TxView)>::empty());
                }
                return Some(c);
            }
            return None;
        }
        let (k0, p1) = match parse_jchars_exec(s, 1) {
            Some(x) => x,
            None => {
                return None;
            },
        };
        let l_colon: Vec<u8> = vec![0x3A];
        proof {
            assert(l_colon@ =~= seq![0x3Au8]);
        }
        let p2 = match expect_lit(s, p1, l_colon.as_slice()) {
            Some(p) => p,
            None => {
                return None;
            },
        };
        let (t0, mut p) = match parse_tx_exec(s, p2) {
            Some(x) => x,
            None => {
                return None;
            },
        };
        let mut out: Vec<(String, BundleTx)> = Vec::new();
        out.push((k0, t0));
        let ghost fuel0: nat = s@.len() + 1;
        let ghost mut fuel: nat = fuel0;
        proof {
            assert(entries_view(out@) =~= seq![(k0@, t0@)]);
        }
        loop
            invariant
                s@ == bytes@,
                0 < p <= s@.len(),
                fuel0 == s@.len() + 1,
                fuel >= fuel0 - p,
                fuel >= 1,
                (match parse_entries_rest_at(s@, p as int, fuel) {
                    Some((es, e)) => parse_cache_bytes(s@) == (if e == s@.len() {
                        Some(entries_view(out@) + es)
                    } else {
                        None::<Seq<(Seq<char>, TxView)>>
                    }),
                    None => parse_cache_bytes(s@) is None,
                }),
            decreases fuel,
        {
            if p >= s.len() {
                return None;
            }
            if s[p] == 0x7D {
                if p + 1 == s.len() {
                    let c = Cache { data: out, file };
                    proof {
                        assert(entries_view(c.data@) + Seq::<(Seq<char>, TxView)>::empty()
                            =~= entries_view(c.data@));
                    }
                    return Some(c);
                }
                return None;
            }
            if s[p] != 0x2C {
                return None;
            }
            let (k, p1b) = match parse_jchars_exec(s, p + 1) {
                Some(x) => x,
                None => {
                    return None;
                },
            };
            let lc: Vec<u8> = vec![0x3A];
            proof {
                assert(lc@ =~= seq![0x3Au8]);
            }
            let p2b = match expect_lit(s, p1b, lc.as_slice()) {
                Some(pp) => pp,
                None => {
                    return None;
                },
            };
            let (t, p3b) = match parse_tx_exec(s, p2b) {
                Some(x) => x,
                None => {
                    return None;
                },
            };
            let ghost prev = out@;
            out.push((k, t));
            proof {
                let ev = (k@, t@);
                assert(entries_view(out@) =~= entries_view(prev) + seq![ev]);
                match parse_entries_rest_at(s@, p3b as int, (fuel - 1) as nat) {
                    Some((es, e)) => {
                        assert(parse_entries_rest_at(s@, p as int, fuel) == Some(
                            (seq![ev] + es, e),
                        ));
                        assert(entries_view(prev) + (seq![ev] + es) =~= (entries_view(prev)
                            + seq![ev]) + es);
                    },
                    None => {
                        assert(parse_entries_rest_at(s@, p as int, fuel) is None);
                    },
                }
                fuel = (fuel - 1) as nat;
            }
            p = p3b;
        }
    }
}


/// A concatenation found at `pos` splits into its parts.
proof fn lemma_sw_split(s: Seq<u8>, pos: int, a: Seq<u8>, b: Seq<u8>)
    requires
        starts_with(s, pos, a + b),
    ensures
        starts_with(s, pos, a),
        starts_with(s, pos + a.len(), b),
{
    let w = a + b;
    assert forall|j: int| 0 <= j < a.len() implies s.subrange(pos, pos + a.len())[j] == a[j] by {
        assert(s.subrange(pos, pos + w.len())[j] == w[j]);
        assert(s[pos + j] == w[j]);
    }
    assert(s.subrange(pos, pos + a.len()) =~= a);
    assert forall|j: int| 0 <= j < b.len() implies s.subrange(
        pos + a.len(),
        pos + a.len() + b.len(),
    )[j] == b[j] by {
        assert(s.subrange(pos, pos + w.len())[a.len() + j] == w[a.len() + j]);
        assert(s[pos + a.len() + j] == w[a.len() + j]);
    }
    assert(s.subrange(pos + a.len(), pos + a.len() + b.len()) =~= b);
}

/// Reading a written string value gives the characters back.
proof fn lemma_rt_jchars(s: Seq<u8>, pos: int, x: Seq<char>)
    requires
        starts_with(s, pos, jchars(x)),
    ensures
        parse_jchars_at(s, pos) == Some((x, pos + jchars(x).len())),
{
    let enc = encode_utf8(x);
    assert(jchars(x) =~= seq![0x22u8] + (esc(enc) + seq![0x22u8]));
    lemma_sw_split(s, pos, seq![0x22u8], esc(enc) + seq![0x22u8]);
    assert(s.subrange(pos, pos + 1)[0] == s[pos + 0]);
    assert(s[pos] == 0x22);
    assert(s.subrange(pos + 1, pos + 1 + esc(enc).len() + 1) == esc(enc) + seq![0x22u8]);
    lemma_parse_esc(s, pos + 1, enc);
    vstd::utf8::encode_utf8_valid_utf8(x);
    vstd::utf8::encode_utf8_decode_utf8(x);
}

/// Reading a written tag gives it back.
proof fn lemma_rt_tag(s: Seq<u8>, pos: int, t: (Seq<char>, Seq<char>))
    requires
        starts_with(s, pos, jtag(t)),
    ensures
        parse_tag_at(s, pos) == Some((t, pos + jtag(t).len())),
{
    let a1 = lit_name();
    let a2 = a1 + jchars(t.0);
    let a3 = a2 + lit_value();
    let a4 = a3 + jchars(t.1);
    lemma_sw_split(s, pos, a4, seq![0x7Du8]);
    lemma_sw_split(s, pos, a3, jchars(t.1));
    lemma_sw_split(s, pos, a2, lit_value());
    lemma_sw_split(s, pos, a1, jchars(t.0));
    lemma_rt_jchars(s, pos + a1.len(), t.0);
    lemma_rt_jchars(s, pos + a3.len(), t.1);
}

proof fn lemma_jtags_rest_len(ts: Seq<(Seq<char>, Seq<char>)>)
    ensures
        jtags_rest(ts).len() >= ts.len(),
    decreases ts.len(),
{
    if ts.len() > 0 {
        lemma_jtags_rest_len(ts.drop_first());
    }
}

/// Reading written tags after the first, up to the closing bracket.
proof fn lemma_rt_tags_rest(s: Seq<u8>, pos: int, ts: Seq<(Seq<char>, Seq<char>)>, fuel: nat)
    requires
        starts_with(s, pos, jtags_rest(ts) + seq![0x5Du8]),
        fuel >= ts.len() + 1,
    ensures
        parse_tags_rest_at(s, pos, fuel) == Some((ts, pos + jtags_rest(ts).len() + 1)),
    decreases ts.len(),
{
    if ts.len() == 0 {
        assert(jtags_rest(ts) + seq![0x5Du8] =~= seq![0x5Du8]);
        assert(s.subrange(pos, pos + 1)[0] == s[pos + 0]);
        assert(s[pos] == 0x5D);
        assert(parse_tags_rest_at(s, pos, fuel) == Some(
            (Seq::<(Seq<char>, Seq<char>)>::empty(), pos + 1),
        ));
        assert(Seq::<(Seq<char>, Seq<char>)>::empty() =~= ts);
    } else {
        assert(jtags_rest(ts) + seq![0x5Du8] =~= seq![0x2Cu8] + (jtag(ts[0]) + (jtags_rest(
            ts.drop_first(),
        ) + seq![0x5Du8])));
        lemma_sw_split(s, pos, seq![0x2Cu8], jtag(ts[0]) + (jtags_rest(ts.drop_first()) + seq![
            0x5Du8,
        ]));
        assert(s.subrange(pos, pos + 1)[0] == s[pos + 0]);
        assert(s[pos] == 0x2C);
        lemma_sw_split(
            s,
            pos + 1,
            jtag(ts[0]),
            jtags_rest(ts.drop_first()) + seq![0x5Du8],
        );
        lemma_rt_tag(s, pos + 1, ts[0]);
        lemma_rt_tags_rest(s, pos + 1 + jtag(ts[0]).len(), ts.drop_first(), (fuel - 1) as nat);
        assert(seq![ts[0]] + ts.drop_first() =~= ts);
    }
}

/// Reading a written tag list gives it back.
proof fn lemma_rt_jtags(s: Seq<u8>, pos: int, ts: Seq<(Seq<char>, Seq<char>)>)
    requires
        starts_with(s, pos, jtags(ts)),
    ensures
        parse_jtags_at(s, pos) == Some((ts, pos + jtags(ts).len())),
{
    if ts.len() == 0 {
        assert(s.subrange(pos, pos + 2)[0] == s[pos + 0]);
        assert(s.subrange(pos, pos + 2)[1] == s[pos + 1]);
        assert(s[pos] == 0x5B && s[pos + 1] == 0x5D);
        assert(Seq::<(Seq<char>, Seq<char>)>::empty() =~= ts);
    } else {
        assert(jtags(ts) =~= seq![0x5Bu8] + (jtag(ts[0]) + (jtags_rest(ts.drop_first()) + seq![
            0x5Du8,
        ])));
        lemma_sw_split(s, pos, seq![0x5Bu8], jtag(ts[0]) + (jtags_rest(ts.drop_first()) + seq![
            0x5Du8,
        ]));
        assert(s.subrange(pos, pos + 1)[0] == s[pos + 0]);
        assert(s[pos] == 0x5B);
        lemma_sw_split(
            s,
            pos + 1,
            jtag(ts[0]),
            jtags_rest(ts.drop_first()) + seq![0x5Du8],
        );
        // The byte after the bracket opens a tag object, not the closing bracket.
        assert(s.subrange(pos + 1, pos + 1 + jtag(ts[0]).len())[0] == s[pos + 1]);
        assert(jtag(ts[0])[0] == 0x7B);
        assert(s[pos + 1] == 0x7B);
        lemma_rt_tag(s, pos + 1, ts[0]);
        lemma_jtags_rest_len(ts.drop_first());
        lemma_rt_tags_rest(
            s,
            pos + 1 + jtag(ts[0]).len(),
            ts.drop_first(),
            s.len() + 1,
        );
        assert(seq![ts[0]] + ts.drop_first() =~= ts);
    }
}

/// Reading the written closing fields of a record gives the record back.
#[verifier::rlimit(100)]
#[verifier::spinoff_prover]
proof fn lemma_rt_tx_tail(s: Seq<u8>, pos: int, t: TxView)
    requires
        starts_with(s, pos, json_tx_tail(t)),
    ensures
        parse_tx_tail_at(s, pos, t.format, t.id, t.last_tx, t.owner, t.tags) == Some(
            (t, pos + json_tx_tail(t).len()),
        ),
{
    reveal(json_tx_tail);
    reveal(parse_tx_tail_at);
    let a1 = lit_target();
    let a2 = a1 + jchars(t.target);
    let a3 = a2 + lit_quantity();
    let a4 = a3 + jchars(t.quantity);
    let a5 = a4 + lit_data();
    let a6 = a5 + jchars(t.data);
    let a7 = a6 + lit_data_root();
    let a8 = a7 + jchars(t.data_root);
    let a9 = a8 + lit_data_size();
    let a10 = a9 + jchars(t.data_size);
    let a11 = a10 + lit_reward();
    let a12 = a11 + jchars(t.reward);
    let a13 = a12 + lit_signature();
    let a14 = a13 + jchars(t.signature);
    lemma_sw_split(s, pos, a14, seq![0x7Du8]);
    lemma_sw_split(s, pos, a13, jchars(t.signature));
    lemma_sw_split(s, pos, a12, lit_signature());
    lemma_sw_split(s, pos, a11, jchars(t.reward));
    lemma_sw_split(s, pos, a10, lit_reward());
    lemma_sw_split(s, pos, a9, jchars(t.data_size));
    lemma_sw_split(s, pos, a8, lit_data_size());
    lemma_sw_split(s, pos, a7, jchars(t.data_root));
    lemma_sw_split(s, pos, a6, lit_data_root());
    lemma_sw_split(s, pos, a5, jchars(t.data));
    lemma_sw_split(s, pos, a4, lit_data());
    lemma_sw_split(s, pos, a3, jchars(t.quantity));
    lemma_sw_split(s, pos, a2, lit_quantity());
    lemma_sw_split(s, pos, a1, jchars(t.target));
    lemma_rt_jchars(s, pos + a1.len(), t.target);
    lemma_rt_jchars(s, pos + a3.len(), t.quantity);
    lemma_rt_jchars(s, pos + a5.len(), t.data);
    lemma_rt_jchars(s, pos + a7.len(), t.data_root);
    lemma_rt_jchars(s, pos + a9.len(), t.data_size);
    lemma_rt_jchars(s, pos + a11.len(), t.reward);
    lemma_rt_jchars(s, pos + a13.len(), t.signature);
}

/// Reading a written record gives it back.
#[verifier::rlimit(100)]
#[verifier::spinoff_prover]
proof fn lemma_rt_tx(s: Seq<u8>, pos: int, t: TxView)
    requires
        starts_with(s, pos, json_of_tx(t)),
    ensures
        parse_tx_at(s, pos) == Some((t, pos + json_of_tx(t).len())),
{
    reveal(json_of_tx);
    reveal(parse_tx_at);
    let a1 = lit_format();
    let a2 = a1 + dec_digits(t.format as nat);
    let a3 = a2 + lit_id();
    let a4 = a3 + jchars(t.id);
    let a5 = a4 + lit_last_tx();
    let a6 = a5 + jchars(t.last_tx);
    let a7 = a6 + lit_owner();
    let a8 = a7 + jchars(t.owner);
    let a9 = a8 + lit_tags();
    let a10 = a9 + jtags(t.tags);
    lemma_sw_split(s, pos, a10, json_tx_tail(t));
    lemma_sw_split(s, pos, a9, jtags(t.tags));
    lemma_sw_split(s, pos, a8, lit_tags());
    lemma_sw_split(s, pos, a7, jchars(t.owner));
    lemma_sw_split(s, pos, a6, lit_owner());
    lemma_sw_split(s, pos, a5, jchars(t.last_tx));
    lemma_sw_split(s, pos, a4, lit_last_tx());
    lemma_sw_split(s, pos, a3, jchars(t.id));
    lemma_sw_split(s, pos, a2, lit_id());
    lemma_sw_split(s, pos, a1, dec_digits(t.format as nat));
    // The digit run ends at the comma of the next key.
    assert(s.subrange(pos + a2.len(), pos + a2.len() + lit_id().len())[0] == s[pos + a2.len() + 0]);
    assert(s[pos + a2.len()] == 0x2C);
    lemma_parse_decimal(s, pos + a1.len(), t.format as u64);
    lemma_rt_jchars(s, pos + a3.len(), t.id);
    lemma_rt_jchars(s, pos + a5.len(), t.last_tx);
    lemma_rt_jchars(s, pos + a7.len(), t.owner);
    lemma_rt_jtags(s, pos + a9.len(), t.tags);
    lemma_rt_tx_tail(s, pos + a10.len(), t);
}

proof fn lemma_jentries_rest_len(es: Seq<(Seq<char>, TxView)>)
    ensures
        jentries_rest(es).len() >= es.len(),
    decreases es.len(),
{
    if es.len() > 0 {
        lemma_jentries_rest_len(es.drop_first());
    }
}

/// Reading written entries after the first, up to the closing brace.
proof fn lemma_rt_entries_rest(s: Seq<u8>, pos: int, es: Seq<(Seq<char>, TxView)>, fuel: nat)
    requires
        starts_with(s, pos, jentries_rest(es) + seq![0x7Du8]),
        fuel >= es.len() + 1,
    ensures
        parse_entries_rest_at(s, pos, fuel) == Some((es, pos + jentries_rest(es).len() + 1)),
    decreases es.len(),
{
    if es.len() == 0 {
        assert(jentries_rest(es) + seq![0x7Du8] =~= seq![0x7Du8]);
        assert(s.subrange(pos, pos + 1)[0] == s[pos + 0]);
        assert(s[pos] == 0x7D);
        assert(parse_entries_rest_at(s, pos, fuel) == Some(
            (Seq::<(Seq<char>, TxView)>::empty(), pos + 1),
        ));
        assert(Seq::<(Seq<char>, TxView)>::empty() =~= es);
    } else {
        let e0 = es[0];
        assert(jentry(e0) =~= jchars(e0.0) + seq![0x3Au8] + json_of_tx(e0.1));
        assert(jentries_rest(es) + seq![0x7Du8] =~= seq![0x2Cu8] + (jchars(e0.0) + (seq![0x3Au8]
            + (json_of_tx(e0.1) + (jentries_rest(es.drop_first()) + seq![0x7Du8])))));
        lemma_sw_split(s, pos, seq![0x2Cu8], jchars(e0.0) + (seq![0x3Au8] + (json_of_tx(e0.1) + (
        jentries_rest(es.drop_first()) + seq![0x7Du8]))));
        assert(s.subrange(pos, pos + 1)[0] == s[pos + 0]);
        assert(s[pos] == 0x2C);
        lemma_sw_split(s, pos + 1, jchars(e0.0), seq![0x3Au8] + (json_of_tx(e0.1) + (
        jentries_rest(es.drop_first()) + seq![0x7Du8])));
        lemma_rt_jchars(s, pos + 1, e0.0);
        let p1 = pos + 1 + jchars(e0.0).len();
        lemma_sw_split(s, p1, seq![0x3Au8], json_of_tx(e0.1) + (jentries_rest(es.drop_first())
            + seq![0x7Du8]));
        let p2 = p1 + 1;
        lemma_sw_split(s, p2, json_of_tx(e0.1), jentries_rest(es.drop_first()) + seq![0x7Du8]);
        lemma_rt_tx(s, p2, e0.1);
        let p3 = p2 + json_of_tx(e0.1).len();
        lemma_rt_entries_rest(s, p3, es.drop_first(), (fuel - 1) as nat);
        assert(seq![e0] + es.drop_first() =~= es);
    }
}

/// The cache round trip: reading back a written cache yields exactly the
/// entries that were written, keys, order and records alike.
#[verifier::rlimit(100)]
#[verifier::spinoff_prover]
pub proof fn lemma_cache_round_trip(es: Seq<(Seq<char>, TxView)>)
    ensures
        parse_cache_bytes(json_of_cache(es)) == Some(es),
{
    let s = json_of_cache(es);
    if es.len() == 0 {
        assert(s =~= seq![0x7Bu8, 0x7Du8]);
        assert(Seq::<(Seq<char>, TxView)>::empty() =~= es);
    } else {
        let e0 = es[0];
        assert(jentry(e0) =~= jchars(e0.0) + seq![0x3Au8] + json_of_tx(e0.1));
        assert(s =~= seq![0x7Bu8] + (jchars(e0.0) + (seq![0x3Au8] + (json_of_tx(e0.1) + (
        jentries_rest(es.drop_first()) + seq![0x7Du8])))));
        assert(starts_with(s, 0, s)) by {
            assert(s.subrange(0, s.len() as int) =~= s);
        }
        lemma_sw_split(s, 0, seq![0x7Bu8], jchars(e0.0) + (seq![0x3Au8] + (json_of_tx(e0.1) + (
        jentries_rest(es.drop_first()) + seq![0x7Du8]))));
        assert(s.subrange(0, 1)[0] == s[0]);
        assert(s[0] == 0x7B);
        lemma_sw_split(s, 1, jchars(e0.0), seq![0x3Au8] + (json_of_tx(e0.1) + (jentries_rest(
            es.drop_first(),
        ) + seq![0x7Du8])));
        // The byte after the brace opens the first key's string.
        assert(s.subrange(1, 1 + jchars(e0.0).len() as int)[0] == s[1]);
        assert(jchars(e0.0)[0] == 0x22);
        assert(s[1] == 0x22);
        lemma_rt_jchars(s, 1, e0.0);
        let p1 = 1 + jchars(e0.0).len() as int;
        lemma_sw_split(s, p1, seq![0x3Au8], json_of_tx(e0.1) + (jentries_rest(es.drop_first())
            + seq![0x7Du8]));
        assert(s.subrange(p1, p1 + 1)[0] == s[p1 + 0]);
        assert(s[p1] == 0x3A);
        let p2 = p1 + 1;
        lemma_sw_split(s, p2, json_of_tx(e0.1), jentries_rest(es.drop_first()) + seq![0x7Du8]);
        lemma_rt_tx(s, p2, e0.1);
        let p3 = p2 + json_of_tx(e0.1).len();
        lemma_jentries_rest_len(es.drop_first());
        lemma_rt_entries_rest(s, p3, es.drop_first(), s.len() + 1);
        assert(p3 + jentries_rest(es.drop_first()).len() + 1 == s.len());
        assert(seq![e0] + es.drop_first() =~= es);
    }
}

} // verus!


