//! Encoding of the key-value flush message handed to the host.
use vstd::prelude::*;

use crate::block::bytes_list_view;

verus! {

/// Protobuf base-128 varint encoding of `v`.
pub open spec fn varint_bytes(v: nat) -> Seq<u8>
    decreases v,
{
    if v < 128 {
        seq![v as u8]
    } else {
        seq![((v % 128) + 128) as u8] + varint_bytes(v / 128)
    }
}

/// Protobuf encoding of a `repeated bytes` field with number `tag` holding `items`:
/// per item, the key (field number, wire type 2), the length, the bytes.
pub open spec fn repeated_bytes_field(tag: nat, items: Seq<Seq<u8>>) -> Seq<u8>
    decreases items.len(),
{
    if items.len() == 0 {
        seq![]
    } else {
        repeated_bytes_field(tag, items.drop_last()) + varint_bytes(tag * 8 + 2) + varint_bytes(
            items.last().len(),
        ) + items.last()
    }
}

/// `prost::encoding::bytes::encode_repeated` into an empty buffer: the protobuf
/// wire encoding of field `tag` holding `values`, in order.
#[verifier::external_body]
fn encode_repeated_bytes(tag: u32, values: &Vec<Vec<u8>>) -> (buf: Vec<u8>)
    requires
        1 <= tag <= 0x1fff_ffff,
    ensures
        buf@ == repeated_bytes_field(tag as nat, bytes_list_view(values@)),
{
    let mut buf: Vec<u8> = Vec::new();
    prost::encoding::bytes::encode_repeated(tag, values.as_slice(), &mut buf);
    buf
}

/// The list of a flush message: keys and values interleaved.
pub open spec fn flush_list(pairs: Seq<(Seq<u8>, Seq<u8>)>) -> Seq<Seq<u8>>
    decreases pairs.len(),
{
    if pairs.len() == 0 {
        seq![]
    } else {
        flush_list(pairs.drop_last()).push(pairs.last().0).push(pairs.last().1)
    }
}

/// The list of a flush message holds, for each pair in order, its key then
/// its value.
pub proof fn lemma_flush_list_layout(pairs: Seq<(Seq<u8>, Seq<u8>)>)
    ensures
        flush_list(pairs).len() == 2 * pairs.len(),
        forall|i: int|
            0 <= i < pairs.len() ==> flush_list(pairs)[2 * i] == (#[trigger] pairs[i]).0
                && flush_list(pairs)[2 * i + 1] == pairs[i].1,
    decreases pairs.len(),
{
    if pairs.len() > 0 {
        let prev = pairs.drop_last();
        lemma_flush_list_layout(prev);
        assert forall|i: int| 0 <= i < pairs.len() implies flush_list(pairs)[2 * i] == (
        #[trigger] pairs[i]).0 && flush_list(pairs)[2 * i + 1] == pairs[i].1 by {
            if i < prev.len() {
                assert(prev[i] == pairs[i]);
            }
        }
    }
}

/// The model of a list of byte pairs.
pub open spec fn byte_pairs_view(v: Seq<(Vec<u8>, Vec<u8>)>) -> Seq<(Seq<u8>, Seq<u8>)> {
    v.map_values(|p: (Vec<u8>, Vec<u8>)| (p.0@, p.1@))
}

/// Encodes the pairs as a `KeyValueFlush` message (`repeated bytes list = 1`,
/// keys and values interleaved).
pub fn encode_flush(pairs: &Vec<(Vec<u8>, Vec<u8>)>) -> (buf: Vec<u8>)
    ensures
        buf@ == repeated_bytes_field(1, flush_list(byte_pairs_view(pairs@))),
{
    let ghost all = byte_pairs_view(pairs@);
    let mut list: Vec<Vec<u8>> = Vec::new();
    let mut i: usize = 0;
    while i < pairs.len()
        invariant
            i <= pairs@.len(),
            all == byte_pairs_view(pairs@),
            bytes_list_view(list@) == flush_list(all.subrange(0, i as int)),
        decreases pairs@.len() - i,
    {
        let key = vstd::slice::slice_to_vec(pairs[i].0.as_slice());
        let value = vstd::slice::slice_to_vec(pairs[i].1.as_slice());
        let ghost before = list@;
        list.push(key);
        list.push(value);
        assert(all.subrange(0, i + 1).drop_last() =~= all.subrange(0, i as int));
        i = i + 1;
        assert(bytes_list_view(list@) =~= flush_list(all.subrange(0, i as int)));
    }
    assert(all.subrange(0, pairs@.len() as int) =~= all);
    encode_repeated_bytes(1, &list)
}

/// The flush message with no pairs, which signals completion with no state
/// changes: it is empty.
pub fn empty_flush_message() -> (buf: Vec<u8>)
    ensures
        buf@ == Seq::<u8>::empty(),
{
    let list: Vec<Vec<u8>> = Vec::new();
    let buf = encode_repeated_bytes(1, &list);
    assert(bytes_list_view(list@) =~= Seq::<Seq<u8>>::empty());
    buf
}

} // verus!
