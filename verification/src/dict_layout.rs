//! How a dictionary bundle is laid out.

use vstd::prelude::*;

use crate::bytes::{law_le_round_trip, le_bytes, lemma_byte_range_values, lemma_le_bytes_len};
use crate::codecs::zstd_dictionary;
use crate::dict::{
    bundle_ids, bundle_slice, bundle_u32, enveloped_dictionary, fat_bundle, packed_dict,
    packed_dicts, BundleView,
};
use crate::error::ErrorView;

verus! {

/// A zstd dictionary in its envelope: the version and the compression level in front of it.
pub open spec fn envelope(level: u32, dictionary: Seq<u8>) -> Seq<u8> {
    le_bytes(1, 4) + le_bytes(level as nat, 4) + dictionary
}

/// A dictionary as a bundle holds it: a magic number, its identifier, the number of the zstd
/// transform, a zero, and its envelope behind the envelope's size.
pub open spec fn dictionary_entry(id: Seq<u8>, level: u32, dictionary: Seq<u8>) -> Seq<u8> {
    let content = envelope(level, dictionary);
    le_bytes(0x4944_ccda, 4) + id + le_bytes(22, 4) + seq![0u8] + le_bytes(content.len(), 4)
        + content
}

/// The first `count` of some lists, put end to end.
pub open spec fn end_to_end(parts: Seq<Seq<u8>>, count: nat) -> Seq<u8>
    decreases count,
{
    if count == 0 {
        Seq::empty()
    } else {
        end_to_end(parts, (count - 1) as nat) + parts[count - 1]
    }
}

/// The entries of some dictionaries.
pub open spec fn entries(ids: Seq<Seq<u8>>, levels: Seq<u32>, dicts: Seq<Seq<u8>>) -> Seq<
    Seq<u8>,
> {
    Seq::new(dicts.len(), |i: int| dictionary_entry(ids[i], levels[i], dicts[i]))
}

/// A bundle: a magic number, its identifier, a one, the number of its dictionaries, their
/// identifiers, and their entries.
pub open spec fn bundle_bytes(
    id: Seq<u8>,
    ids: Seq<Seq<u8>>,
    levels: Seq<u32>,
    dicts: Seq<Seq<u8>>,
) -> Seq<u8> {
    le_bytes(0x4942_ccda, 4) + id + seq![1u8] + le_bytes(dicts.len(), 4) + end_to_end(
        ids,
        ids.len(),
    ) + end_to_end(entries(ids, levels, dicts), dicts.len())
}

/// Whether some bytes stand at an offset.
spec fn stands_at(bytes: Seq<u8>, offset: nat, part: Seq<u8>) -> bool {
    &&& offset + part.len() <= bytes.len()
    &&& bytes.subrange(offset as int, (offset + part.len()) as int) == part
}

proof fn lemma_u32(bytes: Seq<u8>, offset: nat, value: nat)
    requires
        bytes.len() <= usize::MAX,
        value <= u32::MAX,
        stands_at(bytes, offset, le_bytes(value, 4)),
    ensures
        bundle_u32(bytes, offset) == Ok::<(nat, nat), ErrorView>((value, offset + 4)),
{
    lemma_le_bytes_len(value, 4);
    lemma_byte_range_values();
    law_le_round_trip(value, 4);
}

proof fn lemma_stands_inside(bytes: Seq<u8>, offset: nat, whole: Seq<u8>, front: Seq<u8>, part: Seq<u8>, back: Seq<u8>)
    requires
        stands_at(bytes, offset, whole),
        whole == front + part + back,
    ensures
        stands_at(bytes, offset + front.len(), part),
{
    let start = offset + front.len();
    let end = start + part.len();
    assert(bytes.subrange(start as int, end as int) =~= whole.subrange(
        front.len() as int,
        (front.len() + part.len()) as int,
    ));
    assert(whole.subrange(front.len() as int, (front.len() + part.len()) as int) =~= part);
}

proof fn lemma_six(
    bytes: Seq<u8>,
    a: Seq<u8>,
    b: Seq<u8>,
    c: Seq<u8>,
    d: Seq<u8>,
    e: Seq<u8>,
    f: Seq<u8>,
)
    requires
        bytes == a + b + c + d + e + f,
    ensures
        stands_at(bytes, 0, a),
        stands_at(bytes, a.len(), b),
        stands_at(bytes, a.len() + b.len(), c),
        stands_at(bytes, a.len() + b.len() + c.len(), d),
        stands_at(bytes, a.len() + b.len() + c.len() + d.len(), e),
        stands_at(bytes, a.len() + b.len() + c.len() + d.len() + e.len(), f),
        bytes.len() == a.len() + b.len() + c.len() + d.len() + e.len() + f.len(),
{
    let one = a.len() as int;
    let two = one + b.len();
    let three = two + c.len();
    let four = three + d.len();
    let five = four + e.len();
    assert(bytes.subrange(0, one) =~= a);
    assert(bytes.subrange(one, two) =~= b);
    assert(bytes.subrange(two, three) =~= c);
    assert(bytes.subrange(three, four) =~= d);
    assert(bytes.subrange(four, five) =~= e);
    assert(bytes.subrange(five, bytes.len() as int) =~= f);
}

proof fn lemma_entry(bytes: Seq<u8>, offset: nat, id: Seq<u8>, level: u32, dictionary: Seq<u8>)
    requires
        bytes.len() <= usize::MAX,
        id.len() == 32,
        envelope(level, dictionary).len() <= u32::MAX,
        zstd_dictionary(dictionary),
        stands_at(bytes, offset, dictionary_entry(id, level, dictionary)),
    ensures
        packed_dict(bytes, offset, id) == Ok::<(Seq<u8>, nat), ErrorView>(
            (dictionary, offset + dictionary_entry(id, level, dictionary).len()),
        ),
{
    let content = envelope(level, dictionary);
    let whole = dictionary_entry(id, level, dictionary);
    let none = Seq::<u8>::empty();
    let magic = le_bytes(0x4944_ccda, 4);
    let codec = le_bytes(22, 4);
    let flag = seq![0u8];
    let size = le_bytes(content.len(), 4);
    lemma_le_bytes_len(0x4944_ccda, 4);
    lemma_le_bytes_len(22, 4);
    lemma_le_bytes_len(content.len(), 4);
    lemma_le_bytes_len(1, 4);
    lemma_le_bytes_len(level as nat, 4);
    assert(whole =~= none + magic + (id + codec + flag + size + content));
    lemma_stands_inside(bytes, offset, whole, none, magic, id + codec + flag + size + content);
    assert(whole =~= magic + id + (codec + flag + size + content));
    lemma_stands_inside(bytes, offset, whole, magic, id, codec + flag + size + content);
    assert(whole =~= (magic + id) + codec + (flag + size + content));
    lemma_stands_inside(bytes, offset, whole, magic + id, codec, flag + size + content);
    assert(whole =~= (magic + id + codec) + flag + (size + content));
    lemma_stands_inside(bytes, offset, whole, magic + id + codec, flag, size + content);
    assert(whole =~= (magic + id + codec + flag) + size + content);
    lemma_stands_inside(bytes, offset, whole, magic + id + codec + flag, size, content);
    assert(whole =~= (magic + id + codec + flag + size) + content + none);
    lemma_stands_inside(bytes, offset, whole, magic + id + codec + flag + size, content, none);
    lemma_u32(bytes, offset, 0x4944_ccda);
    lemma_u32(bytes, offset + 36, 22);
    lemma_u32(bytes, offset + 41, content.len());
    assert(bundle_slice(bytes, offset + 40, 1) == Ok::<(Seq<u8>, nat), ErrorView>(
        (flag, offset + 41),
    ));
    assert(flag[0] == 0);
    let one = le_bytes(1, 4);
    let two = le_bytes(level as nat, 4);
    assert(content.subrange(0, 4) =~= one);
    assert(content.subrange(4, 8) =~= two);
    lemma_u32(content, 0, 1);
    lemma_u32(content, 4, level as nat);
    assert(content.subrange(8, content.len() as int) =~= dictionary);
    assert(enveloped_dictionary(content) == Ok::<Seq<u8>, ErrorView>(dictionary));
}

proof fn lemma_part(bytes: Seq<u8>, offset: nat, parts: Seq<Seq<u8>>, count: nat, index: nat)
    requires
        index < count <= parts.len(),
        stands_at(bytes, offset, end_to_end(parts, count)),
    ensures
        stands_at(bytes, offset + end_to_end(parts, index).len(), parts[index as int]),
        end_to_end(parts, index + 1).len() <= end_to_end(parts, count).len(),
    decreases count,
{
    let front = end_to_end(parts, (count - 1) as nat);
    let whole = end_to_end(parts, count);
    let none = Seq::<u8>::empty();
    if index == count - 1 {
        assert(whole =~= front + parts[count - 1] + none);
        lemma_stands_inside(bytes, offset, whole, front, parts[count - 1], none);
    } else {
        assert(whole =~= none + front + parts[count - 1]);
        lemma_stands_inside(bytes, offset, whole, none, front, parts[count - 1]);
        lemma_part(bytes, offset, parts, (count - 1) as nat, index);
    }
}

proof fn lemma_ids(bytes: Seq<u8>, start: nat, ids: Seq<Seq<u8>>, index: nat)
    requires
        bytes.len() <= usize::MAX,
        index <= ids.len(),
        forall|i: int| 0 <= i < ids.len() ==> (#[trigger] ids[i]).len() == 32,
        stands_at(bytes, start, end_to_end(ids, ids.len())),
    ensures
        bundle_ids(
            bytes,
            start + end_to_end(ids, index).len(),
            (ids.len() - index) as nat,
            ids.take(index as int),
        ) == Ok::<(Seq<Seq<u8>>, nat), ErrorView>(
            (ids, start + end_to_end(ids, ids.len()).len()),
        ),
    decreases ids.len() - index,
{
    if index == ids.len() {
        assert(ids.take(index as int) =~= ids);
    } else {
        lemma_part(bytes, start, ids, ids.len(), index);
        assert(ids[index as int].len() == 32);
        assert(ids.take(index as int).push(ids[index as int]) =~= ids.take(index as int + 1));
        lemma_ids(bytes, start, ids, index + 1);
    }
}

proof fn lemma_dicts(
    bytes: Seq<u8>,
    start: nat,
    ids: Seq<Seq<u8>>,
    levels: Seq<u32>,
    dicts: Seq<Seq<u8>>,
    index: nat,
)
    requires
        bytes.len() <= usize::MAX,
        ids.len() == dicts.len(),
        index <= dicts.len(),
        forall|i: int| 0 <= i < ids.len() ==> (#[trigger] ids[i]).len() == 32,
        forall|i: int|
            0 <= i < dicts.len() ==> zstd_dictionary(#[trigger] dicts[i]) && dicts[i].len() + 8
                <= u32::MAX,
        stands_at(bytes, start, end_to_end(entries(ids, levels, dicts), dicts.len())),
    ensures
        packed_dicts(
            bytes,
            start + end_to_end(entries(ids, levels, dicts), index).len(),
            ids,
            index,
            dicts.take(index as int),
        ) == Ok::<(Seq<Seq<u8>>, nat), ErrorView>(
            (dicts, start + end_to_end(entries(ids, levels, dicts), dicts.len()).len()),
        ),
    decreases dicts.len() - index,
{
    let all = entries(ids, levels, dicts);
    if index == dicts.len() {
        assert(dicts.take(index as int) =~= dicts);
    } else {
        let at = index as int;
        lemma_part(bytes, start, all, dicts.len(), index);
        lemma_le_bytes_len(1, 4);
        lemma_le_bytes_len(levels[at] as nat, 4);
        assert(dicts[at].len() + 8 <= u32::MAX);
        assert(ids[at].len() == 32);
        lemma_entry(
            bytes,
            start + end_to_end(all, index).len(),
            ids[at],
            levels[at],
            dicts[at],
        );
        assert(dicts.take(at).push(dicts[at]) =~= dicts.take(at + 1));
        lemma_dicts(bytes, start, ids, levels, dicts, index + 1);
    }
}

/// A bundle that was laid out parses back to its identifier and its dictionaries.
pub proof fn law_bundle_parses_back(
    id: Seq<u8>,
    ids: Seq<Seq<u8>>,
    levels: Seq<u32>,
    dicts: Seq<Seq<u8>>,
)
    requires
        id.len() == 32,
        ids.len() == dicts.len() <= 0xffff,
        levels.len() == dicts.len(),
        forall|i: int| 0 <= i < ids.len() ==> (#[trigger] ids[i]).len() == 32,
        forall|i: int|
            0 <= i < dicts.len() ==> zstd_dictionary(#[trigger] dicts[i]) && dicts[i].len() + 8
                <= u32::MAX,
        bundle_bytes(id, ids, levels, dicts).len() <= usize::MAX,
    ensures
        fat_bundle(bundle_bytes(id, ids, levels, dicts)) == Ok::<BundleView, ErrorView>(
            BundleView { id, dicts },
        ),
{
    let bytes = bundle_bytes(id, ids, levels, dicts);
    let magic = le_bytes(0x4942_ccda, 4);
    let flag = seq![1u8];
    let count = le_bytes(dicts.len(), 4);
    let names = end_to_end(ids, ids.len());
    let body = end_to_end(entries(ids, levels, dicts), dicts.len());
    lemma_le_bytes_len(0x4942_ccda, 4);
    lemma_le_bytes_len(dicts.len(), 4);
    lemma_six(bytes, magic, id, flag, count, names, body);
    lemma_u32(bytes, 0, 0x4942_ccda);
    assert(bundle_slice(bytes, 36, 1) == Ok::<(Seq<u8>, nat), ErrorView>((flag, 37)));
    assert(flag[0] == 1);
    lemma_u32(bytes, 37, dicts.len());
    lemma_ids(bytes, 41, ids, 0);
    assert(ids.take(0) =~= Seq::<Seq<u8>>::empty());
    lemma_dicts(bytes, 41 + names.len(), ids, levels, dicts, 0);
    assert(dicts.take(0) =~= Seq::<Seq<u8>>::empty());
}

} // verus!
