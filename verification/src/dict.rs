//! Dictionary bundles, and the store that decoding looks dictionaries up in.

use vstd::prelude::*;
use vstd::slice::slice_subrange;

use crate::bytes::{copy_bytes, le_value, lemma_byte_range_values, lemma_le_value_bound, read_le};
use crate::codecs::{is_zstd_dictionary, zstd_dictionary};
use crate::error::{
    detailed, fail, located_detailed, outcome, plain, Error, ErrorKind, ErrorView,
};
use crate::standard::ZSTD_ID;

verus! {

pub const BUNDLE_INFO_MAGIC: u32 = 0x4942_ccda;

pub const PACKED_DICT_MAGIC: u32 = 0x4944_ccda;

pub const UNIQUE_ID_BYTES: usize = 32;

pub const FAT_BUNDLE_FLAG: u8 = 1;

pub const MAX_DICTS_PER_BUNDLE: u32 = 0xffff;

pub const ZSTD_DICT_ENVELOPE_VERSION: u32 = 1;

/// A bundle: its identifier, and the bytes of each of its dictionaries.
#[verifier::ext_equal]
pub struct BundleView {
    pub id: Seq<u8>,
    pub dicts: Seq<Seq<u8>>,
}

/// `len` bytes at `offset`, and the offset behind them.
pub open spec fn bundle_slice(bytes: Seq<u8>, offset: nat, len: nat) -> Result<
    (Seq<u8>, nat),
    ErrorView,
> {
    if offset + len > usize::MAX {
        Err(plain(ErrorKind::IntegerOverflow))
    } else if offset + len > bytes.len() {
        Err(
            located_detailed(
                ErrorKind::Truncated,
                offset as int,
                "dictionary bundle is truncated"@,
            ),
        )
    } else {
        Ok((bytes.subrange(offset as int, (offset + len) as int), offset + len))
    }
}

/// The 32-bit integer at `offset`, and the offset behind it.
pub open spec fn bundle_u32(bytes: Seq<u8>, offset: nat) -> Result<(nat, nat), ErrorView> {
    match bundle_slice(bytes, offset, 4) {
        Err(error) => Err(error),
        Ok((slice, offset)) => Ok((le_value(slice), offset)),
    }
}

/// `count` identifiers at `offset`, and the offset behind them.
pub open spec fn bundle_ids(bytes: Seq<u8>, offset: nat, count: nat, ids: Seq<Seq<u8>>) -> Result<
    (Seq<Seq<u8>>, nat),
    ErrorView,
>
    decreases count,
{
    if count == 0 {
        Ok((ids, offset))
    } else {
        match bundle_slice(bytes, offset, UNIQUE_ID_BYTES as nat) {
            Err(error) => Err(error),
            Ok((id, offset)) => bundle_ids(bytes, offset, (count - 1) as nat, ids.push(id)),
        }
    }
}

/// The dictionary that an envelope holds: a version and a compression level stand
/// in front of it.
pub open spec fn enveloped_dictionary(content: Seq<u8>) -> Result<Seq<u8>, ErrorView> {
    match bundle_u32(content, 0) {
        Err(error) => Err(error),
        Ok((version, offset)) => if version != ZSTD_DICT_ENVELOPE_VERSION {
            Err(detailed(ErrorKind::Malformed, "unsupported zstd dictionary envelope version"@))
        } else {
            match bundle_u32(content, offset) {
                Err(error) => Err(error),
                Ok((level, offset)) => {
                    let dictionary = content.subrange(offset as int, content.len() as int);
                    if zstd_dictionary(dictionary) {
                        Ok(dictionary)
                    } else {
                        Err(detailed(ErrorKind::Malformed, "invalid zstd dictionary"@))
                    }
                },
            }
        },
    }
}

/// What the codec and the content of a packed dictionary come to.
pub open spec fn materialized(codec: nat, custom: bool, content: Seq<u8>) -> Result<
    Seq<u8>,
    ErrorView,
> {
    if custom {
        Err(detailed(ErrorKind::Unsupported, "custom dictionary materializers are unsupported"@))
    } else if codec != ZSTD_ID {
        Err(detailed(ErrorKind::Unsupported, "only zstd dictionary materialization is implemented"@))
    } else {
        enveloped_dictionary(content)
    }
}

/// The packed dictionary at `offset`, which must have the identifier `id`, and the
/// offset behind it.
pub open spec fn packed_dict(bytes: Seq<u8>, offset: nat, id: Seq<u8>) -> Result<
    (Seq<u8>, nat),
    ErrorView,
> {
    match bundle_u32(bytes, offset) {
        Err(error) => Err(error),
        Ok((magic, offset)) => if magic != PACKED_DICT_MAGIC {
            Err(detailed(ErrorKind::Malformed, "invalid dictionary magic"@))
        } else {
            match bundle_slice(bytes, offset, UNIQUE_ID_BYTES as nat) {
                Err(error) => Err(error),
                Ok((found, offset)) => if found != id {
                    Err(detailed(ErrorKind::Malformed, "dictionary ID mismatch"@))
                } else {
                    packed_content(bytes, offset)
                },
            }
        },
    }
}

/// The codec, the custom flag and the sized content at `offset`, and the offset
/// behind them.
pub open spec fn packed_content(bytes: Seq<u8>, offset: nat) -> Result<(Seq<u8>, nat), ErrorView> {
    match bundle_u32(bytes, offset) {
        Err(error) => Err(error),
        Ok((codec, offset)) => match bundle_slice(bytes, offset, 1) {
            Err(error) => Err(error),
            Ok((custom, offset)) => match bundle_u32(bytes, offset) {
                Err(error) => Err(error),
                Ok((size, offset)) => match bundle_slice(bytes, offset, size) {
                    Err(error) => Err(error),
                    Ok((content, offset)) => match materialized(codec, custom[0] != 0, content) {
                        Err(error) => Err(error),
                        Ok(dictionary) => Ok((dictionary, offset)),
                    },
                },
            },
        },
    }
}

/// The packed dictionaries from `index` on, and the offset behind them.
pub open spec fn packed_dicts(
    bytes: Seq<u8>,
    offset: nat,
    ids: Seq<Seq<u8>>,
    index: nat,
    dicts: Seq<Seq<u8>>,
) -> Result<(Seq<Seq<u8>>, nat), ErrorView>
    decreases ids.len() - index,
{
    if index >= ids.len() {
        Ok((dicts, offset))
    } else {
        match packed_dict(bytes, offset, ids[index as int]) {
            Err(error) => Err(error),
            Ok((dictionary, offset)) => packed_dicts(
                bytes,
                offset,
                ids,
                index + 1,
                dicts.push(dictionary),
            ),
        }
    }
}

/// What follows the identifier of a bundle, from `offset` on.
pub open spec fn bundle_body(bytes: Seq<u8>, offset: nat, id: Seq<u8>) -> Result<
    BundleView,
    ErrorView,
> {
    match bundle_slice(bytes, offset, 1) {
        Err(error) => Err(error),
        Ok((flag, offset)) => if flag[0] != FAT_BUNDLE_FLAG {
            Err(detailed(ErrorKind::Unsupported, "thin dictionary bundles are unsupported"@))
        } else {
            match bundle_u32(bytes, offset) {
                Err(error) => Err(error),
                Ok((count, offset)) => if count > MAX_DICTS_PER_BUNDLE {
                    Err(
                        detailed(
                            ErrorKind::Malformed,
                            "dictionary bundle has too many dictionaries"@,
                        ),
                    )
                } else {
                    match bundle_ids(bytes, offset, count, Seq::empty()) {
                        Err(error) => Err(error),
                        Ok((ids, offset)) => match packed_dicts(
                            bytes,
                            offset,
                            ids,
                            0,
                            Seq::empty(),
                        ) {
                            Err(error) => Err(error),
                            Ok((dicts, offset)) => if offset != bytes.len() {
                                Err(
                                    detailed(
                                        ErrorKind::Malformed,
                                        "trailing bytes after dictionary bundle"@,
                                    ),
                                )
                            } else {
                                Ok(BundleView { id, dicts })
                            },
                        },
                    }
                },
            }
        },
    }
}

/// What the bytes of a bundle come to.
pub open spec fn fat_bundle(bytes: Seq<u8>) -> Result<BundleView, ErrorView> {
    match bundle_u32(bytes, 0) {
        Err(error) => Err(error),
        Ok((magic, offset)) => if magic != BUNDLE_INFO_MAGIC {
            Err(detailed(ErrorKind::Malformed, "invalid dictionary bundle magic"@))
        } else {
            match bundle_slice(bytes, offset, UNIQUE_ID_BYTES as nat) {
                Err(error) => Err(error),
                Ok((id, offset)) => bundle_body(bytes, offset, id),
            }
        },
    }
}

/// Whether `part` is the beginning of `whole`.
spec fn begins(part: Seq<u8>, whole: Seq<u8>) -> bool {
    part.len() <= whole.len() && part == whole.take(part.len() as int)
}

/// Whether reading the beginning of some bytes of which all were read up to `end` gives
/// the same, where it reaches as far, and is truncated otherwise.
spec fn cut<T>(
    whole: Result<(T, nat), ErrorView>,
    part: Result<(T, nat), ErrorView>,
    len: nat,
) -> bool {
    whole matches Ok((_, end)) ==> if end <= len {
        part == whole
    } else {
        part matches Err(error) && error.kind == ErrorKind::Truncated
    }
}

/// Whether what was read off the beginning of some bytes is read off all of them.
spec fn kept<T>(part: Result<(T, nat), ErrorView>, whole: Result<(T, nat), ErrorView>) -> bool {
    part is Ok ==> whole == part
}

proof fn lemma_slice_cut(whole: Seq<u8>, part: Seq<u8>, offset: nat, len: nat)
    requires
        begins(part, whole),
    ensures
        cut(bundle_slice(whole, offset, len), bundle_slice(part, offset, len), part.len()),
        kept(bundle_slice(part, offset, len), bundle_slice(whole, offset, len)),
        cut(bundle_u32(whole, offset), bundle_u32(part, offset), part.len()),
        kept(bundle_u32(part, offset), bundle_u32(whole, offset)),
{
    if offset + len <= part.len() {
        assert(part.subrange(offset as int, (offset + len) as int) =~= whole.subrange(
            offset as int,
            (offset + len) as int,
        ));
    }
    if offset + 4 <= part.len() {
        assert(part.subrange(offset as int, offset as int + 4) =~= whole.subrange(
            offset as int,
            offset as int + 4,
        ));
    }
}

proof fn lemma_ids_cut(whole: Seq<u8>, part: Seq<u8>, offset: nat, count: nat, ids: Seq<Seq<u8>>)
    requires
        begins(part, whole),
        offset <= part.len(),
    ensures
        cut(
            bundle_ids(whole, offset, count, ids),
            bundle_ids(part, offset, count, ids),
            part.len(),
        ),
        kept(bundle_ids(part, offset, count, ids), bundle_ids(whole, offset, count, ids)),
        bundle_ids(whole, offset, count, ids) matches Ok((_, end)) ==> offset <= end
            <= whole.len(),
    decreases count,
{
    if count > 0 {
        lemma_slice_cut(whole, part, offset, UNIQUE_ID_BYTES as nat);
        if let Ok((id, next)) = bundle_slice(whole, offset, UNIQUE_ID_BYTES as nat) {
            if next <= part.len() {
                lemma_ids_cut(whole, part, next, (count - 1) as nat, ids.push(id));
            } else {
                assert(whole.take(whole.len() as int) =~= whole);
                lemma_ids_cut(whole, whole, next, (count - 1) as nat, ids.push(id));
            }
        }
    }
}

proof fn lemma_packed_cut(whole: Seq<u8>, part: Seq<u8>, offset: nat, id: Seq<u8>)
    requires
        begins(part, whole),
        offset <= part.len(),
    ensures
        cut(packed_dict(whole, offset, id), packed_dict(part, offset, id), part.len()),
        kept(packed_dict(part, offset, id), packed_dict(whole, offset, id)),
        packed_dict(whole, offset, id) matches Ok((_, end)) ==> offset <= end <= whole.len(),
{
    lemma_slice_cut(whole, part, offset, 4);
    lemma_slice_cut(whole, part, offset + 4, UNIQUE_ID_BYTES as nat);
    lemma_slice_cut(whole, part, offset + 36, 4);
    lemma_slice_cut(whole, part, offset + 40, 1);
    lemma_slice_cut(whole, part, offset + 41, 4);
    if let Ok((size, _)) = bundle_u32(whole, offset + 41) {
        lemma_slice_cut(whole, part, offset + 45, size);
    }
}

proof fn lemma_packed_dicts_cut(
    whole: Seq<u8>,
    part: Seq<u8>,
    offset: nat,
    ids: Seq<Seq<u8>>,
    index: nat,
    dicts: Seq<Seq<u8>>,
)
    requires
        begins(part, whole),
        offset <= part.len(),
    ensures
        cut(
            packed_dicts(whole, offset, ids, index, dicts),
            packed_dicts(part, offset, ids, index, dicts),
            part.len(),
        ),
        kept(
            packed_dicts(part, offset, ids, index, dicts),
            packed_dicts(whole, offset, ids, index, dicts),
        ),
        packed_dicts(whole, offset, ids, index, dicts) matches Ok((_, end)) ==> offset <= end
            <= whole.len(),
    decreases ids.len() - index,
{
    if index < ids.len() {
        lemma_packed_cut(whole, part, offset, ids[index as int]);
        if let Ok((dictionary, next)) = packed_dict(whole, offset, ids[index as int]) {
            let longer = dicts.push(dictionary);
            if next <= part.len() {
                lemma_packed_dicts_cut(whole, part, next, ids, index + 1, longer);
            } else {
                assert(whole.take(whole.len() as int) =~= whole);
                lemma_packed_dicts_cut(whole, whole, next, ids, index + 1, longer);
            }
        }
    }
}

/// A bundle is read exactly to its end: with one more byte behind it, it is malformed.
pub proof fn law_bundle_has_nothing_behind_it(bytes: Seq<u8>, more: u8)
    requires
        fat_bundle(bytes) is Ok,
    ensures
        fat_bundle(bytes.push(more)) is Err,
        fat_bundle(bytes.push(more))->Err_0.kind == ErrorKind::Malformed,
{
    let longer = bytes.push(more);
    assert(longer.take(bytes.len() as int) =~= bytes);
    lemma_slice_cut(longer, bytes, 0, 4);
    lemma_slice_cut(longer, bytes, 4, UNIQUE_ID_BYTES as nat);
    lemma_slice_cut(longer, bytes, 36, 1);
    lemma_slice_cut(longer, bytes, 37, 4);
    let count = bundle_u32(bytes, 37)->Ok_0.0;
    lemma_ids_cut(longer, bytes, 41, count, Seq::empty());
    let (ids, offset) = bundle_ids(bytes, 41, count, Seq::empty())->Ok_0;
    assert(bytes.take(bytes.len() as int) =~= bytes);
    lemma_ids_cut(bytes, bytes, 41, count, Seq::empty());
    lemma_packed_dicts_cut(longer, bytes, offset, ids, 0, Seq::empty());
}

/// A bundle is needed to its end: every proper beginning of it is truncated.
pub proof fn law_bundle_is_needed_whole(bytes: Seq<u8>, len: nat)
    requires
        fat_bundle(bytes) is Ok,
        len < bytes.len(),
    ensures
        fat_bundle(bytes.take(len as int)) is Err,
        fat_bundle(bytes.take(len as int))->Err_0.kind == ErrorKind::Truncated,
{
    let part = bytes.take(len as int);
    assert(bytes.take(part.len() as int) =~= part);
    lemma_slice_cut(bytes, part, 0, 4);
    lemma_slice_cut(bytes, part, 4, UNIQUE_ID_BYTES as nat);
    lemma_slice_cut(bytes, part, 36, 1);
    lemma_slice_cut(bytes, part, 37, 4);
    let count = bundle_u32(bytes, 37)->Ok_0.0;
    if len >= 41 {
        lemma_ids_cut(bytes, part, 41, count, Seq::empty());
        let (ids, offset) = bundle_ids(bytes, 41, count, Seq::empty())->Ok_0;
        if offset <= len {
            lemma_packed_dicts_cut(bytes, part, offset, ids, 0, Seq::empty());
        }
    }
}

/// Reads the parts of a bundle one after the other.
pub struct BundleReader<'a> {
    bytes: &'a [u8],
    offset: usize,
}

impl<'a> BundleReader<'a> {
    /// All bytes.
    pub closed spec fn source(self) -> Seq<u8> {
        self.bytes@
    }

    /// How many bytes were read.
    pub closed spec fn position(self) -> nat {
        self.offset as nat
    }

    /// No more was read than there is.
    pub closed spec fn well_formed(self) -> bool {
        self.offset <= self.bytes@.len()
    }

    pub fn new(bytes: &'a [u8]) -> (reader: Self)
        ensures
            reader.source() == bytes@,
            reader.position() == 0,
            reader.well_formed(),
    {
        BundleReader { bytes, offset: 0 }
    }

    /// Reads `len` bytes.
    pub fn read_slice(&mut self, len: usize) -> (result: Result<&'a [u8], Error>)
        requires
            old(self).well_formed(),
        ensures
            final(self).well_formed(),
            final(self).source() == old(self).source(),
            match result {
                Ok(slice) => bundle_slice(old(self).source(), old(self).position(), len as nat)
                    == Ok::<(Seq<u8>, nat), ErrorView>((slice@, final(self).position())),
                Err(error) => bundle_slice(old(self).source(), old(self).position(), len as nat)
                    == Err::<(Seq<u8>, nat), ErrorView>(error@),
            },
    {
        let end: usize = match self.offset.checked_add(len) {
            Some(end) => end,
            None => {
                return Err(Error::new(ErrorKind::IntegerOverflow));
            },
        };
        if end > self.bytes.len() {
            return Err(
                Error::at(ErrorKind::Truncated, self.offset).with_detail(
                    "dictionary bundle is truncated",
                ),
            );
        }
        let slice = slice_subrange(self.bytes, self.offset, end);
        self.offset = end;
        Ok(slice)
    }

    /// Reads a byte.
    pub fn read_byte(&mut self) -> (result: Result<u8, Error>)
        requires
            old(self).well_formed(),
        ensures
            final(self).well_formed(),
            final(self).source() == old(self).source(),
            match bundle_slice(old(self).source(), old(self).position(), 1) {
                Ok((slice, end)) => result is Ok && result->Ok_0 == slice[0]
                    && final(self).position() == end,
                Err(error) => result is Err && result->Err_0@ == error,
            },
    {
        let slice = self.read_slice(1)?;
        Ok(slice[0])
    }

    /// Reads a 32-bit integer.
    pub fn read_u32_le(&mut self) -> (result: Result<u32, Error>)
        requires
            old(self).well_formed(),
        ensures
            final(self).well_formed(),
            final(self).source() == old(self).source(),
            match result {
                Ok(value) => bundle_u32(old(self).source(), old(self).position()) == Ok::<
                    (nat, nat),
                    ErrorView,
                >((value as nat, final(self).position())),
                Err(error) => bundle_u32(old(self).source(), old(self).position()) == Err::<
                    (nat, nat),
                    ErrorView,
                >(error@),
            },
    {
        let slice = self.read_slice(4)?;
        proof {
            assert(slice@.subrange(0, 4) =~= slice@);
            lemma_le_value_bound(slice@);
            lemma_byte_range_values();
        }
        Ok(read_le(slice, 0, 4) as u32)
    }

    /// The bytes that are left.
    pub fn remaining(&self) -> (bytes: &'a [u8])
        requires
            self.well_formed(),
        ensures
            bytes@ == self.source().subrange(self.position() as int, self.source().len() as int),
    {
        slice_subrange(self.bytes, self.offset, self.bytes.len())
    }

    /// Tells whether no byte is left.
    pub fn is_empty(&self) -> (empty: bool)
        ensures
            empty == (self.position() == self.source().len()),
    {
        self.offset == self.bytes.len()
    }
}

/// The bytes of some dictionaries.
pub open spec fn dict_bytes(dicts: Seq<Vec<u8>>) -> Seq<Seq<u8>> {
    Seq::new(dicts.len(), |i: int| dicts[i]@)
}

/// The bytes of some identifiers.
spec fn id_bytes(ids: Seq<&[u8]>) -> Seq<Seq<u8>> {
    Seq::new(ids.len(), |i: int| ids[i]@)
}

/// A bundle of dictionaries.
pub struct DictionaryBundle {
    id: Vec<u8>,
    dicts: Vec<Vec<u8>>,
}

impl View for DictionaryBundle {
    type V = BundleView;

    closed spec fn view(&self) -> BundleView {
        BundleView { id: self.id@, dicts: dict_bytes(self.dicts@) }
    }
}

/// Compares two byte strings.
pub(crate) fn same_bytes(left: &[u8], right: &[u8]) -> (same: bool)
    ensures
        same == (left@ == right@),
{
    if left.len() != right.len() {
        return false;
    }
    let mut index: usize = 0;
    while index < left.len()
        invariant
            index <= left@.len(),
            left@.len() == right@.len(),
            forall|i: int| 0 <= i < index ==> #[trigger] left@[i] == right@[i],
        decreases left@.len() - index,
    {
        if left[index] != right[index] {
            return false;
        }
        index = index + 1;
    }
    proof {
        assert(left@ =~= right@);
    }
    true
}

/// Reads the dictionary that an envelope holds.
fn parse_zstd_dict(content: &[u8]) -> (result: Result<Vec<u8>, Error>)
    ensures
        outcome(result) == enveloped_dictionary(content@),
{
    let mut reader = BundleReader::new(content);
    let version: u32 = reader.read_u32_le()?;
    if version != ZSTD_DICT_ENVELOPE_VERSION {
        return Err(fail(ErrorKind::Malformed, "unsupported zstd dictionary envelope version"));
    }
    reader.read_u32_le()?;
    let dictionary = reader.remaining();
    if !is_zstd_dictionary(dictionary) {
        return Err(fail(ErrorKind::Malformed, "invalid zstd dictionary"));
    }
    Ok(copy_bytes(dictionary))
}

/// Reads a packed dictionary, which must have the identifier `id`.
fn parse_packed_dict(reader: &mut BundleReader<'_>, id: &[u8]) -> (result: Result<Vec<u8>, Error>)
    requires
        old(reader).well_formed(),
    ensures
        final(reader).well_formed(),
        final(reader).source() == old(reader).source(),
        match result {
            Ok(dictionary) => packed_dict(old(reader).source(), old(reader).position(), id@)
                == Ok::<(Seq<u8>, nat), ErrorView>((dictionary@, final(reader).position())),
            Err(error) => packed_dict(old(reader).source(), old(reader).position(), id@) == Err::<
                (Seq<u8>, nat),
                ErrorView,
            >(error@),
        },
{
    let magic: u32 = reader.read_u32_le()?;
    if magic != PACKED_DICT_MAGIC {
        return Err(fail(ErrorKind::Malformed, "invalid dictionary magic"));
    }
    let found = reader.read_slice(UNIQUE_ID_BYTES)?;
    if !same_bytes(found, id) {
        return Err(fail(ErrorKind::Malformed, "dictionary ID mismatch"));
    }
    let codec: u32 = reader.read_u32_le()?;
    let custom: bool = reader.read_byte()? != 0;
    let size: u32 = reader.read_u32_le()?;
    let content = reader.read_slice(size as usize)?;
    if custom {
        return Err(
            fail(ErrorKind::Unsupported, "custom dictionary materializers are unsupported"),
        );
    }
    if codec != ZSTD_ID {
        return Err(
            fail(ErrorKind::Unsupported, "only zstd dictionary materialization is implemented"),
        );
    }
    parse_zstd_dict(content)
}

/// Reads a bundle that holds its dictionaries.
pub fn parse_fat_bundle(bytes: &[u8]) -> (result: Result<DictionaryBundle, Error>)
    ensures
        outcome(result) == fat_bundle(bytes@),
        result is Ok ==> result->Ok_0@.id.len() == UNIQUE_ID_BYTES,
{
    let mut reader = BundleReader::new(bytes);
    let magic: u32 = reader.read_u32_le()?;
    if magic != BUNDLE_INFO_MAGIC {
        return Err(fail(ErrorKind::Malformed, "invalid dictionary bundle magic"));
    }
    let id = reader.read_slice(UNIQUE_ID_BYTES)?;
    let flag: u8 = reader.read_byte()?;
    if flag != FAT_BUNDLE_FLAG {
        return Err(fail(ErrorKind::Unsupported, "thin dictionary bundles are unsupported"));
    }
    let count: u32 = reader.read_u32_le()?;
    if count > MAX_DICTS_PER_BUNDLE {
        return Err(fail(ErrorKind::Malformed, "dictionary bundle has too many dictionaries"));
    }
    let mut ids: Vec<&[u8]> = Vec::new();
    let ghost total = fat_bundle(bytes@);
    let ghost body = bundle_ids(bytes@, reader.position(), count as nat, Seq::empty());
    let mut left: u32 = count;
    proof {
        assert(id_bytes(ids@) =~= Seq::empty());
    }
    while left > 0
        invariant
            reader.well_formed(),
            reader.source() == bytes@,
            total == fat_bundle(bytes@),
            body is Err ==> total == Err::<BundleView, ErrorView>(body->Err_0),
            body == bundle_ids(bytes@, reader.position(), left as nat, id_bytes(ids@)),
        decreases left,
    {
        let next = reader.read_slice(UNIQUE_ID_BYTES)?;
        proof {
            assert(id_bytes(ids@.push(next)) =~= id_bytes(ids@).push(next@));
        }
        ids.push(next);
        left = left - 1;
    }
    let mut dicts: Vec<Vec<u8>> = Vec::new();
    let ghost views = id_bytes(ids@);
    let ghost packed = packed_dicts(bytes@, reader.position(), views, 0, Seq::empty());
    let mut index: usize = 0;
    proof {
        assert(dict_bytes(dicts@) =~= Seq::empty());
    }
    while index < ids.len()
        invariant
            index <= ids@.len(),
            views == id_bytes(ids@),
            reader.well_formed(),
            reader.source() == bytes@,
            total == fat_bundle(bytes@),
            packed is Err ==> total == Err::<BundleView, ErrorView>(packed->Err_0),
            packed == packed_dicts(
                bytes@,
                reader.position(),
                views,
                index as nat,
                dict_bytes(dicts@),
            ),
        decreases ids@.len() - index,
    {
        let dictionary = parse_packed_dict(&mut reader, ids[index])?;
        proof {
            assert(dict_bytes(dicts@.push(dictionary)) =~= dict_bytes(dicts@).push(dictionary@));
        }
        dicts.push(dictionary);
        index = index + 1;
    }
    if !reader.is_empty() {
        return Err(fail(ErrorKind::Malformed, "trailing bytes after dictionary bundle"));
    }
    Ok(DictionaryBundle { id: copy_bytes(id), dicts })
}

/// The dictionaries of each bundle, by the identifier of the bundle.
pub type StoreView = Map<Seq<u8>, Seq<Seq<u8>>>;

/// What some bundles hold; of two with one identifier the later one counts.
pub open spec fn bundles_view(bundles: Seq<BundleView>) -> StoreView
    decreases bundles.len(),
{
    if bundles.len() == 0 {
        Map::empty()
    } else {
        bundles_view(bundles.drop_last()).insert(bundles.last().id, bundles.last().dicts)
    }
}

/// No two bundles have one identifier.
pub open spec fn ids_differ(bundles: Seq<BundleView>) -> bool {
    forall|i: int, j: int|
        0 <= i < j < bundles.len() ==> (#[trigger] bundles[i]).id != (#[trigger] bundles[j]).id
}

/// Whether a bundle with an identifier is among some bundles.
pub open spec fn id_listed(bundles: Seq<BundleView>, id: Seq<u8>) -> bool {
    exists|i: int| 0 <= i < bundles.len() && (#[trigger] bundles[i]).id == id
}

/// Some bundles, in order, after another one was loaded: in place of the one with its
/// identifier, or else behind them.
pub open spec fn bundles_loaded(bundles: Seq<BundleView>, bytes: Seq<u8>) -> Seq<BundleView> {
    match fat_bundle(bytes) {
        Err(_) => bundles,
        Ok(bundle) => if id_listed(bundles, bundle.id) {
            Seq::new(
                bundles.len(),
                |i: int|
                    if bundles[i].id == bundle.id {
                        bundle
                    } else {
                        bundles[i]
                    },
            )
        } else {
            bundles.push(bundle)
        },
    }
}

/// The views of some bundles.
spec fn bundle_views(bundles: Seq<DictionaryBundle>) -> Seq<BundleView> {
    Seq::new(bundles.len(), |i: int| bundles[i]@)
}

proof fn lemma_front_differs(bundles: Seq<BundleView>)
    requires
        ids_differ(bundles),
        bundles.len() > 0,
    ensures
        ids_differ(bundles.drop_last()),
{
    assert forall|i: int, j: int| 0 <= i < j < bundles.len() - 1 implies (
    #[trigger] bundles.drop_last()[i]).id != (#[trigger] bundles.drop_last()[j]).id by {
        assert(bundles[i].id != bundles[j].id);
    }
}

proof fn lemma_bundle_found(bundles: Seq<BundleView>, index: int)
    requires
        ids_differ(bundles),
        0 <= index < bundles.len(),
    ensures
        bundles_view(bundles).contains_key(bundles[index].id),
        bundles_view(bundles)[bundles[index].id] == bundles[index].dicts,
    decreases bundles.len(),
{
    if index < bundles.len() - 1 {
        assert(bundles.drop_last()[index] == bundles[index]);
        lemma_front_differs(bundles);
        lemma_bundle_found(bundles.drop_last(), index);
        assert(bundles[index].id != bundles[bundles.len() - 1].id);
    }
}

proof fn lemma_bundle_missing(bundles: Seq<BundleView>, id: Seq<u8>)
    requires
        !id_listed(bundles, id),
    ensures
        !bundles_view(bundles).contains_key(id),
    decreases bundles.len(),
{
    if bundles.len() > 0 {
        assert forall|i: int| 0 <= i < bundles.len() - 1 implies (
        #[trigger] bundles.drop_last()[i]).id != id by {
            assert(bundles[i].id != id);
        }
        lemma_bundle_missing(bundles.drop_last(), id);
        assert(bundles[bundles.len() - 1].id != id);
    }
}

proof fn lemma_bundle_replaced(bundles: Seq<BundleView>, index: int, bundle: BundleView)
    requires
        ids_differ(bundles),
        0 <= index < bundles.len(),
        bundles[index].id == bundle.id,
    ensures
        bundles_view(bundles.update(index, bundle)) == bundles_view(bundles).insert(
            bundle.id,
            bundle.dicts,
        ),
        ids_differ(bundles.update(index, bundle)),
    decreases bundles.len(),
{
    let after = bundles.update(index, bundle);
    assert(ids_differ(after)) by {
        assert forall|i: int, j: int| 0 <= i < j < after.len() implies (#[trigger] after[i]).id
            != (#[trigger] after[j]).id by {
            assert(bundles[i].id != bundles[j].id);
        }
    }
    if index == bundles.len() - 1 {
        assert(after.drop_last() =~= bundles.drop_last());
        assert(bundles_view(after) =~= bundles_view(bundles).insert(bundle.id, bundle.dicts));
    } else {
        lemma_front_differs(bundles);
        lemma_bundle_replaced(bundles.drop_last(), index, bundle);
        assert(after.drop_last() =~= bundles.drop_last().update(index, bundle));
        assert(bundles[index].id != bundles[bundles.len() - 1].id);
        assert(bundles_view(after) =~= bundles_view(bundles).insert(bundle.id, bundle.dicts));
    }
}

/// Where no identifier occurs twice, loading a bundle puts it in the one place of its
/// identifier.
proof fn lemma_bundles_updated(bundles: Seq<BundleView>, index: int, bundle: BundleView)
    requires
        ids_differ(bundles),
        0 <= index < bundles.len(),
        bundles[index].id == bundle.id,
    ensures
        bundles.update(index, bundle) == Seq::new(
            bundles.len(),
            |i: int|
                if bundles[i].id == bundle.id {
                    bundle
                } else {
                    bundles[i]
                },
        ),
{
    assert forall|i: int| 0 <= i < bundles.len() && i != index implies (#[trigger] bundles[i]).id
        != bundle.id by {
        if i < index {
            assert(bundles[i].id != bundles[index].id);
        } else {
            assert(bundles[index].id != bundles[i].id);
        }
    }
    assert(bundles.update(index, bundle) =~= Seq::new(
        bundles.len(),
        |i: int|
            if bundles[i].id == bundle.id {
                bundle
            } else {
                bundles[i]
            },
    ));
}

/// What the store holds after a bundle was loaded.
pub open spec fn store_loaded(store: StoreView, bytes: Seq<u8>) -> StoreView {
    match fat_bundle(bytes) {
        Ok(bundle) => store.insert(bundle.id, bundle.dicts),
        Err(error) => store,
    }
}

/// The dictionary that a node asks for.
pub open spec fn stored_dictionary(store: StoreView, bundle_id: Seq<u8>, index: u32) -> Result<
    Seq<u8>,
    ErrorView,
> {
    if bundle_id.len() != UNIQUE_ID_BYTES {
        Err(detailed(ErrorKind::Malformed, "dictionary bundle ID must be 32 bytes"@))
    } else if !store.contains_key(bundle_id) {
        Err(detailed(ErrorKind::Unsupported, "dictionary bundle is not loaded"@))
    } else if index >= store[bundle_id].len() {
        Err(detailed(ErrorKind::Unsupported, "dictionary index is not in loaded bundle"@))
    } else {
        Ok(store[bundle_id][index as int])
    }
}

/// The dictionary bundles that were loaded.
pub struct DictionaryStore {
    bundles: Vec<DictionaryBundle>,
}

impl View for DictionaryStore {
    type V = StoreView;

    closed spec fn view(&self) -> StoreView {
        bundles_view(self.listed())
    }
}

impl DictionaryStore {
    /// The bundles in the order in which their identifiers came up.
    pub closed spec fn listed(self) -> Seq<BundleView> {
        bundle_views(self.bundles@)
    }

    /// No bundle was loaded twice.
    pub open spec fn well_formed(self) -> bool {
        ids_differ(self.listed())
    }

    pub fn new() -> (store: Self)
        ensures
            store@ == Map::<Seq<u8>, Seq<Seq<u8>>>::empty(),
            store.listed() == Seq::<BundleView>::empty(),
            store.well_formed(),
    {
        let store = DictionaryStore { bundles: Vec::new() };
        proof {
            assert(store.listed() =~= Seq::empty());
        }
        store
    }

    /// Forgets every bundle.
    pub fn clear(&mut self)
        ensures
            final(self)@ == Map::<Seq<u8>, Seq<Seq<u8>>>::empty(),
            final(self).listed() == Seq::<BundleView>::empty(),
            final(self).well_formed(),
    {
        self.bundles.clear();
        proof {
            assert(self.listed() =~= Seq::empty());
        }
    }

    /// Finds the bundle with an identifier: its place, or the number of bundles.
    fn find(&self, id: &[u8]) -> (index: usize)
        ensures
            index <= self.bundles@.len(),
            index < self.bundles@.len() ==> self.bundles@[index as int]@.id == id@,
            forall|i: int| 0 <= i < index ==> #[trigger] self.bundles@[i]@.id != id@,
    {
        let mut index: usize = 0;
        while index < self.bundles.len()
            invariant
                index <= self.bundles@.len(),
                forall|i: int| 0 <= i < index ==> #[trigger] self.bundles@[i]@.id != id@,
            decreases self.bundles@.len() - index,
        {
            if same_bytes(self.bundles[index].id.as_slice(), id) {
                return index;
            }
            index = index + 1;
        }
        index
    }

    /// Loads a bundle, in place of one with the same identifier.
    pub fn load_fat_bundle(&mut self, bytes: &[u8]) -> (result: Result<(), Error>)
        requires
            old(self).well_formed(),
        ensures
            final(self).well_formed(),
            final(self)@ == store_loaded(old(self)@, bytes@),
            final(self).listed() == bundles_loaded(old(self).listed(), bytes@),
            match result {
                Ok(_) => fat_bundle(bytes@) is Ok,
                Err(error) => fat_bundle(bytes@) == Err::<BundleView, ErrorView>(error@),
            },
    {
        let bundle = parse_fat_bundle(bytes)?;
        let index: usize = self.find(bundle.id.as_slice());
        let ghost before = self.listed();
        let ghost view = bundle@;
        if index < self.bundles.len() {
            proof {
                assert(before[index as int].id == view.id);
                lemma_bundle_replaced(before, index as int, view);
                lemma_bundles_updated(before, index as int, view);
            }
            self.bundles.set(index, bundle);
            proof {
                assert(self.listed() =~= before.update(index as int, view));
            }
        } else {
            self.bundles.push(bundle);
            proof {
                let after = before.push(view);
                assert(self.listed() =~= after);
                assert(after.drop_last() =~= before);
                assert forall|i: int| 0 <= i < before.len() implies (#[trigger] before[i]).id
                    != view.id by {
                    assert(old(self).bundles@[i]@ == before[i]);
                }
                assert forall|i: int, j: int| 0 <= i < j < after.len() implies (
                #[trigger] after[i]).id != (#[trigger] after[j]).id by {
                    if j < before.len() {
                        assert(before[i].id != before[j].id);
                    } else {
                        assert(before[i].id != view.id);
                    }
                }
            }
        }
        Ok(())
    }

    /// Finds the dictionary that a node asks for.
    pub fn zstd_dict(&self, bundle_id: &[u8], dict_index: u32) -> (result: Result<&[u8], Error>)
        requires
            self.well_formed(),
        ensures
            match result {
                Ok(dictionary) => stored_dictionary(self@, bundle_id@, dict_index) == Ok::<
                    Seq<u8>,
                    ErrorView,
                >(dictionary@),
                Err(error) => stored_dictionary(self@, bundle_id@, dict_index) == Err::<
                    Seq<u8>,
                    ErrorView,
                >(error@),
            },
    {
        if bundle_id.len() != UNIQUE_ID_BYTES {
            return Err(fail(ErrorKind::Malformed, "dictionary bundle ID must be 32 bytes"));
        }
        let index: usize = self.find(bundle_id);
        if index >= self.bundles.len() {
            proof {
                assert forall|i: int| 0 <= i < self.listed().len() implies (
                #[trigger] self.listed()[i]).id != bundle_id@ by {
                    assert(self.bundles@[i]@ == self.listed()[i]);
                }
                lemma_bundle_missing(self.listed(), bundle_id@);
            }
            return Err(fail(ErrorKind::Unsupported, "dictionary bundle is not loaded"));
        }
        proof {
            lemma_bundle_found(self.listed(), index as int);
        }
        let dicts: &Vec<Vec<u8>> = &self.bundles[index].dicts;
        if dict_index as usize >= dicts.len() {
            return Err(fail(ErrorKind::Unsupported, "dictionary index is not in loaded bundle"));
        }
        Ok(dicts[dict_index as usize].as_slice())
    }
}

/// Loading keeps the bundles in order: no identifier comes up twice, a bundle that is
/// refused changes nothing, and one that is not is found in the one place of its
/// identifier, or behind all others where that is new. Each other bundle stays as it was,
/// in its place.
pub proof fn law_loading_keeps_the_order(bundles: Seq<BundleView>, bytes: Seq<u8>)
    requires
        ids_differ(bundles),
    ensures
        ids_differ(bundles_loaded(bundles, bytes)),
        bundles_view(bundles_loaded(bundles, bytes)) == store_loaded(bundles_view(bundles), bytes),
        fat_bundle(bytes) is Err ==> bundles_loaded(bundles, bytes) == bundles,
        fat_bundle(bytes) matches Ok(bundle) ==> {
            let after = bundles_loaded(bundles, bytes);
            &&& after.len() == bundles.len() + (if id_listed(bundles, bundle.id) {
                0int
            } else {
                1int
            })
            &&& !id_listed(bundles, bundle.id) ==> after.last() == bundle
            &&& forall|i: int|
                0 <= i < bundles.len() ==> #[trigger] after[i] == (if bundles[i].id == bundle.id {
                    bundle
                } else {
                    bundles[i]
                })
        },
{
    if let Ok(bundle) = fat_bundle(bytes) {
        let after = bundles_loaded(bundles, bytes);
        if id_listed(bundles, bundle.id) {
            let index = choose|i: int|
                0 <= i < bundles.len() && (#[trigger] bundles[i]).id == bundle.id;
            lemma_bundles_updated(bundles, index, bundle);
            lemma_bundle_replaced(bundles, index, bundle);
        } else {
            assert(after.drop_last() =~= bundles);
            assert forall|i: int, j: int| 0 <= i < j < after.len() implies (#[trigger] after[i]).id
                != (#[trigger] after[j]).id by {
                if j < bundles.len() {
                    assert(bundles[i].id != bundles[j].id);
                } else {
                    assert(bundles[i].id != bundle.id);
                }
            }
        }
    }
}

/// What a bundle holds is found again after it was loaded.
pub proof fn law_loaded_dictionary_is_found(store: StoreView, bytes: Seq<u8>, index: u32)
    requires
        fat_bundle(bytes) is Ok,
        index < fat_bundle(bytes)->Ok_0.dicts.len(),
    ensures
        stored_dictionary(store_loaded(store, bytes), fat_bundle(bytes)->Ok_0.id, index) == Ok::<
            Seq<u8>,
            ErrorView,
        >(fat_bundle(bytes)->Ok_0.dicts[index as int]),
{
}

/// Loading a bundle leaves every other one as it was.
pub proof fn law_loading_keeps_other_bundles(
    store: StoreView,
    bytes: Seq<u8>,
    other: Seq<u8>,
    index: u32,
)
    requires
        fat_bundle(bytes) is Ok ==> fat_bundle(bytes)->Ok_0.id != other,
    ensures
        stored_dictionary(store_loaded(store, bytes), other, index) == stored_dictionary(
            store,
            other,
            index,
        ),
{
}

} // verus!
