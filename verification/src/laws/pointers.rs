//! Pointers to durable records, and the units of keys.

use vstd::prelude::*;
use crate::error::TrieResult;
use crate::key_encoding::{same_unit, ByteKey, CharKey, KeyEncoding, U64Key};
use crate::overlay::serialize_chain::chain_chunk_width;
use crate::swizzled_ptr::{DiskLocation, NodeType, SwizzledPtr, BLOCK_LIMIT};

verus! {

/// A pointer that was made for a place names that place, is not the pointer to nothing,
/// and comes back from its word. Two pointers have one word exactly if they were made
/// for one place.
pub proof fn a_pointer_names_its_place(
    block: u32,
    offset: u32,
    layout: NodeType,
    other_block: u32,
    other_offset: u32,
    other_layout: NodeType,
    pointer: SwizzledPtr,
    other: SwizzledPtr,
    found: Option<DiskLocation>,
    raw: u64,
    other_raw: u64,
    back: SwizzledPtr,
    nothing: bool,
)
    requires
        block < BLOCK_LIMIT,
        other_block < BLOCK_LIMIT,
        call_ensures(SwizzledPtr::on_disk, (block, offset, layout), pointer),
        call_ensures(SwizzledPtr::on_disk, (other_block, other_offset, other_layout), other),
        call_ensures(SwizzledPtr::disk_location, (&pointer,), found),
        call_ensures(SwizzledPtr::to_raw, (&pointer,), raw),
        call_ensures(SwizzledPtr::to_raw, (&other,), other_raw),
        call_ensures(SwizzledPtr::from_raw, (raw,), back),
        call_ensures(SwizzledPtr::is_null, (&pointer,), nothing),
    ensures
        found matches Some(place) && place.block_id == block && place.offset == offset
            && place.node_type == layout,
        !nothing,
        back == pointer,
        raw >= 0x8000_0000_0000_0000,
        raw == other_raw <==> block == other_block && offset == other_offset && layout
            == other_layout,
{
}

/// The words of places in one layout follow one another: the next offset has the next
/// word, and the same offset of the next block stands as far behind as there are offsets.
pub proof fn places_follow_one_another(
    block: u32,
    offset: u32,
    layout: NodeType,
    here: SwizzledPtr,
    next_offset: SwizzledPtr,
    next_block: SwizzledPtr,
)
    requires
        block + 1 < BLOCK_LIMIT,
        offset < u32::MAX,
        call_ensures(SwizzledPtr::on_disk, (block, offset, layout), here),
        call_ensures(SwizzledPtr::on_disk, (block, (offset + 1) as u32, layout), next_offset),
        call_ensures(SwizzledPtr::on_disk, ((block + 1) as u32, offset, layout), next_block),
    ensures
        next_offset.raw - here.raw == 1,
        next_block.raw - here.raw == 0x1_0000_0000,
{
}

/// A record of byte keys carries thirteen units of a chain, and one of the other keys
/// seven.
pub proof fn records_carry_their_units(
    byte: TrieResult<usize>,
    character: TrieResult<usize>,
    word: TrieResult<usize>,
)
    requires
        call_ensures(chain_chunk_width::<ByteKey>, (), byte),
        call_ensures(chain_chunk_width::<CharKey>, (), character),
        call_ensures(chain_chunk_width::<U64Key>, (), word),
    ensures
        byte matches Ok(width) && width == 13,
        character matches Ok(width) && width == 7,
        word matches Ok(width) && width == 7,
{
}

/// A word either names no place, or is the word of the pointer to the place that it
/// names.
pub proof fn a_word_names_at_most_one_place(
    raw: u64,
    pointer: SwizzledPtr,
    found: Option<DiskLocation>,
    again: SwizzledPtr,
    null: SwizzledPtr,
    of_null: Option<DiskLocation>,
    is_null: bool,
)
    requires
        call_ensures(SwizzledPtr::from_raw, (raw,), pointer),
        call_ensures(SwizzledPtr::disk_location, (&pointer,), found),
        found matches Some(place) ==> call_ensures(
            SwizzledPtr::on_disk,
            (place.block_id, place.offset, place.node_type),
            again,
        ),
        call_ensures(SwizzledPtr::null, (), null),
        call_ensures(SwizzledPtr::disk_location, (&null,), of_null),
        call_ensures(SwizzledPtr::is_null, (&null,), is_null),
    ensures
        found is Some ==> again == pointer,
        of_null is None,
        is_null,
{
    if found is Some {
        let l = found->0;
        assert(l.block_id < BLOCK_LIMIT && SwizzledPtr::encoded(l) == pointer.raw);
    }
}

/// A word below the mark of durable pointers names no place, and neither does one with a
/// layout that there is not.
pub proof fn other_words_name_no_place(raw: u64, pointer: SwizzledPtr, found: Option<DiskLocation>)
    requires
        call_ensures(SwizzledPtr::from_raw, (raw,), pointer),
        call_ensures(SwizzledPtr::disk_location, (&pointer,), found),
    ensures
        raw < 0x8000_0000_0000_0000 ==> found is None,
        raw >= 0xd000_0000_0000_0000 ==> found is None,
        0x8000_0000_0000_0000 <= raw < 0xd000_0000_0000_0000 ==> found is Some,
{
    if found is Some {
        let l = found->0;
        assert(l.block_id < BLOCK_LIMIT && SwizzledPtr::encoded(l) == pointer.raw);
        assert(l.node_type.spec_code() < 10);
    } else if 0x8000_0000_0000_0000 <= raw < 0xd000_0000_0000_0000 {
        let body = raw - 0x8000_0000_0000_0000;
        let code = body / 0x0800_0000_0000_0000;
        let rest = body % 0x0800_0000_0000_0000;
        let layout = if code == 0 {
            NodeType::Node4
        } else if code == 1 {
            NodeType::Node16
        } else if code == 2 {
            NodeType::Node48
        } else if code == 3 {
            NodeType::Node256
        } else if code == 4 {
            NodeType::Bucket
        } else if code == 5 {
            NodeType::CharNode4
        } else if code == 6 {
            NodeType::CharNode16
        } else if code == 7 {
            NodeType::CharNode48
        } else if code == 8 {
            NodeType::CharBucket
        } else {
            NodeType::U64Node
        };
        let l = DiskLocation {
            block_id: (rest / 0x1_0000_0000) as u32,
            offset: (rest % 0x1_0000_0000) as u32,
            node_type: layout,
        };
        assert(SwizzledPtr::encoded(l) == pointer.raw);
        assert(l.block_id < BLOCK_LIMIT);
    }
}

/// Whatever the encoding, a token comes back from its unit, two units are the same edge
/// exactly if they are equal, and they have the same rank exactly then.
pub proof fn tokens_come_back<K: KeyEncoding>(
    token: K::Token,
    unit: K::Unit,
    back: Option<K::Token>,
    other: K::Unit,
    same: bool,
    rank: u64,
    other_rank: u64,
)
    requires
        call_ensures(K::token_to_unit, (token,), unit),
        call_ensures(K::unit_to_token, (unit,), back),
        call_ensures(same_unit::<K>, (unit, other), same),
        call_ensures(K::unit_rank, (unit,), rank),
        call_ensures(K::unit_rank, (other,), other_rank),
    ensures
        back == Some(token),
        same <==> unit == other,
        rank == other_rank <==> unit == other,
{
    match back {
        Some(t) => {
            K::token_injective(t, token);
        },
        None => {
            assert(K::token_unit(token) == unit);
        },
    }
    if rank == other_rank {
        K::rank_injective(unit, other);
    }
}

/// Every character is a Unicode scalar value.
proof fn lemma_char(c: char)
    ensures
        c as u32 as int == c as int,
        (c as u32) < 0xd800 || (0xe000 <= c as u32 && c as u32 <= 0x10_ffff),
{
}

/// Units are ordered as the numbers that they are, and every number stands for a token
/// but those that are no characters.
pub proof fn units_are_ordered_as_numbers(
    byte: u8,
    byte_rank: u64,
    byte_token: Option<u8>,
    code: u32,
    code_rank: u64,
    code_token: Option<char>,
    word: u64,
    word_rank: u64,
    word_token: Option<u64>,
)
    requires
        call_ensures(ByteKey::unit_rank, (byte,), byte_rank),
        call_ensures(ByteKey::unit_to_token, (byte,), byte_token),
        call_ensures(CharKey::unit_rank, (code,), code_rank),
        call_ensures(CharKey::unit_to_token, (code,), code_token),
        call_ensures(U64Key::unit_rank, (word,), word_rank),
        call_ensures(U64Key::unit_to_token, (word,), word_token),
    ensures
        byte_rank == byte as int,
        byte_token == Some(byte),
        code_rank == code as int,
        code_token matches Some(c) ==> c as int == code as int,
        code_token is None <==> (0xd800 <= code <= 0xdfff || code > 0x10_ffff),
        word_rank == word,
        word_token == Some(word),
{
    assert(ByteKey::token_unit(byte) == byte);
    assert(U64Key::token_unit(word) == word);
    match code_token {
        Some(c) => {
            lemma_char(c);
            assert(CharKey::token_unit(c) == code);
        },
        None => {
            if code < 0xd800 || (0xe000 <= code && code <= 0x10_ffff) {
                let c = code as char;
                assert(CharKey::token_unit(c) == code);
            }
        },
    }
}

} // verus!
