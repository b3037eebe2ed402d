use vstd::prelude::*;

verus! {

/// The number of bytes of the leading varint group of `bytes`: everything up to
/// and including the first byte whose high bit is clear, or all of `bytes`
/// where no such byte exists.
pub open spec fn group_len(bytes: Seq<u8>) -> nat
    decreases bytes.len(),
{
    if bytes.len() == 0 {
        0
    } else if bytes[0] < 0x80 {
        1
    } else {
        1 + group_len(bytes.skip(1))
    }
}

/// The number that the bytes of a group spell: the low seven bits of each byte
/// are one base-128 digit, least significant digit first.
pub open spec fn group_value(group: Seq<u8>) -> nat
    decreases group.len(),
{
    if group.len() == 0 {
        0
    } else {
        (group[0] % 128) as nat + 128 * group_value(group.skip(1))
    }
}

/// A number reduced to the 128 bits that the decoder keeps.
pub open spec fn low_128_bits(n: nat) -> u128 {
    (n % 0x1_0000_0000_0000_0000_0000_0000_0000_0000nat) as u128
}

/// The value decoded from the leading varint group of `bytes`. Digits that lie
/// beyond bit 127 are dropped; an empty input decodes to zero.
pub open spec fn varint_value(bytes: Seq<u8>) -> u128 {
    low_128_bits(group_value(bytes.take(group_len(bytes) as int)))
}

/// What is left of `bytes` after its leading varint group.
pub open spec fn after_varint(bytes: Seq<u8>) -> Seq<u8> {
    bytes.skip(group_len(bytes) as int)
}

/// True for a complete, single varint group: it is not empty, its last byte has
/// the high bit clear, and every byte before the last has it set.
pub open spec fn is_single_group(group: Seq<u8>) -> bool {
    &&& group.len() > 0
    &&& group.last() < 0x80
    &&& forall|i: int| 0 <= i < group.len() - 1 ==> #[trigger] group[i] >= 0x80
}

proof fn lemma_shift_in(value: u128, byte: u8)
    ensures
        (value << 7) | ((byte & 0x7f) as u128) == low_128_bits(((byte % 128) + 128 * value) as nat),
{
    assert((value << 7) | ((byte & 0x7f) as u128) == ((byte % 128) + 128 * value)
        % 0x1_0000_0000_0000_0000_0000_0000_0000_0000int) by (bit_vector);
}

/// Splits the leading varint group off `buffer` and decodes it.
///
/// Never fails: a group that runs to the end of the buffer without a
/// terminating byte is taken whole, and an empty buffer yields zero.
pub fn take_varint(buffer: &[u8]) -> (r: (u128, &[u8]))
    ensures
        r.0 == varint_value(buffer@),
        r.1@ == after_varint(buffer@),
{
    let mut end: usize = 0;
    assert(buffer@.skip(0) =~= buffer@);
    while end < buffer.len() && buffer[end] >= 0x80
        invariant
            end <= buffer.len(),
            group_len(buffer@) == end + group_len(buffer@.skip(end as int)),
        decreases buffer.len() - end,
    {
        assert(buffer@.skip(end as int).skip(1) =~= buffer@.skip(end + 1));
        end += 1;
    }
    let n: usize = if end < buffer.len() {
        end + 1
    } else {
        end
    };
    let mut value: u128 = 0;
    let mut i: usize = n;
    while i > 0
        invariant
            i <= n <= buffer.len(),
            value == low_128_bits(group_value(buffer@.subrange(i as int, n as int))),
        decreases i,
    {
        i -= 1;
        proof {
            let modulus = 0x1_0000_0000_0000_0000_0000_0000_0000_0000int;
            let digit = (buffer[i as int] % 128) as int;
            let tail = buffer@.subrange(i + 1, n as int);
            assert(buffer@.subrange(i as int, n as int).skip(1) =~= tail);
            lemma_shift_in(value, buffer[i as int]);
            vstd::arithmetic::div_mod::lemma_mul_mod_noop_right(
                128,
                group_value(tail) as int,
                modulus,
            );
            vstd::arithmetic::div_mod::lemma_add_mod_noop_right(
                digit,
                (128 * group_value(tail)) as int,
                modulus,
            );
            vstd::arithmetic::div_mod::lemma_add_mod_noop_right(
                digit,
                128 * (value as int),
                modulus,
            );
        }
        value = (value << 7) | ((buffer[i] & 0x7f) as u128);
    }
    assert(buffer@.subrange(0, n as int) =~= buffer@.take(n as int));
    let rest = vstd::slice::slice_subrange(buffer, n, buffer.len());
    (value, rest)
}

/// A group of `n` bytes spells a number below 128 to the power `n`.
pub proof fn lemma_group_value_bound(group: Seq<u8>)
    ensures
        group_value(group) < vstd::arithmetic::power::pow(128, group.len()),
    decreases group.len(),
{
    vstd::arithmetic::power::lemma_pow0(128);
    if group.len() > 0 {
        let rest = group.skip(1);
        lemma_group_value_bound(rest);
        assert(vstd::arithmetic::power::pow(128, group.len()) == 128 * vstd::arithmetic::power::pow(
            128,
            rest.len(),
        )) by {
            reveal(vstd::arithmetic::power::pow);
        }
    }
}

/// Decoding a complete single group that is followed by any bytes yields the
/// number that the group spells, reduced to 128 bits, and leaves exactly the
/// bytes that follow the group.
pub proof fn lemma_take_single_group(group: Seq<u8>, tail: Seq<u8>)
    requires
        is_single_group(group),
    ensures
        group_len(group + tail) == group.len(),
        varint_value(group + tail) == low_128_bits(group_value(group)),
        after_varint(group + tail) == tail,
    decreases group.len(),
{
    let all = group + tail;
    if group.len() == 1 {
        assert(all[0] == group[0]);
    } else {
        assert(all[0] == group[0]);
        assert(all.skip(1) =~= group.skip(1) + tail);
        assert(group.skip(1).last() == group.last());
        assert forall|i: int| 0 <= i < group.skip(1).len() - 1 implies #[trigger] group.skip(1)[i]
            >= 0x80 by {
            assert(group.skip(1)[i] == group[i + 1]);
        }
        lemma_take_single_group(group.skip(1), tail);
    }
    assert(all.take(group.len() as int) =~= group);
    assert(all.skip(group.len() as int) =~= tail);
}

/// A complete single group of at most 18 bytes decodes to exactly the number it
/// spells: nothing is lost to the 128-bit limit.
pub proof fn lemma_short_group_is_exact(group: Seq<u8>, tail: Seq<u8>)
    requires
        is_single_group(group),
        group.len() <= 18,
    ensures
        varint_value(group + tail) == group_value(group),
{
    lemma_take_single_group(group, tail);
    lemma_group_value_bound(group);
    vstd::arithmetic::power::lemma_pow_increases(128, group.len(), 18);
    assert(vstd::arithmetic::power::pow(128, 18) == 0x4000_0000_0000_0000_0000_0000_0000_0000int)
        by {
        reveal_with_fuel(vstd::arithmetic::power::pow, 19);
    }
}

/// The leading group of `bytes` lies within `bytes`, and holds a byte where
/// `bytes` holds any.
pub proof fn lemma_group_len_bound(bytes: Seq<u8>)
    ensures
        group_len(bytes) <= bytes.len(),
        bytes.len() > 0 ==> group_len(bytes) >= 1,
    decreases bytes.len(),
{
    if bytes.len() > 0 && bytes[0] >= 0x80 {
        lemma_group_len_bound(bytes.skip(1));
    }
}

/// Decoding looks at the leading group only: cutting the bytes anywhere
/// behind the group changes neither the group nor the value, and shortens
/// what is left by what was cut.
pub proof fn lemma_group_of_prefix(bytes: Seq<u8>, n: int)
    requires
        group_len(bytes) <= n <= bytes.len(),
    ensures
        group_len(bytes.take(n)) == group_len(bytes),
        varint_value(bytes.take(n)) == varint_value(bytes),
        after_varint(bytes.take(n)) == after_varint(bytes).take(n - group_len(bytes)),
    decreases bytes.len(),
{
    let cut = bytes.take(n);
    if bytes.len() > 0 && n > 0 {
        assert(cut[0] == bytes[0]);
        if bytes[0] >= 0x80 {
            assert(cut.skip(1) =~= bytes.skip(1).take(n - 1));
            lemma_group_of_prefix(bytes.skip(1), n - 1);
        }
    }
    let g = group_len(bytes) as int;
    assert(cut.take(g) =~= bytes.take(g));
    assert(cut.skip(g) =~= bytes.skip(g).take(n - g));
}

} // verus!
