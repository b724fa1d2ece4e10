//! Flag names, zero-terminated strings and path handling.

use crate::bytes::string_from_utf8_lossy;
use crate::format::{
    CHUNK_ALL_FLAGS, CHUNK_BZIP, CHUNK_COMBUF, CHUNK_COPYCOMP, CHUNK_DZ, CHUNK_JPEG, CHUNK_LZMA,
    CHUNK_MP3, CHUNK_RANDOMACCESS, CHUNK_ZERO, CHUNK_ZLIB,
};
use crate::layout::first_nul;
use crate::reader::{find_nul, is_decoding};
use crate::text::same_text;
use vstd::prelude::*;
use vstd::slice::slice_subrange;

verus! {

/// How many flags have a name.
pub const FLAG_COUNT: usize = 10;

/// The bit of the flag with index `i` in the table of names.
pub open spec fn flag_bit(i: int) -> u16 {
    if i == 0 {
        CHUNK_COMBUF
    } else if i == 1 {
        CHUNK_DZ
    } else if i == 2 {
        CHUNK_ZLIB
    } else if i == 3 {
        CHUNK_BZIP
    } else if i == 4 {
        CHUNK_MP3
    } else if i == 5 {
        CHUNK_JPEG
    } else if i == 6 {
        CHUNK_ZERO
    } else if i == 7 {
        CHUNK_COPYCOMP
    } else if i == 8 {
        CHUNK_LZMA
    } else {
        CHUNK_RANDOMACCESS
    }
}

/// The name of the flag with index `i` in the table of names.
pub open spec fn flag_name(i: int) -> Seq<char> {
    if i == 0 {
        "COMBUF"@
    } else if i == 1 {
        "DZ_RANGE"@
    } else if i == 2 {
        "ZLIB"@
    } else if i == 3 {
        "BZIP"@
    } else if i == 4 {
        "MP3"@
    } else if i == 5 {
        "JPEG"@
    } else if i == 6 {
        "ZERO"@
    } else if i == 7 {
        "COPY"@
    } else if i == 8 {
        "LZMA"@
    } else {
        "RANDOM_ACCESS"@
    }
}

/// Entry `i` of the table of flags and their names.
pub fn flag_mapping(i: usize) -> (r: (u16, &'static str))
    requires
        i < FLAG_COUNT,
    ensures
        r.0 == flag_bit(i as int),
        r.1@ == flag_name(i as int),
{
    if i == 0 {
        (CHUNK_COMBUF, "COMBUF")
    } else if i == 1 {
        (CHUNK_DZ, "DZ_RANGE")
    } else if i == 2 {
        (CHUNK_ZLIB, "ZLIB")
    } else if i == 3 {
        (CHUNK_BZIP, "BZIP")
    } else if i == 4 {
        (CHUNK_MP3, "MP3")
    } else if i == 5 {
        (CHUNK_JPEG, "JPEG")
    } else if i == 6 {
        (CHUNK_ZERO, "ZERO")
    } else if i == 7 {
        (CHUNK_COPYCOMP, "COPY")
    } else if i == 8 {
        (CHUNK_LZMA, "LZMA")
    } else {
        (CHUNK_RANDOMACCESS, "RANDOM_ACCESS")
    }
}

/// The names of the flags of `bits` among the first `n` of the table, in
/// table order.
pub open spec fn names_upto(bits: u16, n: nat) -> Seq<Seq<char>>
    decreases n,
{
    if n == 0 {
        Seq::empty()
    } else if bits & flag_bit(n - 1) != 0 {
        names_upto(bits, (n - 1) as nat).push(flag_name(n - 1))
    } else {
        names_upto(bits, (n - 1) as nat)
    }
}

/// The names that stand for flag word `bits`: one name for each known bit,
/// in table order; a word without any known bit reads as a plain copy.
pub open spec fn flag_names(bits: u16) -> Seq<Seq<char>> {
    if bits & CHUNK_ALL_FLAGS == 0 {
        seq!["COPY"@]
    } else {
        names_upto(bits, FLAG_COUNT as nat)
    }
}

/// The texts of a list of strings.
pub open spec fn texts(names: Seq<String>) -> Seq<Seq<char>> {
    names.map_values(|s: String| s@)
}

/// The names of the flags that are set in `bits`.
pub fn decode_flags(bits: u16) -> (list: Vec<String>)
    ensures
        texts(list@) == flag_names(bits),
{
    let mut list: Vec<String> = Vec::new();
    if bits & CHUNK_ALL_FLAGS == 0 {
        list.push(String::from_str("COPY"));
        assert(texts(list@) =~= flag_names(bits));
        return list;
    }
    let mut i: usize = 0;
    assert(texts(list@) =~= names_upto(bits, 0));
    while i < FLAG_COUNT
        invariant
            i <= FLAG_COUNT,
            texts(list@) == names_upto(bits, i as nat),
        decreases FLAG_COUNT - i,
    {
        let (flag, name) = flag_mapping(i);
        if bits & flag != 0 {
            let ghost before = list@;
            list.push(String::from_str(name));
            assert(texts(list@) =~= texts(before).push(flag_name(i as int)));
        }
        i += 1;
    }
    list
}

/// The bit that `name` stands for among the first `n` flags of the table,
/// or 0 where it is none of their names.
pub open spec fn bit_named_upto(name: Seq<char>, n: nat) -> u16
    decreases n,
{
    if n == 0 {
        0
    } else if bit_named_upto(name, (n - 1) as nat) != 0 {
        bit_named_upto(name, (n - 1) as nat)
    } else if flag_name(n - 1) == name {
        flag_bit(n - 1)
    } else {
        0
    }
}

/// The bit that `name` stands for, or 0 where it is not the name of a flag.
pub open spec fn bit_named(name: Seq<char>) -> u16 {
    bit_named_upto(name, FLAG_COUNT as nat)
}

/// The flag word made of the bits that `names` stand for.
pub open spec fn flag_bits(names: Seq<Seq<char>>) -> u16
    decreases names.len(),
{
    if names.len() == 0 {
        0
    } else {
        flag_bits(names.drop_last()) | bit_named(names.last())
    }
}

/// The bit that `name` stands for, or 0 where it is not the name of a flag.
pub fn flag_for_name(name: &str) -> (bit: u16)
    ensures
        bit == bit_named(name@),
{
    let mut i: usize = 0;
    while i < FLAG_COUNT
        invariant
            i <= FLAG_COUNT,
            bit_named_upto(name@, i as nat) == 0,
        decreases FLAG_COUNT - i,
    {
        let (flag, candidate) = flag_mapping(i);
        if same_text(candidate, name) {
            assert(bit_named_upto(name@, (i + 1) as nat) == flag);
            proof {
                lemma_bit_named_stays(name@, (i + 1) as nat, FLAG_COUNT as nat);
            }
            return flag;
        }
        i += 1;
    }
    0
}

/// Once a name has been found in the table, looking further changes nothing.
pub proof fn lemma_bit_named_stays(name: Seq<char>, n: nat, m: nat)
    requires
        n <= m,
        bit_named_upto(name, n) != 0,
    ensures
        bit_named_upto(name, m) == bit_named_upto(name, n),
    decreases m,
{
    if n < m {
        lemma_bit_named_stays(name, n, (m - 1) as nat);
    }
}

/// The flag word that a list of flag names stands for. Names that are not
/// in the table are passed over.
pub fn encode_flags(flags_vec: &[String]) -> (bits: u16)
    ensures
        bits == flag_bits(texts(flags_vec@)),
{
    let mut res: u16 = 0;
    let mut i: usize = 0;
    let ghost names = texts(flags_vec@);
    assert(names.take(0) =~= Seq::empty());
    while i < flags_vec.len()
        invariant
            i <= flags_vec@.len(),
            names == texts(flags_vec@),
            res == flag_bits(names.take(i as int)),
        decreases flags_vec@.len() - i,
    {
        let bit = flag_for_name(flags_vec[i].as_str());
        proof {
            assert(names.take(i + 1).drop_last() =~= names.take(i as int));
            assert(names.take(i + 1).last() == flags_vec@[i as int]@);
        }
        res = res | bit;
        i += 1;
    }
    assert(names.take(flags_vec@.len() as int) =~= names);
    res
}

/// The bits of the first `n` flags of the table.
pub open spec fn mask_upto(n: nat) -> u16
    decreases n,
{
    if n == 0 {
        0
    } else {
        mask_upto((n - 1) as nat) | flag_bit(n - 1)
    }
}

/// No two flags share a name.
pub proof fn lemma_flag_names_distinct(i: int, j: int)
    requires
        0 <= i < FLAG_COUNT,
        0 <= j < FLAG_COUNT,
        flag_name(i) == flag_name(j),
    ensures
        i == j,
{
    reveal_strlit("COMBUF");
    reveal_strlit("DZ_RANGE");
    reveal_strlit("ZLIB");
    reveal_strlit("BZIP");
    reveal_strlit("MP3");
    reveal_strlit("JPEG");
    reveal_strlit("ZERO");
    reveal_strlit("COPY");
    reveal_strlit("LZMA");
    reveal_strlit("RANDOM_ACCESS");
    assert(flag_name(0).len() == 6);
    assert(flag_name(1).len() == 8);
    assert(flag_name(2).len() == 4 && flag_name(2)[0] == 'Z' && flag_name(2)[1] == 'L');
    assert(flag_name(3).len() == 4 && flag_name(3)[0] == 'B');
    assert(flag_name(4).len() == 3);
    assert(flag_name(5).len() == 4 && flag_name(5)[0] == 'J');
    assert(flag_name(6).len() == 4 && flag_name(6)[0] == 'Z' && flag_name(6)[1] == 'E');
    assert(flag_name(7).len() == 4 && flag_name(7)[0] == 'C');
    assert(flag_name(8).len() == 4 && flag_name(8)[0] == 'L');
    assert(flag_name(9).len() == 13);
}

/// A name of the table is not found before its place.
proof fn lemma_name_not_found_before(i: int, n: nat)
    requires
        0 <= i < FLAG_COUNT,
        n <= i,
    ensures
        bit_named_upto(flag_name(i), n) == 0,
    decreases n,
{
    if n > 0 {
        lemma_name_not_found_before(i, (n - 1) as nat);
        if flag_name(n - 1) == flag_name(i) {
            lemma_flag_names_distinct(n - 1, i);
        }
    }
}

/// The name of a flag stands for the bit of that flag.
pub proof fn lemma_bit_named_of_flag_name(i: int)
    requires
        0 <= i < FLAG_COUNT,
    ensures
        bit_named(flag_name(i)) == flag_bit(i),
{
    lemma_name_not_found_before(i, i as nat);
    assert(bit_named_upto(flag_name(i), (i + 1) as nat) == flag_bit(i));
    lemma_bit_named_stays(flag_name(i), (i + 1) as nat, FLAG_COUNT as nat);
}

/// A flag word shares either nothing or the whole bit with a flag.
proof fn lemma_flag_is_one_bit(x: u16, k: int)
    requires
        0 <= k < FLAG_COUNT,
    ensures
        x & flag_bit(k) == 0 || x & flag_bit(k) == flag_bit(k),
{
    assert(x & 0x1u16 == 0 || x & 0x1u16 == 0x1u16) by (bit_vector);
    assert(x & 0x4u16 == 0 || x & 0x4u16 == 0x4u16) by (bit_vector);
    assert(x & 0x8u16 == 0 || x & 0x8u16 == 0x8u16) by (bit_vector);
    assert(x & 0x10u16 == 0 || x & 0x10u16 == 0x10u16) by (bit_vector);
    assert(x & 0x20u16 == 0 || x & 0x20u16 == 0x20u16) by (bit_vector);
    assert(x & 0x40u16 == 0 || x & 0x40u16 == 0x40u16) by (bit_vector);
    assert(x & 0x80u16 == 0 || x & 0x80u16 == 0x80u16) by (bit_vector);
    assert(x & 0x100u16 == 0 || x & 0x100u16 == 0x100u16) by (bit_vector);
    assert(x & 0x200u16 == 0 || x & 0x200u16 == 0x200u16) by (bit_vector);
    assert(x & 0x400u16 == 0 || x & 0x400u16 == 0x400u16) by (bit_vector);
}

/// The names of the flags of a word among the first `n` of the table
/// stand for exactly those bits of the word.
pub proof fn lemma_flag_bits_of_names(bits: u16, n: nat)
    requires
        n <= FLAG_COUNT,
    ensures
        flag_bits(names_upto(bits, n)) == bits & mask_upto(n),
    decreases n,
{
    if n == 0 {
        assert(bits & 0u16 == 0u16) by (bit_vector);
    } else {
        lemma_flag_bits_of_names(bits, (n - 1) as nat);
        let before = names_upto(bits, (n - 1) as nat);
        let m = mask_upto((n - 1) as nat);
        let c = flag_bit(n - 1);
        let x = bits;
        assert((x & m) | (x & c) == x & (m | c)) by (bit_vector);
        lemma_flag_is_one_bit(bits, n - 1);
        if bits & c != 0 {
            lemma_bit_named_of_flag_name(n - 1);
            assert(before.push(flag_name(n - 1)).drop_last() =~= before);
        } else {
            let y = x & m;
            assert(y | 0u16 == y) by (bit_vector);
        }
    }
}

/// Two different flags share no bit.
pub proof fn lemma_flags_disjoint(i: int, j: int)
    requires
        0 <= i < FLAG_COUNT,
        0 <= j < FLAG_COUNT,
        i != j,
    ensures
        flag_bit(i) & flag_bit(j) == 0,
{
    let a = flag_bit(i);
    let b = flag_bit(j);
    lemma_flag_is_one_bit(a, j);
    lemma_flag_is_one_bit(b, i);
    assert(a & b == b & a) by (bit_vector);
}

/// A flag word that is the bit of one flag has the name of that flag, and
/// no other.
pub proof fn lemma_names_of_one_flag(i: int, n: nat)
    requires
        0 <= i < FLAG_COUNT,
        n <= FLAG_COUNT,
    ensures
        names_upto(flag_bit(i), n) == if n <= i {
            Seq::<Seq<char>>::empty()
        } else {
            seq![flag_name(i)]
        },
    decreases n,
{
    if n > 0 {
        lemma_names_of_one_flag(i, (n - 1) as nat);
        if n - 1 != i {
            lemma_flags_disjoint(i, n - 1);
        } else {
            let x = flag_bit(i);
            lemma_flag_is_one_bit(x, i);
            assert(x & x == x) by (bit_vector);
            assert(Seq::<Seq<char>>::empty().push(flag_name(i)) =~= seq![flag_name(i)]);
        }
    }
}

/// The name of a flag stands for its bit, and the bit is named by the
/// name: a flag word of one flag comes back from its first name.
pub proof fn lemma_one_flag_comes_back(i: int)
    requires
        0 <= i < FLAG_COUNT,
    ensures
        flag_names(flag_bit(i)) == seq![flag_name(i)],
        bit_named(flag_names(flag_bit(i))[0]) == flag_bit(i),
{
    let x = flag_bit(i);
    lemma_names_of_one_flag(i, FLAG_COUNT as nat);
    lemma_bit_named_of_flag_name(i);
    lemma_mask_of_all_flags();
    lemma_flag_is_one_bit(x, i);
    assert(x & x == x) by (bit_vector);
    assert(x & 0x7FDu16 != 0) by {
        assert(x == 0x1u16 || x == 0x4u16 || x == 0x8u16 || x == 0x10u16 || x == 0x20u16 || x
            == 0x40u16 || x == 0x80u16 || x == 0x100u16 || x == 0x200u16 || x == 0x400u16);
        assert((x == 0x1u16 || x == 0x4u16 || x == 0x8u16 || x == 0x10u16 || x == 0x20u16 || x
            == 0x40u16 || x == 0x80u16 || x == 0x100u16 || x == 0x200u16 || x == 0x400u16) ==> x
            & 0x7FDu16 != 0) by (bit_vector);
    }
    if i == 7 {
        assert(seq![flag_name(7)] =~= seq!["COPY"@]);
    }
}

/// The bits of all flags of the table together.
proof fn lemma_mask_of_all_flags()
    ensures
        mask_upto(FLAG_COUNT as nat) == CHUNK_ALL_FLAGS,
{
    assert(mask_upto(0) == 0);
    assert(0u16 | 0x1u16 == 0x1u16) by (bit_vector);
    assert(mask_upto(1) == 0x1);
    assert(0x1u16 | 0x4u16 == 0x5u16) by (bit_vector);
    assert(mask_upto(2) == 0x5);
    assert(0x5u16 | 0x8u16 == 0xDu16) by (bit_vector);
    assert(mask_upto(3) == 0xD);
    assert(0xDu16 | 0x10u16 == 0x1Du16) by (bit_vector);
    assert(mask_upto(4) == 0x1D);
    assert(0x1Du16 | 0x20u16 == 0x3Du16) by (bit_vector);
    assert(mask_upto(5) == 0x3D);
    assert(0x3Du16 | 0x40u16 == 0x7Du16) by (bit_vector);
    assert(mask_upto(6) == 0x7D);
    assert(0x7Du16 | 0x80u16 == 0xFDu16) by (bit_vector);
    assert(mask_upto(7) == 0xFD);
    assert(0xFDu16 | 0x100u16 == 0x1FDu16) by (bit_vector);
    assert(mask_upto(8) == 0x1FD);
    assert(0x1FDu16 | 0x200u16 == 0x3FDu16) by (bit_vector);
    assert(mask_upto(9) == 0x3FD);
    assert(0x3FDu16 | 0x400u16 == 0x7FDu16) by (bit_vector);
    assert(mask_upto(10) == 0x7FD);
}

/// Encoding the names that a flag word decodes to gives the known bits of
/// the word back; a word without a known bit, which reads as a plain copy,
/// comes back as the copy flag.
pub proof fn lemma_encode_undoes_decode(bits: u16)
    ensures
        flag_bits(flag_names(bits)) == if bits & CHUNK_ALL_FLAGS == 0 {
            CHUNK_COPYCOMP
        } else {
            bits & CHUNK_ALL_FLAGS
        },
{
    if bits & CHUNK_ALL_FLAGS == 0 {
        let names = seq!["COPY"@];
        assert(names.drop_last() =~= Seq::<Seq<char>>::empty());
        assert(names.last() == flag_name(7));
        assert(flag_bits(Seq::<Seq<char>>::empty()) == 0);
        lemma_bit_named_of_flag_name(7);
        assert(0u16 | 0x100u16 == 0x100u16) by (bit_vector);
    } else {
        lemma_flag_bits_of_names(bits, FLAG_COUNT as nat);
        lemma_mask_of_all_flags();
    }
}

/// Reads the zero-terminated string that starts at `pos` and decodes it as
/// UTF-8, replacing what is not valid. Gives the text and the index behind
/// the terminator. Where no terminator is left, the string runs to the end
/// of the bytes; at or behind the end it is empty and the index is `pos`.
pub fn read_null_term_string(data: &[u8], pos: usize) -> (r: (String, usize))
    ensures
        pos < data@.len() ==> is_decoding(
            r.0@,
            data@.subrange(pos as int, first_nul(data@, pos as int)),
        ),
        pos < data@.len() ==> r.1 == if first_nul(data@, pos as int) < data@.len() {
            first_nul(data@, pos as int) + 1
        } else {
            data@.len() as int
        },
        pos >= data@.len() ==> r.0@ == Seq::<char>::empty() && r.1 == pos,
{
    if pos >= data.len() {
        return (String::new(), pos);
    }
    let n = find_nul(data, pos);
    let text = string_from_utf8_lossy(slice_subrange(data, pos, n));
    if n < data.len() {
        (text, n + 1)
    } else {
        (text, n)
    }
}

} // verus!
