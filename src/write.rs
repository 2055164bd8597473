use crate::common::{class_bits, structure_bit, TagClass, TagStructure};
use crate::structure::{trees_of, StructureTag, Tree, PL};
use byteorder::{BigEndian, ByteOrder};
use vstd::prelude::*;

verus! {

broadcast use vstd::std_specs::vec::group_vec_axioms;

/// The base-128 groups of `n`, most significant first, each with its high
/// bit set; nothing for zero.
pub open spec fn continued_groups(n: nat) -> Seq<u8>
    decreases n,
{
    if n == 0 {
        seq![]
    } else {
        continued_groups(n / 128) + seq![(n % 128 + 128) as u8]
    }
}

/// The continuation bytes of an extended tag number: its base-128 groups,
/// most significant first, the high bit set on all but the last.
pub open spec fn tag_extension(id: nat) -> Seq<u8> {
    continued_groups(id / 128) + seq![(id % 128) as u8]
}

/// The identifier octets: class, structure and tag number, inline up to 30,
/// extended above.
pub open spec fn header_bytes(class: TagClass, structure: TagStructure, id: u64) -> Seq<u8> {
    let lead = class_bits(class) * 64 + structure_bit(structure) * 32;
    if id <= 30 {
        seq![(lead + id) as u8]
    } else {
        seq![(lead + 31) as u8] + tag_extension(id as nat)
    }
}

/// 256 to the power `k`.
pub open spec fn pow256(k: nat) -> nat
    decreases k,
{
    if k == 0 {
        1
    } else {
        256 * pow256((k - 1) as nat)
    }
}

/// The low `k` bytes of `n`, most significant first.
pub open spec fn be_bytes(n: nat, k: nat) -> Seq<u8>
    decreases k,
{
    if k == 0 {
        seq![]
    } else {
        be_bytes(n / 256, (k - 1) as nat) + seq![(n % 256) as u8]
    }
}

/// The least number of bytes (at least one) that hold `n` in big-endian order.
pub open spec fn byte_count(n: nat) -> nat
    decreases n,
{
    if n < 256 {
        1
    } else {
        1 + byte_count(n / 256)
    }
}

/// The definite-length field: one byte below 128, else `0x80 | count`
/// followed by `count` big-endian bytes.
pub open spec fn length_bytes(len: nat) -> Seq<u8> {
    if len < 128 {
        seq![len as u8]
    } else {
        seq![(128 + byte_count(len)) as u8] + be_bytes(len, byte_count(len))
    }
}

/// The encodings of the first `n` trees of `ts`, concatenated in order.
pub open spec fn encode_prefix(ts: Seq<Tree>, n: nat) -> Seq<u8>
    decreases ts, n,
{
    if n == 0 || n > ts.len() {
        seq![]
    } else {
        encode_prefix(ts, (n - 1) as nat) + encoding(ts[n - 1])
    }
}

/// The encodings of all the trees of `ts`, concatenated in order.
pub open spec fn encode_all(ts: Seq<Tree>) -> Seq<u8> {
    encode_prefix(ts, ts.len())
}

/// The BER encoding of a tree.
pub open spec fn encoding(t: Tree) -> Seq<u8>
    decreases t, 0nat,
{
    match t {
        Tree::Prim(c, id, b) => header_bytes(c, TagStructure::Primitive, id) + length_bytes(b.len())
            + b,
        Tree::Cons(c, id, ts) => {
            let body = encode_prefix(ts, ts.len());
            header_bytes(c, TagStructure::Constructed, id) + length_bytes(body.len()) + body
        },
    }
}

/// Eight bytes hold exactly the 64-bit numbers.
pub(crate) proof fn lemma_pow256_8()
    ensures
        pow256(8) == 0x1_0000_0000_0000_0000,
{
    reveal_with_fuel(pow256, 9);
}

/// A number below `256^k` takes at most `k` bytes, and fits in the bytes it takes.
pub(crate) proof fn lemma_byte_count_bound(n: nat, k: nat)
    requires
        1 <= k,
        n < pow256(k),
    ensures
        byte_count(n) <= k,
        n < pow256(byte_count(n)),
    decreases n,
{
    if n >= 256 {
        assert(k > 1) by {
            if k == 1 {
                reveal_with_fuel(pow256, 2);
            }
        }
        assert(n / 256 < pow256((k - 1) as nat));
        lemma_byte_count_bound(n / 256, (k - 1) as nat);
    } else {
        reveal_with_fuel(pow256, 2);
    }
}

/// Relies on byteorder's `BigEndian::write_uint`: it writes the low `nbytes`
/// bytes of `n`, most significant first; it panics unless `n` fits in
/// `nbytes` bytes and `1 <= nbytes <= 8`.
#[verifier::external_body]
fn be_uint(n: u64, nbytes: usize) -> (r: Vec<u8>)
    requires
        1 <= nbytes <= 8,
        n < pow256(nbytes as nat),
    ensures
        r@ == be_bytes(n as nat, nbytes as nat),
{
    let mut out = vec![0u8; nbytes];
    BigEndian::write_uint(&mut out, n, nbytes);
    out
}

/// Appends the base-128 groups of `n`, each with its high bit set.
fn write_groups(w: &mut Vec<u8>, n: u64)
    ensures
        final(w)@ == old(w)@ + continued_groups(n as nat),
    decreases n,
{
    if n > 0 {
        write_groups(w, n / 128);
        w.push((n % 128) as u8 + 128);
        assert(final(w)@ =~= old(w)@ + continued_groups(n as nat));
    }
}

/// Appends the identifier octets of a value: the class, the structure bit
/// and the tag number, in extended form when it exceeds 30.
pub fn write_type(w: &mut Vec<u8>, class: TagClass, structure: TagStructure, id: u64)
    ensures
        final(w)@ == old(w)@ + header_bytes(class, structure, id),
{
    let lead: u8 = class.bits() * 64 + structure.bit() * 32;
    if id > 30 {
        w.push(lead + 0x1F);
        write_groups(w, id / 128);
        w.push((id % 128) as u8);
    } else {
        w.push(lead + id as u8);
    }
    assert(final(w)@ =~= old(w)@ + header_bytes(class, structure, id));
}

/// Appends the definite-length field for `length`, in short form below 128
/// and in the shortest long form otherwise.
pub fn write_length(w: &mut Vec<u8>, length: usize)
    ensures
        final(w)@ == old(w)@ + length_bytes(length as nat),
{
    if length < 128 {
        w.push(length as u8);
    } else {
        let n: u64 = length as u64;
        proof {
            lemma_pow256_8();
            lemma_byte_count_bound(n as nat, 8);
        }
        let mut count: usize = 1;
        let mut rest: u64 = n;
        while rest >= 256
            invariant
                1 <= count <= byte_count(n as nat),
                count + byte_count(rest as nat) == byte_count(n as nat) + 1,
                byte_count(n as nat) <= 8,
            decreases rest,
        {
            assert(byte_count(rest as nat) == 1 + byte_count((rest / 256) as nat));
            assert(byte_count((rest / 256) as nat) >= 1);
            count = count + 1;
            rest = rest / 256;
        }
        assert(count == byte_count(n as nat));
        w.push(count as u8 + 0x80);
        let tail = be_uint(n, count);
        let mut i: usize = 0;
        let ghost start = w@;
        while i < tail.len()
            invariant
                i <= tail@.len(),
                w@ == start + tail@.subrange(0, i as int),
            decreases tail.len() - i,
        {
            w.push(tail[i]);
            i = i + 1;
            assert(w@ =~= start + tail@.subrange(0, i as int));
        }
        assert(tail@.subrange(0, i as int) =~= tail@);
    }
    assert(final(w)@ =~= old(w)@ + length_bytes(length as nat));
}

/// Appends every byte of `src`.
fn append_bytes(w: &mut Vec<u8>, src: &Vec<u8>)
    ensures
        final(w)@ == old(w)@ + src@,
{
    let ghost start = w@;
    let mut i: usize = 0;
    while i < src.len()
        invariant
            i <= src@.len(),
            w@ == start + src@.subrange(0, i as int),
        decreases src.len() - i,
    {
        w.push(src[i]);
        i = i + 1;
        assert(w@ =~= start + src@.subrange(0, i as int));
    }
    assert(src@.subrange(0, i as int) =~= src@);
}

/// Appends the encoding of one node.
fn encode_node(buf: &mut Vec<u8>, tag: &StructureTag)
    ensures
        final(buf)@ == old(buf)@ + encoding(tag@),
    decreases tag,
{
    match &tag.payload {
        PL::P(v) => {
            write_type(buf, tag.class, TagStructure::Primitive, tag.id);
            write_length(buf, v.len());
            append_bytes(buf, v);
        },
        PL::C(tags) => {
            write_type(buf, tag.class, TagStructure::Constructed, tag.id);
            let ghost trees = trees_of(tags@);
            let mut tmp: Vec<u8> = Vec::new();
            let mut i: usize = 0;
            while i < tags.len()
                invariant
                    i <= tags@.len(),
                    trees == trees_of(tags@),
                    tag.payload == PL::C(*tags),
                    tmp@ == encode_prefix(trees, i as nat),
                decreases tags.len() - i,
            {
                proof {
                    assert(decreases_to!(tags => tags@[i as int]));
                    assert(decreases_to!(tag.payload => tag.payload->C_0));
                    assert(decreases_to!(*tag => tags@[i as int]));
                }
                encode_node(&mut tmp, &tags[i]);
                assert(trees[i as int] == tags@[i as int]@);
                i = i + 1;
            }
            write_length(buf, tmp.len());
            append_bytes(buf, &tmp);
        },
    }
    assert(final(buf)@ =~= old(buf)@ + encoding(tag@));
}

/// Appends the BER encoding of `tag` to `buf`: the identifier octets, the
/// definite length of the payload, and the payload, where a constructed
/// payload is the encodings of its children in order.
pub fn encode_into(buf: &mut Vec<u8>, tag: StructureTag)
    ensures
        final(buf)@ == old(buf)@ + encoding(tag@),
{
    encode_node(buf, &tag);
}

/// The BER encoding of `tag`.
pub fn encode(tag: &StructureTag) -> (r: Vec<u8>)
    ensures
        r@ == encoding(tag@),
{
    let mut buf: Vec<u8> = Vec::new();
    encode_node(&mut buf, tag);
    assert(buf@ =~= encoding(tag@));
    buf
}

} // verus!
