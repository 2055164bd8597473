use crate::common::{TagClass, TagStructure};
use crate::structure::{trees_of, StructureTag, Tree, PL};
use vstd::prelude::*;
use vstd::slice::slice_to_vec;

verus! {

broadcast use vstd::std_specs::vec::group_vec_axioms;

/// Why a byte sequence is not a well-formed BER value.
#[derive(Clone, Copy, PartialEq, Eq, Debug, Structural)]
pub enum DecodeError {
    /// Fewer bytes are left than a header, a length or a payload needs.
    TruncatedInput,
    /// An extended tag number does not fit in 64 bits.
    TagOverflow,
    /// A long-form length does not fit in 64 bits.
    LengthOverflow,
    /// The length byte is `0x80`: indefinite lengths are not supported.
    UnsupportedIndefiniteLength,
    /// A child runs past the end of its constructed parent's payload.
    TrailingBytesInConstructedValue,
}

/// The class whose two-bit field is `b`.
pub open spec fn class_of(b: nat) -> TagClass {
    if b == 0 {
        TagClass::Universal
    } else if b == 1 {
        TagClass::Application
    } else if b == 2 {
        TagClass::Context
    } else {
        TagClass::Private
    }
}

/// Reads the continuation bytes of an extended tag number from position `i`,
/// `acc` being the value of the groups already read: the tag number and the
/// position after its last byte.
pub open spec fn tag_groups(s: Seq<u8>, i: nat, acc: nat) -> Result<(u64, nat), DecodeError>
    decreases s.len() - i,
{
    if i >= s.len() {
        Err(DecodeError::TruncatedInput)
    } else {
        let v = (acc * 128 + s[i as int] % 128) as nat;
        if v > u64::MAX {
            Err(DecodeError::TagOverflow)
        } else if s[i as int] >= 128 {
            tag_groups(s, i + 1, v)
        } else {
            Ok((v as u64, i + 1))
        }
    }
}

/// Reads the identifier octets at the start of `s`: class, structure, tag
/// number and the position after them.
pub open spec fn parse_header(s: Seq<u8>) -> Result<(TagClass, TagStructure, u64, nat), DecodeError> {
    if s.len() == 0 {
        Err(DecodeError::TruncatedInput)
    } else {
        let b = s[0] as nat;
        let class = class_of(b / 64);
        let structure = if (b / 32) % 2 == 1 {
            TagStructure::Constructed
        } else {
            TagStructure::Primitive
        };
        if b % 32 < 31 {
            Ok((class, structure, (b % 32) as u64, 1))
        } else {
            match tag_groups(s, 1, 0) {
                Ok((id, j)) => Ok((class, structure, id, j)),
                Err(e) => Err(e),
            }
        }
    }
}

/// The unsigned big-endian number that `b` holds.
pub open spec fn be_value(b: Seq<u8>) -> nat
    decreases b.len(),
{
    if b.len() == 0 {
        0
    } else {
        (be_value(b.drop_last()) * 256 + b.last()) as nat
    }
}

/// Reads the length field at position `i`: the length and the position after
/// the field.
pub open spec fn parse_length(s: Seq<u8>, i: nat) -> Result<(nat, nat), DecodeError> {
    if i >= s.len() {
        Err(DecodeError::TruncatedInput)
    } else {
        let b = s[i as int];
        if b < 128 {
            Ok((b as nat, i + 1))
        } else if b == 128 {
            Err(DecodeError::UnsupportedIndefiniteLength)
        } else {
            let k = (b - 128) as nat;
            if i + 1 + k > s.len() {
                Err(DecodeError::TruncatedInput)
            } else {
                let v = be_value(s.subrange((i + 1) as int, (i + 1 + k) as int));
                if v > u64::MAX {
                    Err(DecodeError::LengthOverflow)
                } else {
                    Ok((v, i + 1 + k))
                }
            }
        }
    }
}

/// Reads the header and the length at the start of `s`: class, structure,
/// tag number, where the payload starts, and its declared length.
pub open spec fn parse_head(s: Seq<u8>) -> Result<(TagClass, TagStructure, u64, nat, nat), DecodeError> {
    match parse_header(s) {
        Err(e) => Err(e),
        Ok((c, st, id, h)) => match parse_length(s, h) {
            Err(e) => Err(e),
            Ok((len, p)) => Ok((c, st, id, p, len)),
        },
    }
}

/// Reads the whole of `s` as the payload of a constructed value: the children
/// in order.
pub open spec fn parse_children(s: Seq<u8>) -> Result<Seq<Tree>, DecodeError>
    decreases s.len(),
    via parse_children_decreases
{
    if s.len() == 0 {
        Ok(seq![])
    } else {
        match parse_head(s) {
            Err(e) => Err(e),
            Ok((c, st, id, p, len)) => {
                if p + len > s.len() {
                    Err(DecodeError::TrailingBytesInConstructedValue)
                } else {
                    let body = s.subrange(p as int, (p + len) as int);
                    let node = if st == TagStructure::Primitive {
                        Ok(Tree::Prim(c, id, body))
                    } else {
                        match parse_children(body) {
                            Ok(ts) => Ok(Tree::Cons(c, id, ts)),
                            Err(e) => Err(e),
                        }
                    };
                    match node {
                        Err(e) => Err(e),
                        Ok(t) => match parse_children(s.subrange((p + len) as int, s.len() as int)) {
                            Ok(ts) => Ok(seq![t] + ts),
                            Err(e) => Err(e),
                        },
                    }
                }
            },
        }
    }
}

/// Each step of reading children reads from a shorter sequence.
#[via_fn]
proof fn parse_children_decreases(s: Seq<u8>) {
    if s.len() > 0 {
        lemma_head_advances(s);
    }
}

/// Reads one value at the start of `s`: the tree and the number of bytes
/// that it takes.
pub open spec fn parse_value(s: Seq<u8>) -> Result<(Tree, nat), DecodeError> {
    match parse_head(s) {
        Err(e) => Err(e),
        Ok((c, st, id, p, len)) => {
            if p + len > s.len() {
                Err(DecodeError::TruncatedInput)
            } else {
                let body = s.subrange(p as int, (p + len) as int);
                if st == TagStructure::Primitive {
                    Ok((Tree::Prim(c, id, body), p + len))
                } else {
                    match parse_children(body) {
                        Ok(ts) => Ok((Tree::Cons(c, id, ts), p + len)),
                        Err(e) => Err(e),
                    }
                }
            }
        },
    }
}

/// Reading continuation groups consumes at least one byte.
pub(crate) proof fn lemma_groups_advance(s: Seq<u8>, i: nat, acc: nat)
    ensures
        tag_groups(s, i, acc) matches Ok((_, j)) ==> i < j <= s.len(),
    decreases s.len() - i,
{
    if i < s.len() {
        lemma_groups_advance(s, i + 1, (acc * 128 + s[i as int] % 128) as nat);
    }
}

/// Reading a header and a length consumes at least one byte.
proof fn lemma_head_advances(s: Seq<u8>)
    ensures
        parse_head(s) matches Ok((_, _, _, p, _)) ==> 1 <= p <= s.len(),
{
    lemma_groups_advance(s, 1, 0);
}

/// More big-endian bytes never make a smaller number.
proof fn lemma_be_value_grows(s: Seq<u8>, a: int, b: int, c: int)
    requires
        0 <= a <= b <= c <= s.len(),
    ensures
        be_value(s.subrange(a, b)) <= be_value(s.subrange(a, c)),
    decreases c - b,
{
    if b < c {
        lemma_be_value_grows(s, a, b, c - 1);
        assert(s.subrange(a, c).drop_last() =~= s.subrange(a, c - 1));
    }
}

/// Reads the continuation bytes of an extended tag number from `start`.
fn read_tag_groups(s: &[u8], start: usize) -> (r: Result<(u64, usize), DecodeError>)
    requires
        start <= s@.len(),
    ensures
        match r {
            Ok((id, j)) => tag_groups(s@, start as nat, 0) == Ok::<(u64, nat), DecodeError>((id, j as nat)),
            Err(e) => tag_groups(s@, start as nat, 0) == Err::<(u64, nat), DecodeError>(e),
        },
{
    let mut i: usize = start;
    let mut acc: u64 = 0;
    while i < s.len()
        invariant
            start <= i <= s@.len(),
            tag_groups(s@, start as nat, 0) == tag_groups(s@, i as nat, acc as nat),
        decreases s.len() - i,
    {
        let b = s[i];
        if acc >= 0x200_0000_0000_0000 {
            return Err(DecodeError::TagOverflow);
        }
        let v: u64 = acc * 128 + (b % 128) as u64;
        if b < 128 {
            return Ok((v, i + 1));
        }
        acc = v;
        i = i + 1;
    }
    Err(DecodeError::TruncatedInput)
}

/// Reads the identifier octets at the start of `s`.
fn read_header(s: &[u8]) -> (r: Result<(TagClass, TagStructure, u64, usize), DecodeError>)
    ensures
        match r {
            Ok((c, st, id, h)) => parse_header(s@) == Ok::<_, DecodeError>((c, st, id, h as nat)),
            Err(e) => parse_header(s@) == Err::<(TagClass, TagStructure, u64, nat), _>(e),
        },
{
    if s.len() == 0 {
        return Err(DecodeError::TruncatedInput);
    }
    let b = s[0];
    let class = TagClass::from_bits(b / 64);
    let structure = if (b / 32) % 2 == 1 {
        TagStructure::Constructed
    } else {
        TagStructure::Primitive
    };
    if b % 32 < 31 {
        Ok((class, structure, (b % 32) as u64, 1))
    } else {
        match read_tag_groups(s, 1) {
            Ok((id, j)) => Ok((class, structure, id, j)),
            Err(e) => Err(e),
        }
    }
}

/// Reads the length field at position `i`.
fn read_length(s: &[u8], i: usize) -> (r: Result<(u64, usize), DecodeError>)
    requires
        i <= s@.len(),
    ensures
        match r {
            Ok((len, p)) => parse_length(s@, i as nat) == Ok::<(nat, nat), DecodeError>((len as nat, p as nat)),
            Err(e) => parse_length(s@, i as nat) == Err::<(nat, nat), DecodeError>(e),
        },
{
    if i >= s.len() {
        return Err(DecodeError::TruncatedInput);
    }
    let b = s[i];
    if b < 128 {
        return Ok((b as u64, i + 1));
    }
    if b == 128 {
        return Err(DecodeError::UnsupportedIndefiniteLength);
    }
    let k: usize = (b - 128) as usize;
    if k > s.len() - i - 1 {
        return Err(DecodeError::TruncatedInput);
    }
    let first: usize = i + 1;
    let mut j: usize = 0;
    let mut acc: u64 = 0;
    while j < k
        invariant
            first == i + 1,
            i < s@.len(),
            b == s@[i as int],
            k == b - 128,
            first + k <= s.len(),
            j <= k,
            acc as nat == be_value(s@.subrange(first as int, first + j)),
        decreases k - j,
    {
        assert(s@.subrange(first as int, first + j + 1).drop_last() =~= s@.subrange(first as int, first + j));
        assert(s@.subrange(first as int, first + j + 1).last() == s@[first + j]);
        if acc >= 0x100_0000_0000_0000 {
            proof {
                assert(acc * 256 >= 0x1_0000_0000_0000_0000) by (nonlinear_arith)
                    requires
                        acc >= 0x100_0000_0000_0000,
                ;
                lemma_be_value_grows(s@, first as int, first + j + 1, first + k);
            }
            return Err(DecodeError::LengthOverflow);
        }
        assert(acc * 256 + 255 <= u64::MAX) by (nonlinear_arith)
            requires
                acc < 0x100_0000_0000_0000,
        ;
        let x: u8 = s[first + j];
        acc = acc * 256 + x as u64;
        j = j + 1;
    }
    Ok((acc, first + k))
}

/// Reads the header and the length at the start of `s`.
fn read_head(s: &[u8]) -> (r: Result<(TagClass, TagStructure, u64, usize, u64), DecodeError>)
    ensures
        match r {
            Ok((c, st, id, p, len)) => parse_head(s@) == Ok::<_, DecodeError>((c, st, id, p as nat, len as nat)),
            Err(e) => parse_head(s@) == Err::<(TagClass, TagStructure, u64, nat, nat), _>(e),
        },
{
    proof {
        lemma_head_advances(s@);
    }
    match read_header(s) {
        Err(e) => Err(e),
        Ok((c, st, id, h)) => {
            proof {
                lemma_groups_advance(s@, 1, 0);
            }
            match read_length(s, h) {
                Err(e) => Err(e),
                Ok((len, p)) => Ok((c, st, id, p, len)),
            }
        },
    }
}

/// Reads the whole of `s` as the children of a constructed value.
fn read_children(s: &[u8]) -> (r: Result<Vec<StructureTag>, DecodeError>)
    ensures
        match r {
            Ok(v) => parse_children(s@) == Ok::<_, DecodeError>(trees_of(v@)),
            Err(e) => parse_children(s@) == Err::<Seq<Tree>, _>(e),
        },
    decreases s@.len(),
{
    let mut out: Vec<StructureTag> = Vec::new();
    let mut pos: usize = 0;
    proof {
        assert(s@.subrange(0, s@.len() as int) =~= s@);
        if let Ok(ts) = parse_children(s@) {
            assert(trees_of(out@) + ts =~= ts);
        }
    }
    while pos < s.len()
        invariant
            pos <= s@.len(),
            parse_children(s@) == match parse_children(s@.subrange(pos as int, s@.len() as int)) {
                Ok(ts) => Ok(trees_of(out@) + ts),
                Err(e) => Err(e),
            },
        decreases s@.len() - pos,
    {
        let rest = &s[pos..s.len()];
        assert(rest@ == s@.subrange(pos as int, s@.len() as int));
        proof {
            lemma_head_advances(rest@);
        }
        let (c, st, id, p, len) = match read_head(rest) {
            Err(e) => return Err(e),
            Ok(h) => h,
        };
        if len > (rest.len() - p) as u64 {
            return Err(DecodeError::TrailingBytesInConstructedValue);
        }
        let end: usize = p + len as usize;
        let body = &rest[p..end];
        let node = if st == TagStructure::Primitive {
            StructureTag { class: c, id, payload: PL::P(slice_to_vec(body)) }
        } else {
            match read_children(body) {
                Err(e) => return Err(e),
                Ok(kids) => StructureTag { class: c, id, payload: PL::C(kids) },
            }
        };
        let ghost old_out = out@;
        out.push(node);
        proof {
            assert(trees_of(out@) =~= trees_of(old_out) + seq![node@]);
            assert(rest@.subrange(end as int, rest@.len() as int) =~= s@.subrange(pos + end, s@.len() as int));
            if let Ok(ts) = parse_children(s@.subrange(pos + end, s@.len() as int)) {
                assert(trees_of(out@) + ts =~= trees_of(old_out) + (seq![node@] + ts));
            }
        }
        pos = pos + end;
    }
    assert(s@.subrange(pos as int, s@.len() as int) =~= Seq::<u8>::empty());
    assert(trees_of(out@) + Seq::<Tree>::empty() =~= trees_of(out@));
    Ok(out)
}

/// Decodes one BER value at the start of `input`: the tree and the number of
/// bytes it takes. Bytes after it are left alone.
pub fn decode(input: &[u8]) -> (r: Result<(StructureTag, usize), DecodeError>)
    ensures
        match r {
            Ok((t, n)) => parse_value(input@) == Ok::<_, DecodeError>((t@, n as nat)),
            Err(e) => parse_value(input@) == Err::<(Tree, nat), _>(e),
        },
{
    proof {
        lemma_head_advances(input@);
    }
    let (c, st, id, p, len) = match read_head(input) {
        Err(e) => return Err(e),
        Ok(h) => h,
    };
    if len > (input.len() - p) as u64 {
        return Err(DecodeError::TruncatedInput);
    }
    let end: usize = p + len as usize;
    let body = &input[p..end];
    if st == TagStructure::Primitive {
        Ok((StructureTag { class: c, id, payload: PL::P(slice_to_vec(body)) }, end))
    } else {
        match read_children(body) {
            Err(e) => Err(e),
            Ok(kids) => Ok((StructureTag { class: c, id, payload: PL::C(kids) }, end)),
        }
    }
}

} // verus!
