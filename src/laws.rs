//! What decoding makes of encoded trees and of malformed bytes.

use crate::common::{class_bits, structure_bit, TagClass, TagStructure};
use crate::parse::{
    be_value, class_of, lemma_groups_advance, parse_children, parse_head, parse_header,
    parse_length, parse_value, tag_groups, DecodeError,
};
use crate::structure::Tree;
use crate::write::{
    be_bytes, byte_count, continued_groups, encode_all, encode_prefix, encoding, header_bytes,
    length_bytes, lemma_byte_count_bound, lemma_pow256_8, pow256,
};
use vstd::prelude::*;

verus! {

/// The payload of a tree as it is written: the raw bytes, or the encodings
/// of the children.
pub open spec fn body_of(t: Tree) -> Seq<u8> {
    match t {
        Tree::Prim(_, _, b) => b,
        Tree::Cons(_, _, ts) => encode_all(ts),
    }
}

/// Continuation groups read back as the number they were written from.
proof fn lemma_groups(n: nat, s: Seq<u8>, i: nat)
    requires
        n <= u64::MAX,
        i + continued_groups(n).len() <= s.len(),
        s.subrange(i as int, (i + continued_groups(n).len()) as int) == continued_groups(n),
    ensures
        tag_groups(s, i, 0) == tag_groups(s, i + continued_groups(n).len(), n),
    decreases n,
{
    if n > 0 {
        let m = n / 128;
        let g = continued_groups(m);
        let j = i + g.len();
        assert(continued_groups(n) == g + seq![(n % 128 + 128) as u8]);
        assert(s.subrange(i as int, j as int) =~= continued_groups(n).subrange(0, g.len() as int));
        assert(s.subrange(i as int, j as int) =~= g);
        lemma_groups(m, s, i);
        assert(s[j as int] == continued_groups(n)[g.len() as int]);
        assert(s[j as int] == (n % 128 + 128) as u8);
        assert(m * 128 + s[j as int] % 128 == n);
    }
}

/// Identifier octets read back as the class, structure and tag number.
proof fn lemma_header(c: TagClass, st: TagStructure, id: u64, rest: Seq<u8>)
    ensures
        parse_header(header_bytes(c, st, id) + rest) == Ok::<_, DecodeError>(
            (c, st, id, header_bytes(c, st, id).len()),
        ),
{
    let h = header_bytes(c, st, id);
    let s = h + rest;
    let lead = class_bits(c) * 64 + structure_bit(st) * 32;
    let low: nat = if id <= 30 { id as nat } else { 31 };
    assert(s[0] == (lead + low) as u8);
    let b = s[0] as nat;
    assert(b == lead + low);
    assert(b / 64 == class_bits(c) && (b / 32) % 2 == structure_bit(st) && b % 32 == low) by {
        assert(class_bits(c) <= 3 && structure_bit(st) <= 1);
    }
    assert(class_of(class_bits(c)) == c);
    if id > 30 {
        let m = (id / 128) as nat;
        let g = continued_groups(m);
        assert(h == seq![(lead + 31) as u8] + (g + seq![(id % 128) as u8]));
        assert(s.subrange(1, (1 + g.len()) as int) =~= g);
        lemma_groups(m, s, 1);
        let j = 1 + g.len();
        assert(s[j as int] == (id % 128) as u8);
        assert(m * 128 + s[j as int] % 128 == id);
    }
}

/// Big-endian bytes read back as the number they were written from.
proof fn lemma_be_round(n: nat, k: nat)
    requires
        n < pow256(k),
    ensures
        be_bytes(n, k).len() == k,
        be_value(be_bytes(n, k)) == n,
    decreases k,
{
    if k > 0 {
        let p = pow256((k - 1) as nat);
        assert(n / 256 < p) by (nonlinear_arith)
            requires
                n < 256 * p,
        ;
        lemma_be_round(n / 256, (k - 1) as nat);
        assert(be_bytes(n, k).drop_last() =~= be_bytes(n / 256, (k - 1) as nat));
    }
}

/// A length field reads back as the length, wherever it stands.
proof fn lemma_length(len: nat, pre: Seq<u8>, rest: Seq<u8>)
    requires
        len <= u64::MAX,
    ensures
        parse_length(pre + length_bytes(len) + rest, pre.len()) == Ok::<_, DecodeError>(
            (len, pre.len() + length_bytes(len).len()),
        ),
{
    let s = pre + length_bytes(len) + rest;
    let i = pre.len();
    if len < 128 {
        assert(s[i as int] == len as u8);
    } else {
        lemma_pow256_8();
        lemma_byte_count_bound(len, 8);
        let k = byte_count(len);
        lemma_be_round(len, k);
        assert(s[i as int] == (128 + k) as u8);
        assert(s.subrange((i + 1) as int, (i + 1 + k) as int) =~= be_bytes(len, k));
    }
}

/// The header and length of an encoded tree read back as its class,
/// structure, tag number and payload length.
proof fn lemma_head(t: Tree, rest: Seq<u8>)
    requires
        encoding(t).len() <= u64::MAX,
    ensures
        encoding(t) == header_bytes(t.class(), t.structure(), t.id()) + length_bytes(body_of(t).len())
            + body_of(t),
        parse_head(encoding(t) + rest) == Ok::<_, DecodeError>(
            (
                t.class(),
                t.structure(),
                t.id(),
                header_bytes(t.class(), t.structure(), t.id()).len() + length_bytes(
                    body_of(t).len(),
                ).len(),
                body_of(t).len(),
            ),
        ),
{
    let h = header_bytes(t.class(), t.structure(), t.id());
    let b = body_of(t);
    let lb = length_bytes(b.len());
    let s = encoding(t) + rest;
    assert(s =~= h + (lb + b + rest));
    lemma_header(t.class(), t.structure(), t.id(), lb + b + rest);
    assert(s =~= h + lb + (b + rest));
    lemma_length(b.len(), h, b + rest);
}

/// The encodings of the first `n` trees: the first tree's, then the others'.
proof fn lemma_front(ts: Seq<Tree>, n: nat)
    requires
        1 <= n <= ts.len(),
    ensures
        encode_prefix(ts, n) == encoding(ts[0]) + encode_prefix(ts.subrange(1, ts.len() as int), (n - 1) as nat),
    decreases n,
{
    let tail = ts.subrange(1, ts.len() as int);
    if n == 1 {
        assert(encode_prefix(ts, 0) == Seq::<u8>::empty());
        assert(encode_prefix(ts, 1) =~= encoding(ts[0]));
    } else {
        lemma_front(ts, (n - 1) as nat);
        assert(tail[n - 2] == ts[n - 1]);
        assert(encode_prefix(ts, n) =~= encoding(ts[0]) + encode_prefix(tail, (n - 1) as nat));
    }
}

/// One step of reading children: a first node whose header, length and
/// payload are read, then the rest.
proof fn lemma_children_step(s: Seq<u8>, node: Tree, p: nat, len: nat)
    requires
        s.len() > 0,
        p + len <= s.len(),
        parse_head(s) == Ok::<_, DecodeError>((node.class(), node.structure(), node.id(), p, len)),
        match node {
            Tree::Prim(_, _, b) => b == s.subrange(p as int, (p + len) as int),
            Tree::Cons(_, _, kids) => parse_children(s.subrange(p as int, (p + len) as int)) == Ok::<_, DecodeError>(kids),
        },
    ensures
        parse_children(s) == match parse_children(s.subrange((p + len) as int, s.len() as int)) {
            Ok(us) => Ok::<_, DecodeError>(seq![node] + us),
            Err(e) => Err(e),
        },
{
}

/// Reading children from encoded trees reads the first tree, then goes on
/// after it.
proof fn lemma_first_child(ts: Seq<Tree>, x: Seq<u8>)
    requires
        ts.len() > 0,
        encode_all(ts).len() <= u64::MAX,
    ensures
        encode_all(ts) == encoding(ts[0]) + encode_all(ts.subrange(1, ts.len() as int)),
        parse_children(encode_all(ts) + x) == match parse_children(
            encode_all(ts.subrange(1, ts.len() as int)) + x,
        ) {
            Ok(us) => Ok::<_, DecodeError>(seq![ts[0]] + us),
            Err(e) => Err(e),
        },
    decreases ts, 0nat,
{
    let t0 = ts[0];
    let tail = ts.subrange(1, ts.len() as int);
    lemma_front(ts, ts.len());
    let e0 = encoding(t0);
    let s = encode_all(ts) + x;
    assert(s =~= e0 + (encode_all(tail) + x));
    lemma_head(t0, encode_all(tail) + x);
    let p = header_bytes(t0.class(), t0.structure(), t0.id()).len() + length_bytes(
        body_of(t0).len(),
    ).len();
    let len = body_of(t0).len();
    assert(s.subrange(p as int, (p + len) as int) =~= body_of(t0));
    if let Tree::Cons(c, id, kids) = t0 {
        assert(decreases_to!(ts => t0));
        lemma_children(kids, Seq::<u8>::empty());
        assert(encode_all(kids) + Seq::<u8>::empty() =~= encode_all(kids));
        assert(kids + Seq::<Tree>::empty() =~= kids);
    }
    assert(s.subrange(e0.len() as int, s.len() as int) =~= encode_all(tail) + x);
    lemma_children_step(s, t0, p, len);
}

/// The children read from encoded trees followed by other bytes: those trees,
/// then what the other bytes give.
proof fn lemma_children(ts: Seq<Tree>, x: Seq<u8>)
    requires
        encode_all(ts).len() <= u64::MAX,
    ensures
        parse_children(encode_all(ts) + x) == match parse_children(x) {
            Ok(us) => Ok::<_, DecodeError>(ts + us),
            Err(e) => Err(e),
        },
    decreases ts, 1nat,
{
    if ts.len() == 0 {
        assert(encode_all(ts) + x =~= x);
        if let Ok(us) = parse_children(x) {
            assert(ts + us =~= us);
        }
    } else {
        let tail = ts.subrange(1, ts.len() as int);
        lemma_first_child(ts, x);
        lemma_children(tail, x);
        if let Ok(us) = parse_children(x) {
            assert(seq![ts[0]] + (tail + us) =~= ts + us);
        }
    }
}

/// Decoding the encoding of a tree, whatever bytes follow it, gives back the
/// tree and the length of its encoding: the only bound is that the encoding
/// be no longer than a 64-bit length can state.
pub proof fn lemma_round_trip(t: Tree, rest: Seq<u8>)
    requires
        encoding(t).len() <= u64::MAX,
    ensures
        parse_value(encoding(t) + rest) == Ok::<_, DecodeError>((t, encoding(t).len())),
{
    lemma_head(t, rest);
    let s = encoding(t) + rest;
    let p = header_bytes(t.class(), t.structure(), t.id()).len() + length_bytes(body_of(t).len()).len();
    assert(s.subrange(p as int, (p + body_of(t).len()) as int) =~= body_of(t));
    if let Tree::Cons(c, id, kids) = t {
        lemma_children(kids, Seq::<u8>::empty());
        assert(encode_all(kids) + Seq::<u8>::empty() =~= encode_all(kids));
        assert(kids + Seq::<Tree>::empty() =~= kids);
    }
}

/// A lone identifier byte that announces an extended tag number, with no
/// continuation byte after it, is truncated input.
pub proof fn lemma_lone_extended_marker(b: u8)
    requires
        b % 32 == 31,
    ensures
        parse_value(seq![b]) == Err::<(Tree, nat), _>(DecodeError::TruncatedInput),
{
}

/// Reading continuation groups looks at no byte past them.
proof fn lemma_groups_prefix(s: Seq<u8>, i: nat, acc: nat, m: nat)
    requires
        tag_groups(s, i, acc) matches Ok((_, j)) && j <= m,
        m <= s.len(),
    ensures
        tag_groups(s.subrange(0, m as int), i, acc) == tag_groups(s, i, acc),
    decreases s.len() - i,
{
    lemma_groups_advance(s, i, acc);
    let v = (acc * 128 + s[i as int] % 128) as nat;
    if i < s.len() && v <= u64::MAX && s[i as int] >= 128 {
        lemma_groups_prefix(s, i + 1, v, m);
    }
}

/// Reading a header and a length looks at no byte past them.
proof fn lemma_head_prefix(s: Seq<u8>, m: nat)
    requires
        parse_head(s) matches Ok((_, _, _, p, _)) && p <= m,
        m <= s.len(),
    ensures
        parse_head(s.subrange(0, m as int)) == parse_head(s),
{
    let t = s.subrange(0, m as int);
    lemma_groups_advance(s, 1, 0);
    if s[0] % 32 >= 31 {
        lemma_groups_prefix(s, 1, 0, m);
    }
    if let Ok((_, _, _, h)) = parse_header(s) {
        if h + 1 <= s.len() && s[h as int] > 128 {
            let k = (s[h as int] - 128) as nat;
            if h + 1 + k <= m {
                assert(t.subrange((h + 1) as int, (h + 1 + k) as int) =~= s.subrange((h + 1) as int, (h + 1 + k) as int));
            }
        }
    }
}

/// Children cut off inside the payload of an encoded tree run past their
/// region.
proof fn lemma_cut_child(last: Tree, m: nat)
    requires
        encoding(last).len() <= u64::MAX,
        encoding(last).len() - body_of(last).len() <= m < encoding(last).len(),
    ensures
        parse_children(encoding(last).subrange(0, m as int)) == Err::<Seq<Tree>, _>(
            DecodeError::TrailingBytesInConstructedValue,
        ),
{
    let el = encoding(last);
    lemma_head(last, Seq::<u8>::empty());
    assert(el + Seq::<u8>::empty() =~= el);
    lemma_head_prefix(el, m);
}

/// A constructed value whose declared length ends inside the payload of its
/// last child, after that child's header and length, is refused because the
/// child runs past its parent, whatever bytes follow.
pub proof fn lemma_short_constructed_length(
    c: TagClass,
    id: u64,
    init: Seq<Tree>,
    last: Tree,
    cut: nat,
    rest: Seq<u8>,
)
    requires
        encode_all(init).len() + encoding(last).len() <= u64::MAX,
        encode_all(init).len() + encoding(last).len() - body_of(last).len() <= cut,
        cut < encode_all(init).len() + encoding(last).len(),
    ensures
        parse_value(
            header_bytes(c, TagStructure::Constructed, id) + length_bytes(cut) + encode_all(init)
                + encoding(last) + rest,
        ) == Err::<(Tree, nat), _>(DecodeError::TrailingBytesInConstructedValue),
{
    let h = header_bytes(c, TagStructure::Constructed, id);
    let lb = length_bytes(cut);
    let ei = encode_all(init);
    let el = encoding(last);
    let s = h + lb + ei + el + rest;
    assert(s =~= h + (lb + (ei + el + rest)));
    lemma_header(c, TagStructure::Constructed, id, lb + (ei + el + rest));
    assert(s =~= h + lb + (ei + el + rest));
    lemma_length(cut, h, ei + el + rest);
    let p = h.len() + lb.len();
    let m = (cut - ei.len()) as nat;
    let x = el.subrange(0, m as int);
    assert(s.subrange(p as int, (p + cut) as int) =~= ei + x);
    lemma_children(init, x);
    lemma_cut_child(last, m);
    assert(parse_children(s.subrange(p as int, (p + cut) as int)) == Err::<Seq<Tree>, _>(
        DecodeError::TrailingBytesInConstructedValue,
    ));
}

} // verus!
