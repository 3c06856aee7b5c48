//! The link-trail pattern's syntax tree and its reduction to a character set.
//!
//! `Node` is this crate's model of a parsed regular expression: a closed set
//! of node kinds, produced from the external engine's tree at the parsing
//! boundary. The navigator locates a capture group within it, and the reducer
//! walks a group's repeated sub-tree and accumulates every character it can
//! match, rejecting any construct that has no finite, enumerable character
//! set.

use vstd::prelude::*;

use crate::sets::CharSet;

verus! {

/// A parsed regular-expression node.
#[derive(Debug)]
pub enum Node {
    /// The empty expression.
    Empty,
    /// A single literal character.
    Literal(char),
    /// A byte-oriented character class: inclusive byte ranges.
    ByteClass(Vec<(u8, u8)>),
    /// A text-oriented character class: inclusive scalar-value ranges.
    UnicodeClass(Vec<(char, char)>),
    /// An anchor assertion.
    Anchor,
    /// A word-boundary assertion.
    WordBoundary,
    /// A repetition over one sub-tree.
    Repetition(Box<Node>),
    /// A group wrapping one sub-tree; `Some` carries its capture index.
    Group(Option<u32>, Box<Node>),
    /// A concatenation of sub-trees, in order.
    Concat(Vec<Node>),
    /// An alternation of sub-trees, in order.
    Alternation(Vec<Node>),
}

// ---------------------------------------------------------------------------
// Navigator: locating a capture group
// ---------------------------------------------------------------------------

/// The sub-tree wrapped by the first group carrying capture index `index`,
/// in depth-first order, or `None` when the tree has no such group.
pub open spec fn find_group_spec(n: Node, index: u32) -> Option<Node>
    decreases n,
{
    match n {
        Node::Group(k, inner) => if k == Some(index) {
            Some(*inner)
        } else {
            find_group_spec(*inner, index)
        },
        Node::Repetition(inner) => find_group_spec(*inner, index),
        Node::Concat(ns) => find_group_in_seq(ns@, index, 0),
        Node::Alternation(ns) => find_group_in_seq(ns@, index, 0),
        _ => None,
    }
}

/// The first hit of `find_group_spec` over `ns[i..]`.
pub open spec fn find_group_in_seq(ns: Seq<Node>, index: u32, i: int) -> Option<Node>
    decreases ns, ns.len() - i,
    when 0 <= i <= ns.len()
{
    if i == ns.len() {
        None
    } else {
        match find_group_spec(ns[i], index) {
            Some(g) => Some(g),
            None => find_group_in_seq(ns, index, i + 1),
        }
    }
}

/// Locates the sub-tree wrapped by capture group `index`, depth first.
pub fn find_group(n: &Node, index: u32) -> (r: Option<&Node>)
    ensures
        r matches Some(g) ==> find_group_spec(*n, index) == Some(*g),
        r is None ==> find_group_spec(*n, index) is None,
    decreases *n,
{
    match n {
        Node::Group(k, inner) => {
            let here = match k {
                Some(i) => *i == index,
                None => false,
            };
            if here {
                Some(inner)
            } else {
                find_group(inner, index)
            }
        },
        Node::Repetition(inner) => find_group(inner, index),
        Node::Concat(ns) => find_group_in_vec(ns, index),
        Node::Alternation(ns) => find_group_in_vec(ns, index),
        _ => None,
    }
}

fn find_group_in_vec(ns: &Vec<Node>, index: u32) -> (r: Option<&Node>)
    ensures
        r matches Some(g) ==> find_group_in_seq(ns@, index, 0) == Some(*g),
        r is None ==> find_group_in_seq(ns@, index, 0) is None,
    decreases ns@,
{
    let len = ns.len();
    let mut i: usize = 0;
    while i < len
        invariant
            len == ns@.len(),
            0 <= i <= len,
            find_group_in_seq(ns@, index, 0) == find_group_in_seq(ns@, index, i as int),
        decreases len - i,
    {
        match find_group(&ns[i], index) {
            Some(g) => {
                return Some(g);
            },
            None => {},
        }
        i += 1;
    }
    None
}

// ---------------------------------------------------------------------------
// Reducer: the character set a sub-tree can match
// ---------------------------------------------------------------------------

/// The characters covered by inclusive byte ranges, each byte taken as the
/// character with its code point. The engine's default parser only produces
/// byte classes over single-byte ASCII, where this coincides with reading
/// the bytes as characters; the definition is total all the same.
pub open spec fn byte_ranges_set(rs: Seq<(u8, u8)>) -> Set<char> {
    Set::new(
        |c: char|
            exists|i: int|
                0 <= i < rs.len() && (#[trigger] rs[i]).0 as int <= c as int && c as int
                    <= rs[i].1 as int,
    )
}

/// The characters covered by inclusive scalar-value ranges.
pub open spec fn char_ranges_set(rs: Seq<(char, char)>) -> Set<char> {
    Set::new(
        |c: char|
            exists|i: int|
                0 <= i < rs.len() && (#[trigger] rs[i]).0 as int <= c as int && c as int
                    <= rs[i].1 as int,
    )
}

/// The finite set of standalone characters a sub-tree can match: literals,
/// character classes, groups and alternations of these reduce; anchors,
/// concatenations, empty nodes, nested repetitions and word boundaries have
/// no such set and yield `None`.
pub open spec fn reduce_set(n: Node) -> Option<Set<char>>
    decreases n,
{
    match n {
        Node::Literal(c) => Some(Set::<char>::empty().insert(c)),
        Node::ByteClass(rs) => Some(byte_ranges_set(rs@)),
        Node::UnicodeClass(rs) => Some(char_ranges_set(rs@)),
        Node::Group(_, inner) => reduce_set(*inner),
        Node::Alternation(ns) => reduce_alts(ns@, 0),
        _ => None,
    }
}

/// The union of the alternatives' sets over `ns[i..]`, or `None` as soon as
/// one alternative does not reduce.
pub open spec fn reduce_alts(ns: Seq<Node>, i: int) -> Option<Set<char>>
    decreases ns, ns.len() - i,
    when 0 <= i <= ns.len()
{
    if i == ns.len() {
        Some(Set::empty())
    } else {
        match (reduce_set(ns[i]), reduce_alts(ns, i + 1)) {
            (Some(a), Some(b)) => Some(a.union(b)),
            _ => None,
        }
    }
}

/// Unrolling `reduce_alts`: it succeeds exactly when every alternative from
/// `i` on reduces, and then denotes the union of their sets.
pub proof fn lemma_reduce_alts(ns: Seq<Node>, i: int)
    requires
        0 <= i <= ns.len(),
    ensures
        (reduce_alts(ns, i) is Some) <==> (forall|j: int|
            i <= j < ns.len() ==> (#[trigger] reduce_set(ns[j])) is Some),
        reduce_alts(ns, i) matches Some(s) ==> forall|c: char|
            s.contains(c) <==> exists|j: int|
                i <= j < ns.len() && ((#[trigger] reduce_set(ns[j])) matches Some(sj)
                    && sj.contains(c)),
    decreases ns.len() - i,
{
    if i < ns.len() {
        lemma_reduce_alts(ns, i + 1);
        match (reduce_set(ns[i]), reduce_alts(ns, i + 1)) {
            (Some(a), Some(b)) => {
                assert(reduce_alts(ns, i) == Some(a.union(b)));
                assert forall|j: int| i <= j < ns.len() implies (#[trigger] reduce_set(
                    ns[j],
                )) is Some by {}
                assert forall|c: char| a.union(b).contains(c) implies exists|j: int|
                    i <= j < ns.len() && ((#[trigger] reduce_set(ns[j])) matches Some(sj)
                        && sj.contains(c)) by {
                    if a.contains(c) {
                        assert(i <= i < ns.len() && (reduce_set(ns[i]) matches Some(sj)
                            && sj.contains(c)));
                    }
                }
                assert forall|c: char|
                    (exists|j: int|
                        i <= j < ns.len() && ((#[trigger] reduce_set(ns[j])) matches Some(sj)
                            && sj.contains(c))) implies a.union(b).contains(c) by {
                    let j = choose|j: int|
                        i <= j < ns.len() && ((#[trigger] reduce_set(ns[j])) matches Some(sj)
                            && sj.contains(c));
                    if j == i {
                        assert(a.contains(c));
                    } else {
                        assert(b.contains(c));
                    }
                }
            },
            _ => {
                assert(reduce_alts(ns, i) is None);
                if reduce_set(ns[i]) is None {
                    assert(i <= i < ns.len() && !((#[trigger] reduce_set(ns[i])) is Some));
                }
            },
        }
    }
}


/// Whether a code point is a Unicode scalar value, the values `char` can
/// hold.
pub open spec fn is_scalar_value(v: int) -> bool {
    (0 <= v <= 0xD7FF) || (0xE000 <= v <= 0x10FFFF)
}

/// Every `char` holds a Unicode scalar value.
proof fn lemma_char_scalar(c: char)
    ensures
        is_scalar_value(c as int),
{
}

/// Relies on `char::from_u32`: `Some` exactly for Unicode scalar values,
/// returning the character with that code point.
#[verifier::external_body]
fn char_from_u32(v: u32) -> (r: Option<char>)
    ensures
        r matches Some(c) ==> c as int == v as int,
        (r is Some) <==> is_scalar_value(v as int),
{
    char::from_u32(v)
}

/// Relies on `u32::from`: a character's Unicode code point.
#[verifier::external_body]
fn char_code(c: char) -> (v: u32)
    ensures
        v as int == c as int,
{
    u32::from(c)
}

/// The characters of one inclusive code-point range, cut off below `v`.
pub open spec fn range_below(lo: int, hi: int, v: int) -> Set<char> {
    Set::new(|c: char| lo <= c as int && c as int <= hi && (c as int) < v)
}

/// The characters of one inclusive code-point range.
pub open spec fn range_set(lo: int, hi: int) -> Set<char> {
    Set::new(|c: char| lo <= c as int && c as int <= hi)
}

/// Inserts every character whose code point lies in `lo..=hi`.
fn insert_code_points(lo: u32, hi: u32, characters: &mut CharSet)
    requires
        old(characters).wf(),
        hi <= 0x10FFFF,
    ensures
        final(characters).wf(),
        final(characters)@ == old(characters)@.union(range_set(lo as int, hi as int)),
{
    let mut v: u32 = lo;
    while v <= hi
        invariant
            characters.wf(),
            hi <= 0x10FFFF,
            lo <= v,
            v == lo || v <= hi + 1,
            characters@ == old(characters)@.union(range_below(lo as int, hi as int, v as int)),
        decreases hi + 1 - v,
    {
        match char_from_u32(v) {
            Some(c) => {
                characters.insert(c);
                proof {
                    assert(characters@ =~= old(characters)@.union(
                        range_below(lo as int, hi as int, v + 1),
                    ));
                }
            },
            None => {
                proof {
                    assert(characters@ =~= old(characters)@.union(
                        range_below(lo as int, hi as int, v + 1),
                    )) by {
                        assert forall|c: char|
                            range_below(lo as int, hi as int, v + 1).contains(c) implies
                            range_below(lo as int, hi as int, v as int).contains(c) by {
                            lemma_char_scalar(c);
                            assert(c as int != v as int);
                        }
                    }
                }
            },
        }
        v += 1;
    }
    proof {
        assert(characters@ =~= old(characters)@.union(range_set(lo as int, hi as int)));
    }
}

/// The characters covered by the first `k` byte ranges.
pub open spec fn byte_ranges_upto(rs: Seq<(u8, u8)>, k: int) -> Set<char> {
    Set::new(
        |c: char|
            exists|i: int|
                0 <= i < k && (#[trigger] rs[i]).0 as int <= c as int && c as int
                    <= rs[i].1 as int,
    )
}

/// The characters covered by the first `k` scalar-value ranges.
pub open spec fn char_ranges_upto(rs: Seq<(char, char)>, k: int) -> Set<char> {
    Set::new(
        |c: char|
            exists|i: int|
                0 <= i < k && (#[trigger] rs[i]).0 as int <= c as int && c as int
                    <= rs[i].1 as int,
    )
}

/// One more range joins the partial union of a byte class.
proof fn lemma_byte_ranges_step(rs: Seq<(u8, u8)>, k: int)
    requires
        0 <= k < rs.len(),
    ensures
        byte_ranges_upto(rs, k + 1) == byte_ranges_upto(rs, k).union(
            range_set(rs[k].0 as int, rs[k].1 as int),
        ),
{
    assert(byte_ranges_upto(rs, k + 1) =~= byte_ranges_upto(rs, k).union(
        range_set(rs[k].0 as int, rs[k].1 as int),
    )) by {
        assert forall|c: char| byte_ranges_upto(rs, k + 1).contains(c) implies byte_ranges_upto(
            rs,
            k,
        ).union(range_set(rs[k].0 as int, rs[k].1 as int)).contains(c) by {
            let i = choose|i: int|
                0 <= i < k + 1 && (#[trigger] rs[i]).0 as int <= c as int && c as int
                    <= rs[i].1 as int;
            if i < k {
                assert(byte_ranges_upto(rs, k).contains(c));
            }
        }
    }
}

/// One more range joins the partial union of a text class.
proof fn lemma_char_ranges_step(rs: Seq<(char, char)>, k: int)
    requires
        0 <= k < rs.len(),
    ensures
        char_ranges_upto(rs, k + 1) == char_ranges_upto(rs, k).union(
            range_set(rs[k].0 as int, rs[k].1 as int),
        ),
{
    assert(char_ranges_upto(rs, k + 1) =~= char_ranges_upto(rs, k).union(
        range_set(rs[k].0 as int, rs[k].1 as int),
    )) by {
        assert forall|c: char| char_ranges_upto(rs, k + 1).contains(c) implies char_ranges_upto(
            rs,
            k,
        ).union(range_set(rs[k].0 as int, rs[k].1 as int)).contains(c) by {
            let i = choose|i: int|
                0 <= i < k + 1 && (#[trigger] rs[i]).0 as int <= c as int && c as int
                    <= rs[i].1 as int;
            if i < k {
                assert(char_ranges_upto(rs, k).contains(c));
            }
        }
    }
}

/// Walks a sub-tree and inserts every character it can match into the
/// accumulating set. Succeeds exactly when the sub-tree reduces to a finite
/// character set; on success the set has grown by exactly that set, and on
/// failure it may hold a partial accumulation the caller discards.
pub fn link_trail_characters(node: &Node, characters: &mut CharSet) -> (r: Result<(), ()>)
    requires
        old(characters).wf(),
    ensures
        final(characters).wf(),
        (r is Ok) <==> (reduce_set(*node) is Some),
        r is Ok ==> final(characters)@ == old(characters)@.union(reduce_set(*node)->Some_0),
        r is Err ==> old(characters)@.subset_of(final(characters)@),
    decreases *node,
{
    match node {
        Node::Literal(c) => {
            characters.insert(*c);
            proof {
                assert(characters@ =~= old(characters)@.union(Set::<char>::empty().insert(*c)));
            }
            Ok(())
        },
        Node::ByteClass(rs) => {
            let len = rs.len();
            let mut k: usize = 0;
            while k < len
                invariant
                    characters.wf(),
                    len == rs@.len(),
                    0 <= k <= len,
                    characters@ == old(characters)@.union(byte_ranges_upto(rs@, k as int)),
                decreases len - k,
            {
                let (lo, hi) = rs[k];
                insert_code_points(lo as u32, hi as u32, characters);
                proof {
                    lemma_byte_ranges_step(rs@, k as int);
                    assert(characters@ =~= old(characters)@.union(
                        byte_ranges_upto(rs@, k + 1),
                    ));
                }
                k += 1;
            }
            proof {
                assert(byte_ranges_upto(rs@, rs@.len() as int) =~= byte_ranges_set(rs@));
            }
            Ok(())
        },
        Node::UnicodeClass(rs) => {
            let len = rs.len();
            let mut k: usize = 0;
            while k < len
                invariant
                    characters.wf(),
                    len == rs@.len(),
                    0 <= k <= len,
                    characters@ == old(characters)@.union(char_ranges_upto(rs@, k as int)),
                decreases len - k,
            {
                let (lo, hi) = rs[k];
                proof {
                    lemma_char_scalar(hi);
                }
                insert_code_points(char_code(lo), char_code(hi), characters);
                proof {
                    lemma_char_ranges_step(rs@, k as int);
                    assert(characters@ =~= old(characters)@.union(
                        char_ranges_upto(rs@, k + 1),
                    ));
                }
                k += 1;
            }
            proof {
                assert(char_ranges_upto(rs@, rs@.len() as int) =~= char_ranges_set(rs@));
            }
            Ok(())
        },
        Node::Group(_, inner) => link_trail_characters(inner, characters),
        Node::Alternation(ns) => {
            let r = reduce_alternatives(ns, characters);
            proof {
                assert(reduce_set(*node) == reduce_alts(ns@, 0));
            }
            r
        },
        _ => Err(()),
    }
}

/// Reduces every alternative in turn into the same accumulating set;
/// succeeds exactly when all of them reduce.
fn reduce_alternatives(ns: &Vec<Node>, characters: &mut CharSet) -> (r: Result<(), ()>)
    requires
        old(characters).wf(),
    ensures
        final(characters).wf(),
        (r is Ok) <==> (reduce_alts(ns@, 0) is Some),
        r is Ok ==> final(characters)@ == old(characters)@.union(reduce_alts(ns@, 0)->Some_0),
        r is Err ==> old(characters)@.subset_of(final(characters)@),
    decreases ns@,
{
    let len = ns.len();
    let mut k: usize = 0;
    while k < len
        invariant
            characters.wf(),
            len == ns@.len(),
            0 <= k <= len,
            forall|j: int| 0 <= j < k ==> (#[trigger] reduce_set(ns@[j])) is Some,
            characters@ == old(characters)@.union(alts_union_upto(ns@, k as int)),
        decreases len - k,
    {
        let ghost pre = characters@;
        match link_trail_characters(&ns[k], characters) {
            Ok(()) => {
                proof {
                    lemma_alts_union_step(ns@, k as int, old(characters)@, pre, characters@);
                }
            },
            Err(()) => {
                proof {
                    lemma_reduce_alts(ns@, 0);
                    assert(!(reduce_set(ns@[k as int]) is Some));
                    assert(reduce_alts(ns@, 0) is None);
                    assert(old(characters)@.subset_of(pre));
                    assert(old(characters)@.subset_of(characters@));
                }
                return Err(());
            },
        }
        k += 1;
    }
    proof {
        lemma_reduce_alts(ns@, 0);
        assert(reduce_alts(ns@, 0) is Some);
        let s = reduce_alts(ns@, 0)->Some_0;
        assert(alts_union_upto(ns@, ns@.len() as int) =~= s);
        assert(characters@ == old(characters)@.union(s));
    }
    Ok(())
}

/// The union of the sets of the first `k` alternatives that reduce.
pub open spec fn alts_union_upto(ns: Seq<Node>, k: int) -> Set<char> {
    Set::new(
        |c: char|
            exists|j: int|
                0 <= j < k && ((#[trigger] reduce_set(ns[j])) matches Some(sj) && sj.contains(c)),
    )
}

/// After one alternative's set joins the accumulator, the partial union
/// advances by one index.
proof fn lemma_alts_union_step(ns: Seq<Node>, k: int, base: Set<char>, pre: Set<char>, post: Set<char>)
    requires
        0 <= k < ns.len(),
        reduce_set(ns[k]) is Some,
        pre == base.union(alts_union_upto(ns, k)),
        post == pre.union(reduce_set(ns[k])->Some_0),
    ensures
        post == base.union(alts_union_upto(ns, k + 1)),
{
    assert(post =~= base.union(alts_union_upto(ns, k + 1))) by {
        assert forall|c: char| alts_union_upto(ns, k + 1).contains(c) implies post.contains(c) by {
            let j = choose|j: int|
                0 <= j < k + 1 && ((#[trigger] reduce_set(ns[j])) matches Some(sj) && sj.contains(
                    c,
                ));
            if j < k {
                assert(alts_union_upto(ns, k).contains(c));
            } else {
                assert(reduce_set(ns[k])->Some_0.contains(c));
            }
        }
        assert forall|c: char| post.contains(c) && !base.contains(c) implies alts_union_upto(
            ns,
            k + 1,
        ).contains(c) by {
            if alts_union_upto(ns, k).contains(c) {
                let j = choose|j: int|
                    0 <= j < k && ((#[trigger] reduce_set(ns[j])) matches Some(sj) && sj.contains(
                        c,
                    ));
                assert(alts_union_upto(ns, k + 1).contains(c));
            } else {
                assert(reduce_set(ns[k]) matches Some(sk) && sk.contains(c));
                assert(alts_union_upto(ns, k + 1).contains(c));
            }
        }
    }
}


/// The character set of a located link-trail group: an empty group matches
/// nothing; a repetition's repeated sub-tree is reduced; every other
/// top-level shape is unsupported.
pub open spec fn group_char_set(g: Node) -> Option<Set<char>> {
    match g {
        Node::Empty => Some(Set::<char>::empty()),
        Node::Repetition(inner) => reduce_set(*inner),
        _ => None,
    }
}

} // verus!
