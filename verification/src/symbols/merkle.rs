//! Content hashing and Merkle-hash computation over symbol trees.
//!
//! A symbol's content hash is the SHA-256 digest of its whitespace-normalized
//! source text, so purely cosmetic reformatting does not change it. A symbol's
//! Merkle hash digests its own content hash together with every child's
//! Merkle hash, in child order, so a change anywhere in a subtree propagates
//! to every ancestor's Merkle hash.

use sha2::Digest;
use vstd::prelude::*;
use vstd::string::StringSliceAdditionalSpecFns;

use crate::symbols::SymbolNode;
use crate::text::{chars_of, chars_to_string, clone_bytes};

verus! {

/// The SHA-256 digest of a byte sequence. The digest of given bytes is a
/// single fixed value, but it has no short description; contracts name it
/// through this function.
pub uninterp spec fn sha256_of(data: Seq<u8>) -> Seq<u8>;

/// Relies on sha2's `Sha256`: the digest is a function of the input bytes
/// alone and is 32 bytes long.
#[verifier::external_body]
fn sha256(data: &[u8]) -> (r: Vec<u8>)
    ensures
        r@ == sha256_of(data@),
        r@.len() == 32,
{
    sha2::Sha256::digest(data).to_vec()
}

/// Whether `c` has the Unicode `White_Space` property, the set that
/// `char::is_whitespace` recognizes.
pub open spec fn spec_is_space(c: char) -> bool {
    let u = c as u32;
    ||| u == 0x20
    ||| (0x09 <= u && u <= 0x0D)
    ||| u == 0x85
    ||| u == 0xA0
    ||| u == 0x1680
    ||| (0x2000 <= u && u <= 0x200A)
    ||| u == 0x2028
    ||| u == 0x2029
    ||| u == 0x202F
    ||| u == 0x205F
    ||| u == 0x3000
}

fn is_space(c: char) -> (r: bool)
    ensures
        r == spec_is_space(c),
{
    let u = c as u32;
    u == 0x20 || (0x09 <= u && u <= 0x0D) || u == 0x85 || u == 0xA0 || u == 0x1680 || (0x2000 <= u
        && u <= 0x200A) || u == 0x2028 || u == 0x2029 || u == 0x202F || u == 0x205F || u == 0x3000
}

/// `s` with every run of whitespace collapsed to a single space. `prev_space`
/// says whether a space was just emitted, so the first character of a run
/// yields one space and the rest of the run yields nothing.
pub open spec fn spec_collapse(s: Seq<char>, prev_space: bool) -> Seq<char>
    decreases s.len(),
{
    if s.len() == 0 {
        Seq::empty()
    } else if spec_is_space(s[0]) {
        if prev_space {
            spec_collapse(s.skip(1), true)
        } else {
            seq![' '] + spec_collapse(s.skip(1), true)
        }
    } else {
        seq![s[0]] + spec_collapse(s.skip(1), false)
    }
}

/// `s` without leading spaces.
pub open spec fn spec_trim_start(s: Seq<char>) -> Seq<char>
    decreases s.len(),
{
    if s.len() > 0 && s[0] == ' ' {
        spec_trim_start(s.skip(1))
    } else {
        s
    }
}

/// `s` without trailing spaces.
pub open spec fn spec_trim_end(s: Seq<char>) -> Seq<char>
    decreases s.len(),
{
    if s.len() > 0 && s.last() == ' ' {
        spec_trim_end(s.drop_last())
    } else {
        s
    }
}

/// Whitespace normalization: collapse every whitespace run to one space, then
/// trim. After collapsing, the only whitespace character left is a plain
/// space, so trimming spaces is all the trimming there is to do.
pub open spec fn spec_normalize(s: Seq<char>) -> Seq<char> {
    spec_trim_end(spec_trim_start(spec_collapse(s, false)))
}

/// The content hash of source text: the SHA-256 digest of the UTF-8 bytes of
/// the normalized text.
pub open spec fn spec_content_hash(s: Seq<char>) -> Seq<u8> {
    sha256_of(vstd::utf8::encode_utf8(spec_normalize(s)))
}

/// Normalize source text for hashing: collapse runs of whitespace into single
/// spaces and trim the ends, so the hash survives reformatting while still
/// detecting token-level changes.
pub fn normalize_source(source: &str) -> (r: String)
    ensures
        r@ == spec_normalize(source@),
{
    let chars = chars_of(source);
    let n = chars.len();

    // Collapse whitespace runs.
    let mut out: Vec<char> = Vec::new();
    let mut prev_space = false;
    let mut i: usize = 0;
    proof {
        assert(chars@.skip(0) =~= chars@);
    }
    while i < n
        invariant
            n == chars@.len(),
            0 <= i <= n,
            chars@ == source@,
            spec_collapse(source@, false) == out@ + spec_collapse(chars@.skip(i as int), prev_space),
        decreases n - i,
    {
        let c = chars[i];
        proof {
            assert(chars@.skip(i as int)[0] == chars@[i as int]);
            assert(chars@.skip(i as int).skip(1) =~= chars@.skip(i + 1));
        }
        if is_space(c) {
            if !prev_space {
                out.push(' ');
                prev_space = true;
            }
        } else {
            out.push(c);
            prev_space = false;
        }
        i = i + 1;
    }
    proof {
        assert(chars@.skip(n as int) =~= Seq::<char>::empty());
        assert(out@ + Seq::<char>::empty() =~= out@);
    }

    // Trim leading spaces.
    proof {
        assert(out@.skip(0) =~= out@);
    }
    let mut start: usize = 0;
    while start < out.len() && out[start] == ' '
        invariant
            0 <= start <= out@.len(),
            spec_trim_start(out@) == spec_trim_start(out@.skip(start as int)),
        decreases out@.len() - start,
    {
        proof {
            assert(out@.skip(start as int)[0] == out@[start as int]);
            assert(out@.skip(start as int).skip(1) =~= out@.skip(start + 1));
        }
        start = start + 1;
    }
    proof {
        assert(spec_trim_start(out@) == out@.skip(start as int));
    }

    // Trim trailing spaces of the remainder.
    proof {
        assert(out@.skip(start as int).take(out@.len() - start as int) =~= out@.skip(start as int));
    }
    let mut end: usize = out.len();
    while end > start && out[end - 1] == ' '
        invariant
            start <= end <= out@.len(),
            spec_trim_end(out@.skip(start as int)) == spec_trim_end(
                out@.skip(start as int).take(end - start as int),
            ),
        decreases end,
    {
        proof {
            let t = out@.skip(start as int).take(end - start as int);
            assert(t.last() == out@[end - 1]);
            assert(t.drop_last() =~= out@.skip(start as int).take(end - 1 - start as int));
        }
        end = end - 1;
    }
    proof {
        let t = out@.skip(start as int).take(end - start as int);
        if t.len() > 0 {
            assert(t.last() == out@[end - 1]);
        }
        assert(spec_trim_end(t) == t);
    }

    // Copy out the trimmed middle.
    let mut trimmed: Vec<char> = Vec::new();
    let mut j: usize = start;
    while j < end
        invariant
            start <= j <= end <= out@.len(),
            trimmed@ == out@.subrange(start as int, j as int),
        decreases end - j,
    {
        trimmed.push(out[j]);
        proof {
            assert(out@.subrange(start as int, j + 1) =~= out@.subrange(start as int, j as int).push(
                out@[j as int],
            ));
        }
        j = j + 1;
    }
    proof {
        assert(out@.subrange(start as int, end as int) =~= out@.skip(start as int).take(
            end - start as int,
        ));
    }
    chars_to_string(&trimmed)
}

/// Compute the content hash of raw source text: normalize whitespace, then
/// digest the normalized text.
pub fn content_hash(source: &str) -> (r: Vec<u8>)
    ensures
        r@ == spec_content_hash(source@),
        r@.len() == 32,
{
    let normalized = normalize_source(source);
    sha256(normalized.as_str().as_bytes())
}

/// Estimated token count of source text: the byte length divided by 3.5,
/// rounded up (a rough average of 3.5 bytes of code per token).
pub open spec fn spec_estimate_tokens(len: nat) -> nat {
    (2 * len + 6) / 7
}

/// Estimate the number of tokens a source string would consume. Approximate;
/// only used for relative weighting in reports.
pub fn estimate_tokens(source: &str) -> (r: usize)
    ensures
        r as nat == spec_estimate_tokens(source.spec_bytes().len()),
{
    let len = source.as_bytes().len();
    let q = len / 7;
    let rem = len % 7;
    let extra: usize = if rem == 0 {
        0
    } else if rem <= 3 {
        1
    } else {
        2
    };
    proof {
        vstd::arithmetic::div_mod::lemma_fundamental_div_mod(len as int, 7);
        if rem == 0 {
            vstd::arithmetic::div_mod::lemma_fundamental_div_mod_converse_div(
                2 * (len as int) + 6,
                7,
                2 * (q as int),
                6,
            );
        } else if rem <= 3 {
            vstd::arithmetic::div_mod::lemma_fundamental_div_mod_converse_div(
                2 * (len as int) + 6,
                7,
                2 * (q as int) + 1,
                2 * (rem as int) - 1,
            );
        } else {
            vstd::arithmetic::div_mod::lemma_fundamental_div_mod_converse_div(
                2 * (len as int) + 6,
                7,
                2 * (q as int) + 2,
                2 * (rem as int) - 8,
            );
        }
    }
    2 * q + extra
}

/// The Merkle hash of a node: the digest of its content hash followed by
/// every child's Merkle hash, in child order.
pub open spec fn spec_merkle(n: SymbolNode) -> Seq<u8>
    decreases n,
{
    sha256_of(n.content_hash@ + spec_merkle_concat(n.children@))
}

/// Concatenation of the Merkle hashes of a forest, in order.
pub open spec fn spec_merkle_concat(s: Seq<SymbolNode>) -> Seq<u8>
    decreases s,
{
    if s.len() == 0 {
        Seq::empty()
    } else {
        spec_merkle(s[0]) + spec_merkle_concat(s.skip(1))
    }
}

/// `b` agrees with `a` on everything except possibly the stored `merkle_hash`
/// fields: same ids, names, kinds, labels, paths, ranges, content hashes,
/// token estimates, and the same tree shape.
pub open spec fn spec_same_tree(a: SymbolNode, b: SymbolNode) -> bool
    decreases a,
{
    &&& b.id@ == a.id@
    &&& b.name@ == a.name@
    &&& b.kind == a.kind
    &&& b.label@ == a.label@
    &&& b.file_path@ == a.file_path@
    &&& b.byte_range == a.byte_range
    &&& b.line_range == a.line_range
    &&& b.content_hash@ == a.content_hash@
    &&& b.estimated_tokens == a.estimated_tokens
    &&& b.children@.len() == a.children@.len()
    &&& forall|i: int|
        0 <= i < a.children@.len() ==> spec_same_tree(#[trigger] a.children@[i], b.children@[i])
}

/// Every `merkle_hash` in the subtree holds the value `spec_merkle` gives it.
pub open spec fn spec_merkle_valid(n: SymbolNode) -> bool
    decreases n,
{
    &&& n.merkle_hash@ == spec_merkle(n)
    &&& forall|i: int| 0 <= i < n.children@.len() ==> spec_merkle_valid(#[trigger] n.children@[i])
}

/// The Merkle hash is a function of a subtree's content hashes and shape
/// alone: two trees that agree on those agree on their Merkle hashes. In
/// particular, recomputing hashes after an edit elsewhere leaves the Merkle
/// hash of an untouched sibling subtree unchanged.
pub proof fn lemma_merkle_same_tree(a: SymbolNode, b: SymbolNode)
    requires
        spec_same_tree(a, b),
    ensures
        spec_merkle(a) == spec_merkle(b),
    decreases a,
{
    lemma_merkle_concat_same(a.children@, b.children@);
}

proof fn lemma_merkle_concat_same(x: Seq<SymbolNode>, y: Seq<SymbolNode>)
    requires
        x.len() == y.len(),
        forall|i: int| 0 <= i < x.len() ==> spec_same_tree(#[trigger] x[i], y[i]),
    ensures
        spec_merkle_concat(x) == spec_merkle_concat(y),
    decreases x,
{
    if x.len() > 0 {
        lemma_merkle_same_tree(x[0], y[0]);
        assert(forall|i: int|
            0 <= i < x.skip(1).len() ==> spec_same_tree(#[trigger] x.skip(1)[i], y.skip(1)[i]));
        lemma_merkle_concat_same(x.skip(1), y.skip(1));
    }
}

/// Content hashing only sees the normalized text: two sources that normalize
/// to the same characters have the same content hash.
pub proof fn lemma_content_hash_whitespace_insensitive(a: Seq<char>, b: Seq<char>)
    requires
        spec_normalize(a) == spec_normalize(b),
    ensures
        spec_content_hash(a) == spec_content_hash(b),
{
}

/// Every element of a forest roots a subtree no larger than the whole forest.
proof fn lemma_subtree_le_forest(s: Seq<SymbolNode>, i: int)
    requires
        0 <= i < s.len(),
    ensures
        crate::symbols::spec_subtree_count(s[i]) <= crate::symbols::spec_forest_count(s),
    decreases s.len(),
{
    if i == 0 {
    } else {
        lemma_subtree_le_forest(s.skip(1), i - 1);
    }
}

proof fn lemma_merkle_concat_take(s: Seq<SymbolNode>, i: int)
    requires
        0 <= i < s.len(),
    ensures
        spec_merkle_concat(s.take(i + 1)) == spec_merkle_concat(s.take(i)) + spec_merkle(s[i]),
    decreases s.len(), i,
{
    let t1 = s.take(i + 1);
    let t0 = s.take(i);
    if i == 0 {
        assert(t1 =~= seq![s[0]]);
        assert(t0 =~= Seq::<SymbolNode>::empty());
        assert(spec_merkle_concat(t0) == Seq::<u8>::empty());
        assert(t1.skip(1) =~= Seq::<SymbolNode>::empty());
        assert(t1[0] == s[0]);
        assert(spec_merkle_concat(t1.skip(1)) == Seq::<u8>::empty());
        assert(spec_merkle_concat(t1) == spec_merkle(s[0]) + spec_merkle_concat(t1.skip(1)));
        assert(spec_merkle(s[0]) + Seq::<u8>::empty() =~= spec_merkle(s[0]));
        assert(Seq::<u8>::empty() + spec_merkle(s[0]) =~= spec_merkle(s[0]));
    } else {
        lemma_merkle_concat_take(s.skip(1), i - 1);
        assert(t1.skip(1) =~= s.skip(1).take(i));
        assert(t0.skip(1) =~= s.skip(1).take(i - 1));
        assert(t1[0] == s[0]);
        assert(t0[0] == s[0]);
        assert(spec_merkle_concat(t1) == spec_merkle(s[0]) + spec_merkle_concat(s.skip(1).take(i)));
        assert(spec_merkle_concat(t0) == spec_merkle(s[0]) + spec_merkle_concat(
            s.skip(1).take(i - 1),
        ));
        assert((spec_merkle(s[0]) + spec_merkle_concat(s.skip(1).take(i - 1))) + spec_merkle(s[i])
            =~= spec_merkle(s[0]) + (spec_merkle_concat(s.skip(1).take(i - 1)) + spec_merkle(
            s[i],
        )));
        assert(s.skip(1)[i - 1] == s[i]);
    }
}

fn append_bytes(dst: &mut Vec<u8>, src: &Vec<u8>)
    ensures
        final(dst)@ == old(dst)@ + src@,
{
    let mut i: usize = 0;
    while i < src.len()
        invariant
            0 <= i <= src@.len(),
            dst@ == old(dst)@ + src@.take(i as int),
        decreases src@.len() - i,
    {
        let b = src[i];
        dst.push(b);
        proof {
            assert(old(dst)@ + src@.take(i + 1) =~= (old(dst)@ + src@.take(i as int)).push(
                src@[i as int],
            ));
        }
        i = i + 1;
    }
    proof {
        assert(src@.take(src@.len() as int) =~= src@);
        assert(old(dst)@ + src@.take(0) =~= old(dst)@);
    }
}

fn node_with_merkle(node: &SymbolNode) -> (r: SymbolNode)
    ensures
        spec_same_tree(*node, r),
        spec_merkle_valid(r),
    decreases crate::symbols::spec_subtree_count(*node),
{
    let n = node.children.len();
    let mut new_children: Vec<SymbolNode> = Vec::new();
    let mut i: usize = 0;
    while i < n
        invariant
            n == node.children@.len(),
            0 <= i <= n,
            new_children@.len() == i,
            forall|j: int|
                0 <= j < i ==> spec_same_tree(#[trigger] node.children@[j], new_children@[j]),
            forall|j: int| 0 <= j < i ==> spec_merkle_valid(#[trigger] new_children@[j]),
        decreases n - i,
    {
        proof {
            lemma_subtree_le_forest(node.children@, i as int);
        }
        let c = node_with_merkle(&node.children[i]);
        let ghost prev = new_children@;
        new_children.push(c);
        proof {
            assert(new_children@ =~= prev.push(c));
            assert forall|j: int| 0 <= j < i + 1 implies spec_same_tree(
                #[trigger] node.children@[j],
                new_children@[j],
            ) by {
                if j < i {
                    assert(new_children@[j] == prev[j]);
                } else {
                    assert(new_children@[j] == c);
                }
            }
            assert forall|j: int| 0 <= j < i + 1 implies spec_merkle_valid(
                #[trigger] new_children@[j],
            ) by {
                if j < i {
                    assert(new_children@[j] == prev[j]);
                } else {
                    assert(new_children@[j] == c);
                }
            }
        }
        i = i + 1;
    }

    // Digest the node's own content hash followed by each child's Merkle hash.
    let mut buf: Vec<u8> = Vec::new();
    append_bytes(&mut buf, &node.content_hash);
    proof {
        assert(Seq::<u8>::empty() + node.content_hash@ =~= node.content_hash@);
        assert(new_children@.take(0) =~= Seq::<SymbolNode>::empty());
    }
    let mut i: usize = 0;
    while i < n
        invariant
            n == new_children@.len(),
            0 <= i <= n,
            buf@ == node.content_hash@ + spec_merkle_concat(new_children@.take(i as int)),
            forall|j: int| 0 <= j < n ==> spec_merkle_valid(#[trigger] new_children@[j]),
        decreases n - i,
    {
        proof {
            lemma_merkle_concat_take(new_children@, i as int);
        }
        let copied = clone_bytes(&new_children[i].merkle_hash);
        append_bytes(&mut buf, &copied);
        proof {
            assert((node.content_hash@ + spec_merkle_concat(new_children@.take(i as int)))
                + spec_merkle(new_children@[i as int]) =~= node.content_hash@ + (spec_merkle_concat(
                new_children@.take(i as int),
            ) + spec_merkle(new_children@[i as int])));
        }
        i = i + 1;
    }
    proof {
        assert(new_children@.take(n as int) =~= new_children@);
    }
    let h = sha256(buf.as_slice());
    let r = SymbolNode {
        id: node.id.clone(),
        name: node.name.clone(),
        kind: node.kind,
        label: node.label.clone(),
        file_path: node.file_path.clone(),
        byte_range: node.byte_range,
        line_range: node.line_range,
        content_hash: clone_bytes(&node.content_hash),
        merkle_hash: h,
        children: new_children,
        estimated_tokens: node.estimated_tokens,
    };
    proof {
        assert(r.children@ == new_children@);
        assert(spec_merkle(r) == sha256_of(r.content_hash@ + spec_merkle_concat(r.children@)));
    }
    r
}

/// Compute the Merkle hash for a symbol node, bottom-up: first every child's
/// Merkle hash, then the node's own. Must be called on a fully built subtree.
pub fn compute_merkle_hash(node: &mut SymbolNode)
    ensures
        spec_same_tree(*old(node), *final(node)),
        spec_merkle_valid(*final(node)),
{
    let r = node_with_merkle(&*node);
    *node = r;
}

} // verus!
