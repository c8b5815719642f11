//! A nested presentation of the structure of a trie, for debugging.
use crate::bitseqops::BitPosition;
use crate::digestible::{Digest, Digestible};
use crate::node::{Kind, Node, NodeLink, TrieMode};
use crate::trie::Trie;
use crate::utils::{hex_pair, octet, spaced, to_bin, to_hex};
use vstd::prelude::*;
use vstd::string::StringExecFns;

verus! {

/// How the values at the leaves of a trie are printed.
pub trait ValueText<T> {
    /// The text of a value. An implementation inside Verus states it; the default, one fixed text of which nothing is
    /// known, serves implementations outside, whose contracts Verus does not check.
    closed spec fn text(&self, value: T) -> Seq<char> {
        arbitrary()
    }

    /// Append the text of a value.
    fn push_value(&self, out: &mut String, value: &T)
        ensures
            final(out)@ == old(out)@ + self.text(*value),
    ;
}

/// Prints every value as `..`.
pub struct Elided;

impl<T> ValueText<T> for Elided {
    open spec fn text(&self, value: T) -> Seq<char> {
        ".."@
    }

    fn push_value(&self, out: &mut String, value: &T) {
        out.append("..");
    }
}

/// The text of a truncated hash: at most four bytes of it.
pub open spec fn hash_frag(hash: Seq<u8>) -> Seq<char> {
    spaced(
        hash.take(
            if hash.len() < 4 {
                hash.len() as int
            } else {
                4
            },
        ),
        |b: u8| hex_pair(b, false),
    )
}

/// Pretty-print a truncated hash.
pub fn push_hash_frag(out: &mut String, hash: &[u8])
    ensures
        final(out)@ == old(out)@ + hash_frag(hash@),
{
    let end: usize = if hash.len() < 4 {
        hash.len()
    } else {
        4
    };
    let prefix: &[u8] = vstd::slice::slice_subrange(hash, 0, end);
    assert(prefix@ =~= hash@.take(end as int));
    out.append(to_hex::<false>(prefix).as_str());
}

/// The decimal digits of a number.
pub open spec fn decimal(n: nat) -> Seq<char>
    decreases n,
{
    if n < 10 {
        seq![(48 + n) as char]
    } else {
        decimal(n / 10).push((48 + n % 10) as char)
    }
}

/// A number, right-aligned in three places.
pub open spec fn aligned_number(n: nat) -> Seq<char> {
    let digits = decimal(n);
    if digits.len() < 3 {
        Seq::new((3 - digits.len()) as nat, |i: int| ' ') + digits
    } else {
        digits
    }
}

/// Append the decimal digits of a number.
fn push_decimal(out: &mut String, n: usize)
    ensures
        final(out)@ == old(out)@ + decimal(n as nat),
    decreases n,
{
    if n >= 10 {
        push_decimal(out, n / 10);
    }
    out.push((48 + (n % 10) as u8) as char);
    assert(out@ =~= old(out)@ + decimal(n as nat));
}

/// Append a number, right-aligned in three places.
fn push_aligned_number(out: &mut String, n: usize)
    ensures
        final(out)@ == old(out)@ + aligned_number(n as nat),
{
    proof {
        reveal_with_fuel(decimal, 3);
    }
    if n < 100 {
        out.push(' ');
    }
    if n < 10 {
        out.push(' ');
    }
    push_decimal(out, n);
    assert(out@ =~= old(out)@ + aligned_number(n as nat));
}

/// The bits of a byte string, the lowest bit of each byte first.
pub open spec fn bits_text(bytes: Seq<u8>) -> Seq<char> {
    spaced(bytes, |b: u8| octet(b, false))
}

/// The text `before`, followed by that of the trie that the link leads to, which is a child of the number `child`, if
/// any, and is indented by `indent`.
pub open spec fn link_text<
    T: Digestible,
    const N: usize,
    const K: usize,
    H: Digest,
    M: TrieMode,
    S: ValueText<T>,
>(
    before: Seq<char>,
    link: NodeLink<T, N, K, H, M>,
    indent: Seq<char>,
    child: Option<usize>,
    show: S,
) -> Seq<char>
    decreases link, 0int,
{
    let start = match child {
        Some(n) => before + indent + aligned_number(n as nat) + ": "@,
        None => before + indent,
    };
    match link.0 {
        None => start + if indent.len() == 0 {
            "Trie(Empty)"@
        } else {
            "E"@
        },
        Some((_, node)) => node_text(start + hash_frag(link.stored()) + " -> "@, *node, indent, show),
    }
}

/// The text `before`, followed by that of the trie that starts with `node`, whose children are indented more than
/// `indent`.
pub open spec fn node_text<
    T: Digestible,
    const N: usize,
    const K: usize,
    H: Digest,
    M: TrieMode,
    S: ValueText<T>,
>(
    before: Seq<char>,
    node: Node<T, N, K, H, M>,
    indent: Seq<char>,
    show: S,
) -> Seq<char>
    decreases node, 0int,
{
    match node.kind {
        Kind::Leaf { value, .. } => before + "L("@ + bits_text(node.key@) + ", "@ + show.text(value) + ")"@,
        Kind::Opaque { digest, .. } => before + "O("@ + hash_frag(digest@) + ")"@,
        Kind::Branch { mask, children } => links_text(
            before + "B("@ + bits_text(node.key@) + ", "@ + bits_text(seq![mask]) + ", "@,
            children@,
            children@.len(),
            indent + "  "@,
            show,
        ) + "\n"@ + indent + ")"@,
    }
}

/// The text `before`, followed by those of the first `n` children of a branch, each in a line of its own.
pub open spec fn links_text<
    T: Digestible,
    const N: usize,
    const K: usize,
    H: Digest,
    M: TrieMode,
    S: ValueText<T>,
>(
    before: Seq<char>,
    children: Seq<NodeLink<T, N, K, H, M>>,
    n: nat,
    indent: Seq<char>,
    show: S,
) -> Seq<char>
    decreases children, n,
{
    if n == 0 || n > children.len() {
        before
    } else {
        link_text(
            links_text(before, children, (n - 1) as nat, indent, show) + "\n"@,
            children[n - 1],
            indent,
            Some((n - 1) as usize),
            show,
        )
    }
}

/// A short label of the first node that a link leads to.
pub open spec fn label_text<T: Digestible, const N: usize, const K: usize, H: Digest, M: TrieMode>(
    link: NodeLink<T, N, K, H, M>,
) -> Seq<char> {
    let head = hash_frag(link.stored()) + " -> "@;
    match link.0 {
        None => "Trie(Empty)"@,
        Some((_, node)) => match node.kind {
            Kind::Leaf { .. } => head + "L("@ + bits_text(node.key@) + ",*)"@,
            Kind::Branch { mask, .. } => head + "B("@ + bits_text(node.key@) + ","@ + bits_text(seq![mask]) + ",..)"@,
            Kind::Opaque { .. } => head + "O()"@,
        },
    }
}

impl<T: Digestible, const N: usize, const K: usize, H: Digest, M: TrieMode> NodeLink<T, N, K, H, M> {
    /// Generate a short node label for debugging purposes
    pub fn debug_label(&self) -> (label: String)
        ensures
            label@ == label_text(*self),
    {
        let mut label: String = String::new();
        match &self.0 {
            None => {
                label.append("Trie(Empty)");
                assert(label@ =~= "Trie(Empty)"@);
            },
            Some((hash, node)) => {
                push_hash_frag(&mut label, hash.as_slice());
                assert(label@ =~= hash_frag(hash@));
                label.append(" -> ");
                match &node.kind {
                    Kind::Leaf { .. } => {
                        label.append("L(");
                        label.append(to_bin::<false>(node.key.as_slice()).as_str());
                        label.append(",*)");
                    },
                    Kind::Branch { mask, .. } => {
                        label.append("B(");
                        label.append(to_bin::<false>(node.key.as_slice()).as_str());
                        label.append(",");
                        let tag: Vec<u8> = vec![*mask];
                        assert(tag@ =~= seq![*mask]);
                        label.append(to_bin::<false>(tag.as_slice()).as_str());
                        label.append(",..)");
                    },
                    Kind::Opaque { .. } => {
                        label.append("O()");
                    },
                }
            },
        }
        label
    }

    /// Append the text of the trie that this link leads to.
    pub fn push_text<S: ValueText<T>>(&self, out: &mut String, indent: &String, child_num: Option<usize>, show: &S)
        ensures
            final(out)@ == link_text(old(out)@, *self, indent@, child_num, *show),
        decreases self,
    {
        out.append(indent.as_str());
        if let Some(n) = child_num {
            push_aligned_number(out, n);
            out.append(": ");
        }
        match &self.0 {
            None => {
                if indent.as_str().is_empty() {
                    out.append("Trie(Empty)");
                } else {
                    out.append("E");
                }
            },
            Some((hash, node)) => {
                push_hash_frag(out, hash.as_slice());
                out.append(" -> ");
                node.push_text(out, indent, show);
            },
        }
    }
}

impl<T: Digestible, const N: usize, const K: usize, H: Digest, M: TrieMode> Node<T, N, K, H, M> {
    /// Append the text of the trie that starts with this node.
    pub fn push_text<S: ValueText<T>>(&self, out: &mut String, indent: &String, show: &S)
        ensures
            final(out)@ == node_text(old(out)@, *self, indent@, *show),
        decreases self,
    {
        match &self.kind {
            Kind::Leaf { value, .. } => {
                out.append("L(");
                out.append(to_bin::<false>(self.key.as_slice()).as_str());
                out.append(", ");
                show.push_value(out, value);
                out.append(")");
            },
            Kind::Opaque { digest, .. } => {
                out.append("O(");
                push_hash_frag(out, digest.as_slice());
                out.append(")");
            },
            Kind::Branch { mask, children } => {
                out.append("B(");
                out.append(to_bin::<false>(self.key.as_slice()).as_str());
                out.append(", ");
                let tag: Vec<u8> = vec![*mask];
                assert(tag@ =~= seq![*mask]);
                out.append(to_bin::<false>(tag.as_slice()).as_str());
                out.append(", ");
                let mut deeper: String = indent.clone();
                deeper.append("  ");
                let ghost head = out@;
                let mut i: usize = 0;
                while i < children.len()
                    invariant
                        i <= children@.len(),
                        decreases_to!(self => children@),
                        out@ == links_text(head, children@, i as nat, deeper@, *show),
                    decreases children@.len() - i,
                {
                    out.append("\n");
                    children[i].push_text(out, &deeper, Some(i), show);
                    i += 1;
                }
                out.append("\n");
                out.append(indent.as_str());
                out.append(")");
            },
        }
    }

    /// Return a nested presentation of the trie that starts with this node; leaf values are elided as `..`
    pub fn debug_text(&self) -> (text: String)
        ensures
            text@ == node_text(Seq::empty(), *self, Seq::empty(), Elided),
    {
        let mut text: String = String::new();
        let indent: String = String::new();
        self.push_text(&mut text, &indent, &Elided);
        text
    }
}

impl<T: Digestible, const N: usize, const K: usize, H: Digest, M: TrieMode> NodeLink<T, N, K, H, M> {
    /// Return a nested presentation of the trie that this link leads to; leaf values are elided as `..`
    pub fn debug_text(&self) -> (text: String)
        ensures
            text@ == link_text(Seq::empty(), *self, Seq::empty(), None, Elided),
    {
        let mut text: String = String::new();
        let indent: String = String::new();
        self.push_text(&mut text, &indent, None, &Elided);
        text
    }
}

impl<T: Digestible, const N: usize, const K: usize, H: Digest, M: TrieMode> Trie<T, N, K, H, M> {
    /// Return a nested presentation of the trie structure; leaf values are elided as `..`
    pub fn debug_text(&self) -> (text: String)
        ensures
            text@ == link_text(Seq::empty(), self.link(), Seq::empty(), None, Elided),
    {
        self.debug_with_values(&Elided)
    }

    /// Return a nested presentation of the trie structure, where leaf values are printed as `show` says
    pub fn debug_with_values<S: ValueText<T>>(&self, show: &S) -> (text: String)
        ensures
            text@ == link_text(Seq::empty(), self.link(), Seq::empty(), None, *show),
    {
        let mut text: String = String::new();
        let indent: String = String::new();
        self.root().push_text(&mut text, &indent, None, show);
        text
    }
}

// ---------------------------------------------------------------------------
// Debug
// ---------------------------------------------------------------------------

/// Declares `std::fmt::Formatter`. What it writes to, and what it has written, is not stated.
#[verifier::external_type_specification]
#[verifier::external_body]
pub struct ExFormatter<'a>(std::fmt::Formatter<'a>);

/// Declares `std::fmt::Error`, which carries nothing but that writing failed.
#[verifier::external_type_specification]
#[verifier::external_body]
pub struct ExFormatError(std::fmt::Error);

/// `std::fmt::Formatter::write_str` writes a text to whatever the formatter writes to. Nothing is claimed of the
/// result: whether writing fails depends on where the text goes.
pub assume_specification<'a>[ std::fmt::Formatter::<'a>::write_str ](
    f: &mut std::fmt::Formatter<'a>,
    data: &str,
) -> (out: Result<(), std::fmt::Error>)
;

/// The text of a bit position.
pub open spec fn position_text(pos: BitPosition) -> Seq<char> {
    "{"@ + decimal(pos.index as nat) + ":"@ + decimal(pos.bits as nat) + "}"@
}

impl BitPosition {
    /// Return the position as text: the index of the byte and that of the bit, in braces
    pub fn debug_text(&self) -> (text: String)
        ensures
            text@ == position_text(*self),
    {
        let mut text: String = String::new();
        text.append("{");
        push_decimal(&mut text, self.index);
        text.append(":");
        push_decimal(&mut text, self.bits);
        text.append("}");
        assert(text@ =~= position_text(*self));
        text
    }
}

impl std::fmt::Debug for BitPosition {
    fn fmt(&self, f: &mut std::fmt::Formatter<'_>) -> std::fmt::Result {
        f.write_str(self.debug_text().as_str())
    }
}

impl<T: Digestible, const N: usize, const K: usize, H: Digest, M: TrieMode> std::fmt::Debug for Node<T, N, K, H, M> {
    fn fmt(&self, f: &mut std::fmt::Formatter<'_>) -> std::fmt::Result {
        f.write_str(self.debug_text().as_str())
    }
}

impl<T: Digestible, const N: usize, const K: usize, H: Digest, M: TrieMode> std::fmt::Debug for NodeLink<
    T,
    N,
    K,
    H,
    M,
> {
    fn fmt(&self, f: &mut std::fmt::Formatter<'_>) -> std::fmt::Result {
        f.write_str(self.debug_text().as_str())
    }
}

impl<T: Digestible, const N: usize, const K: usize, H: Digest, M: TrieMode> std::fmt::Debug for Trie<T, N, K, H, M> {
    fn fmt(&self, f: &mut std::fmt::Formatter<'_>) -> std::fmt::Result {
        f.write_str(self.debug_text().as_str())
    }
}

}
