//! What the text of a trie shows.
use crate::bitseqops::{byte_bit, radix_bits, BitPosition};
use crate::debug::{
    aligned_number, bits_text, decimal, hash_frag, label_text, link_text, links_text, node_text, position_text,
    Elided, ValueText,
};
use crate::digestible::{Digest, Digestible};
use crate::laws::{law_keys_are_concatenations, leaf_at};
use crate::node::{trees, Kind, Node, NodeLink, TrieMode};
use crate::spelling::{leaves, leaves_below, lemma_spelled_len, spelled};
use crate::tree::Tree;
use crate::trie::Trie;
use crate::utils::{ascii_text, ascii_texts, hex_digit, hex_pair, octet, spaced};
use vstd::prelude::*;

verus! {

// ---------------------------------------------------------------------------
// Pieces of a text
// ---------------------------------------------------------------------------

/// The text `piece` stands somewhere in the text `whole`.
#[verifier::opaque]
pub open spec fn has_piece(whole: Seq<char>, piece: Seq<char>) -> bool {
    exists|i: int| 0 <= i <= whole.len() - piece.len() && #[trigger] whole.subrange(i, i + piece.len()) == piece
}

/// A piece of a part is a piece of the whole.
proof fn lemma_piece(left: Seq<char>, part: Seq<char>, right: Seq<char>, piece: Seq<char>)
    requires
        has_piece(part, piece),
    ensures
        has_piece(left + part + right, piece),
{
    reveal(has_piece);
    let i = choose|i: int|
        0 <= i <= part.len() - piece.len() && #[trigger] part.subrange(i, i + piece.len()) == piece;
    let whole = left + part + right;
    let n = left.len() as int + i;
    assert(whole.subrange(n, n + piece.len()) =~= part.subrange(i, i + piece.len()));
}

/// A text is a piece of itself.
proof fn lemma_whole_piece(text: Seq<char>)
    ensures
        has_piece(text, text),
{
    reveal(has_piece);
    assert(text.subrange(0int, 0int + text.len()) =~= text);
}

/// One more line keeps the pieces of the lines before it, and is one itself.
proof fn lemma_more_lines(lines: Seq<char>, end: Seq<char>, own: Seq<char>)
    ensures
        has_piece(lines + end + own + end, end + own + end),
        forall|piece: Seq<char>| #[trigger] has_piece(lines + end, piece) ==> has_piece(
            lines + end + own + end,
            piece,
        ),
{
    let none = Seq::<char>::empty();
    let all = lines + end + own + end;
    let last = end + own + end;
    lemma_whole_piece(last);
    lemma_piece(lines, last, none, last);
    assert(lines + last + none =~= all);
    assert forall|piece: Seq<char>| #[trigger] has_piece(lines + end, piece) implies has_piece(all, piece) by {
        lemma_piece(none, lines + end, own + end, piece);
        assert(none + (lines + end) + (own + end) =~= all);
    }
}

// ---------------------------------------------------------------------------
// Where a text starts
// ---------------------------------------------------------------------------

/// The text of a link starts where the text before it ends, and does not depend on that text.
proof fn lemma_link_before<T: Digestible, const N: usize, const K: usize, H: Digest, M: TrieMode, S: ValueText<T>>(
    before: Seq<char>,
    link: NodeLink<T, N, K, H, M>,
    indent: Seq<char>,
    child: Option<usize>,
    show: S,
)
    ensures
        link_text(before, link, indent, child, show) == before + link_text(Seq::empty(), link, indent, child, show),
    decreases link, 0int,
{
    let none = Seq::<char>::empty();
    let lead = match child {
        Some(n) => indent + aligned_number(n as nat) + ": "@,
        None => indent,
    };
    let a = match child {
        Some(n) => before + indent + aligned_number(n as nat) + ": "@,
        None => before + indent,
    };
    let b = match child {
        Some(n) => none + indent + aligned_number(n as nat) + ": "@,
        None => none + indent,
    };
    assert(a =~= before + lead);
    assert(b =~= lead);
    match link.0 {
        None => {
            let e = if indent.len() == 0 {
                "Trie(Empty)"@
            } else {
                "E"@
            };
            assert(a + e =~= before + (b + e));
        },
        Some((_, node)) => {
            let x = a + hash_frag(link.stored()) + " -> "@;
            let y = b + hash_frag(link.stored()) + " -> "@;
            lemma_node_before(x, *node, indent, show);
            lemma_node_before(y, *node, indent, show);
            let rest = node_text(none, *node, indent, show);
            assert(x + rest =~= before + (y + rest));
        },
    }
}

/// The text of a node starts where the text before it ends, and does not depend on that text.
proof fn lemma_node_before<T: Digestible, const N: usize, const K: usize, H: Digest, M: TrieMode, S: ValueText<T>>(
    before: Seq<char>,
    node: Node<T, N, K, H, M>,
    indent: Seq<char>,
    show: S,
)
    ensures
        node_text(before, node, indent, show) == before + node_text(Seq::empty(), node, indent, show),
    decreases node, 0int,
{
    let none = Seq::<char>::empty();
    match node.kind {
        Kind::Leaf { value, .. } => {
            assert(before + "L("@ + bits_text(node.key@) + ", "@ + show.text(value) + ")"@ =~= before + (none + "L("@
                + bits_text(node.key@) + ", "@ + show.text(value) + ")"@));
        },
        Kind::Opaque { digest, .. } => {
            assert(before + "O("@ + hash_frag(digest@) + ")"@ =~= before + (none + "O("@ + hash_frag(digest@)
                + ")"@));
        },
        Kind::Branch { mask, children } => {
            let x = before + "B("@ + bits_text(node.key@) + ", "@ + bits_text(seq![mask]) + ", "@;
            let y = none + "B("@ + bits_text(node.key@) + ", "@ + bits_text(seq![mask]) + ", "@;
            let deeper = indent + "  "@;
            let n = children@.len();
            lemma_links_before(x, children@, n, deeper, show);
            lemma_links_before(y, children@, n, deeper, show);
            let rest = links_text(none, children@, n, deeper, show);
            assert(x + rest + "\n"@ + indent + ")"@ =~= before + (y + rest + "\n"@ + indent + ")"@));
        },
    }
}

/// The texts of the children of a branch start where the text before them ends, and do not depend on that text.
proof fn lemma_links_before<T: Digestible, const N: usize, const K: usize, H: Digest, M: TrieMode, S: ValueText<T>>(
    before: Seq<char>,
    children: Seq<NodeLink<T, N, K, H, M>>,
    n: nat,
    indent: Seq<char>,
    show: S,
)
    ensures
        links_text(before, children, n, indent, show) == before + links_text(
            Seq::empty(),
            children,
            n,
            indent,
            show,
        ),
    decreases children, n,
{
    let none = Seq::<char>::empty();
    if n == 0 || n > children.len() {
        assert(before =~= before + none);
    } else {
        let m = (n - 1) as nat;
        let child = Some((n - 1) as usize);
        lemma_links_before(before, children, m, indent, show);
        let a = links_text(before, children, m, indent, show) + "\n"@;
        let b = links_text(none, children, m, indent, show) + "\n"@;
        lemma_link_before(a, children[n - 1], indent, child, show);
        lemma_link_before(b, children[n - 1], indent, child, show);
        let rest = link_text(none, children[n - 1], indent, child, show);
        assert(a + rest =~= before + (b + rest));
    }
}

// ---------------------------------------------------------------------------
// What stands in a text
// ---------------------------------------------------------------------------

/// The text of a link that leads to a part of a trie, which is the child `child` of a branch, if any, and is
/// indented by `indent`.
pub open spec fn part_text<T: Digestible, const N: usize, const K: usize, H: Digest, M: TrieMode, S: ValueText<T>>(
    link: NodeLink<T, N, K, H, M>,
    indent: Seq<char>,
    child: Option<usize>,
    show: S,
) -> Seq<char> {
    link_text(Seq::empty(), link, indent, child, show)
}

/// The text of each of the first `n` children stands in the text of them all, in lines of its own.
proof fn lemma_child_text<T: Digestible, const N: usize, const K: usize, H: Digest, M: TrieMode, S: ValueText<T>>(
    children: Seq<NodeLink<T, N, K, H, M>>,
    n: nat,
    indent: Seq<char>,
    show: S,
    i: int,
)
    requires
        0 <= i < n <= children.len(),
        children.len() <= usize::MAX,
    ensures
        has_piece(
            links_text(Seq::empty(), children, n, indent, show) + "\n"@,
            "\n"@ + part_text(children[i], indent, Some(i as usize), show) + "\n"@,
        ),
    decreases n,
{
    let m = (n - 1) as nat;
    let none = Seq::<char>::empty();
    let lines = links_text(none, children, m, indent, show);
    let all = links_text(none, children, n, indent, show);
    let own = part_text(children[n - 1], indent, Some((n - 1) as usize), show);
    lemma_link_before(lines + "\n"@, children[n - 1], indent, Some((n - 1) as usize), show);
    assert(all == lines + "\n"@ + own);
    lemma_more_lines(lines, "\n"@, own);
    if i < n - 1 {
        lemma_child_text(children, m, indent, show, i);
    }
}

/// The text of a branch is followed, in lines of their own and indented further, by those of all of its children, at
/// any depth.
pub proof fn law_text_shows_children<
    T: Digestible,
    const N: usize,
    const K: usize,
    H: Digest,
    M: TrieMode,
    S: ValueText<T>,
>(
    link: NodeLink<T, N, K, H, M>,
    node: Node<T, N, K, H, M>,
    indent: Seq<char>,
    child: Option<usize>,
    show: S,
    i: int,
)
    requires
        link.leads_to(node),
        node.kind is Branch,
        0 <= i < node.kind->children@.len(),
    ensures
        has_piece(
            part_text(link, indent, child, show),
            "\n"@ + part_text(node.kind->children@[i], indent + "  "@, Some(i as usize), show) + "\n"@,
        ),
{
    let children = node.kind->children;
    let mask = node.kind->Branch_mask;
    let none = Seq::<char>::empty();
    let deeper = indent + "  "@;
    let lead = match child {
        Some(n) => none + indent + aligned_number(n as nat) + ": "@,
        None => none + indent,
    };
    let head = lead + hash_frag(link.stored()) + " -> "@ + "B("@ + bits_text(node.key@) + ", "@ + bits_text(
        seq![mask],
    ) + ", "@;
    let n = children@.len();
    let piece = "\n"@ + part_text(children@[i], deeper, Some(i as usize), show) + "\n"@;
    assert(children.len() <= usize::MAX);
    lemma_child_text(children@, n, deeper, show, i);
    lemma_links_before(head, children@, n, deeper, show);
    let lines = links_text(none, children@, n, deeper, show);
    lemma_piece(head, lines + "\n"@, indent + ")"@, piece);
    assert(head + (lines + "\n"@) + (indent + ")"@) =~= head + lines + "\n"@ + indent + ")"@);
}

/// Several texts, each after the end of a line.
pub open spec fn lines_of(texts: Seq<Seq<char>>) -> Seq<char>
    decreases texts.len(),
{
    if texts.len() == 0 {
        Seq::empty()
    } else {
        lines_of(texts.drop_last()) + "\n"@ + texts.last()
    }
}

proof fn lemma_lines_of<T: Digestible, const N: usize, const K: usize, H: Digest, M: TrieMode, S: ValueText<T>>(
    children: Seq<NodeLink<T, N, K, H, M>>,
    n: nat,
    indent: Seq<char>,
    show: S,
)
    requires
        n <= children.len(),
    ensures
        links_text(Seq::empty(), children, n, indent, show) == lines_of(
            Seq::new(n, |i: int| part_text(children[i], indent, Some(i as usize), show)),
        ),
    decreases n,
{
    let texts = Seq::new(n, |i: int| part_text(children[i], indent, Some(i as usize), show));
    if n > 0 {
        let m = (n - 1) as nat;
        lemma_lines_of(children, m, indent, show);
        assert(texts.drop_last() =~= Seq::new(
            m,
            |i: int| part_text(children[i], indent, Some(i as usize), show),
        ));
        lemma_link_before(
            links_text(Seq::empty(), children, m, indent, show) + "\n"@,
            children[n - 1],
            indent,
            Some((n - 1) as usize),
            show,
        );
    }
}

/// What stands at the start of each line: the indentation and, for a child, its number.
pub open spec fn line_start(indent: Seq<char>, child: Option<usize>) -> Seq<char> {
    match child {
        Some(n) => indent + aligned_number(n as nat) + ": "@,
        None => indent,
    }
}

/// How the text of a trie is made of those of its parts, at any depth. An empty slot is an `E`, an empty trie is named;
/// a leaf shows its digest, its fragment and its value; a hidden part shows its digest twice, as it is stored and as it
/// is known; a branch shows its digest, its fragment and its mask, then the texts of all of its children, in order,
/// numbered and indented further, each in lines of its own, and a closing line.
pub proof fn law_text_of_parts<
    T: Digestible,
    const N: usize,
    const K: usize,
    H: Digest,
    M: TrieMode,
    S: ValueText<T>,
>(
    link: NodeLink<T, N, K, H, M>,
    indent: Seq<char>,
    child: Option<usize>,
    show: S,
)
    ensures
        part_text(link, indent, child, show) == line_start(indent, child) + match link.0 {
            None => if indent.len() == 0 {
                "Trie(Empty)"@
            } else {
                "E"@
            },
            Some((hash, node)) => hash_frag(hash@) + " -> "@ + match node.kind {
                Kind::Leaf { value, .. } => "L("@ + bits_text(node.key@) + ", "@ + show.text(value) + ")"@,
                Kind::Opaque { digest, .. } => "O("@ + hash_frag(digest@) + ")"@,
                Kind::Branch { mask, children } => "B("@ + bits_text(node.key@) + ", "@ + bits_text(seq![mask])
                    + ", "@ + lines_of(
                    Seq::new(
                        children@.len(),
                        |i: int| part_text(children@[i], indent + "  "@, Some(i as usize), show),
                    ),
                ) + "\n"@ + indent + ")"@,
            },
        },
{
    let none = Seq::<char>::empty();
    let lead = line_start(indent, child);
    let start = match child {
        Some(n) => none + indent + aligned_number(n as nat) + ": "@,
        None => none + indent,
    };
    assert(start =~= lead);
    if let Some((hash, node)) = link.0 {
        let frag = hash_frag(hash@);
        lemma_node_before(start + frag + " -> "@, *node, indent, show);
        let own = node_text(none, *node, indent, show);
        assert(lead + frag + " -> "@ + own =~= lead + (frag + " -> "@ + own));
        let bits = bits_text(node.key@);
        match node.kind {
            Kind::Leaf { value, .. } => {
                assert(own =~= "L("@ + bits + ", "@ + show.text(value) + ")"@);
            },
            Kind::Opaque { digest, .. } => {
                assert(own =~= "O("@ + hash_frag(digest@) + ")"@);
            },
            Kind::Branch { mask, children } => {
                let n = children@.len();
                let deeper = indent + "  "@;
                let tag = bits_text(seq![mask]);
                let head = none + "B("@ + bits + ", "@ + tag + ", "@;
                lemma_links_before(head, children@, n, deeper, show);
                lemma_lines_of(children@, n, deeper, show);
                assert(head =~= "B("@ + bits + ", "@ + tag + ", "@);
            },
        }
    }
}

/// A piece of a piece is a piece of the whole.
proof fn lemma_piece_of_piece(whole: Seq<char>, part: Seq<char>, piece: Seq<char>)
    requires
        has_piece(whole, part),
        has_piece(part, piece),
    ensures
        has_piece(whole, piece),
{
    assert(exists|i: int|
        0 <= i <= whole.len() - part.len() && #[trigger] whole.subrange(i, i + part.len()) == part) by {
        reveal(has_piece);
    }
    let i = choose|i: int| 0 <= i <= whole.len() - part.len() && #[trigger] whole.subrange(i, i + part.len()) == part;
    let left = whole.take(i);
    let right = whole.skip(i + part.len());
    lemma_piece(left, part, right, piece);
    assert(left + part + right =~= whole);
}

/// The line of a leaf, from its digest on.
pub open spec fn leaf_line<T, S: ValueText<T>>(digest: Seq<u8>, key: Seq<u8>, value: T, show: S) -> Seq<char> {
    hash_frag(digest) + " -> "@ + "L("@ + bits_text(key) + ", "@ + show.text(value) + ")"@
}

/// The line of the leaf of a stored key stands in the text.
proof fn lemma_leaf_text<T: Digestible, const N: usize, const K: usize, H: Digest, M: TrieMode, S: ValueText<T>>(
    link: NodeLink<T, N, K, H, M>,
    indent: Seq<char>,
    child: Option<usize>,
    show: S,
    off: int,
    k: Seq<u8>,
)
    requires
        link.tree().value_at(radix_bits(K as int), off, k) is Some,
    ensures
        ({
            let leaf = leaf_at(link.tree(), radix_bits(K as int), off, k);
            &&& leaf matches Tree::Leaf { digest, key, value }
            &&& link.tree().value_at(radix_bits(K as int), off, k) == Some(value)
            &&& has_piece(part_text(link, indent, child, show), leaf_line(digest, key, value, show))
        }),
    decreases link,
{
    let w = radix_bits(K as int);
    let t = link.tree();
    let (hash, node) = link.0->0;
    match node.kind {
        Kind::Leaf { value, .. } => {
            let none = Seq::<char>::empty();
            let lead = match child {
                Some(n) => none + indent + aligned_number(n as nat) + ": "@,
                None => none + indent,
            };
            let line = leaf_line(hash@, node.key@, value, show);
            lemma_whole_piece(line);
            lemma_piece(lead, line, none, line);
            assert(lead + line + none =~= lead + hash_frag(hash@) + " -> "@ + "L("@ + bits_text(node.key@) + ", "@
                + show.text(value) + ")"@);
        },
        Kind::Branch { mask, children } => {
            let s = t.slot(w, k);
            let c = children@[s];
            let deeper = indent + "  "@;
            let none = Seq::<char>::empty();
            assert(t->children[s] == c.tree());
            lemma_leaf_text(c, deeper, Some(s as usize), show, t.start() + w, t.rest(k));
            let leaf = leaf_at(c.tree(), w, t.start() + w, t.rest(k));
            let line = leaf_line(leaf->Leaf_digest, leaf.key(), leaf->value, show);
            let own = part_text(c, deeper, Some(s as usize), show);
            law_text_shows_children(link, *node, indent, child, show, s);
            lemma_piece("\n"@, own, "\n"@, line);
            lemma_piece_of_piece(part_text(link, indent, child, show), "\n"@ + own + "\n"@, line);
        },
        _ => {},
    }
}

/// The text of a trie shows every stored key: the digest of its leaf, truncated, the bits of the fragment of the leaf,
/// and the text of the value that is stored under the key stand in it, one after the other.
pub proof fn law_text_shows_stored_keys<
    T: Digestible,
    const N: usize,
    const K: usize,
    H: Digest,
    M: TrieMode,
    S: ValueText<T>,
>(
    t: Trie<T, N, K, H, M>,
    show: S,
    k: Seq<u8>,
)
    requires
        t@.dom().contains(k),
    ensures
        ({
            let leaf = leaf_at(t.tree(), radix_bits(K as int), 0, k);
            has_piece(
                part_text(t.link(), Seq::empty(), None, show),
                hash_frag(leaf->Leaf_digest) + " -> "@ + "L("@ + bits_text(leaf.key()) + ", "@ + show.text(t@[k])
                    + ")"@,
            )
        }),
{
    lemma_leaf_text(t.link(), Seq::empty(), None, show, 0, k);
}

// ---------------------------------------------------------------------------
// How many nodes a text shows
// ---------------------------------------------------------------------------

/// How often a character stands in a text.
pub open spec fn count(text: Seq<char>, c: char) -> nat
    decreases text.len(),
{
    if text.len() == 0 {
        0
    } else {
        count(text.drop_last(), c) + if text.last() == c {
            1nat
        } else {
            0nat
        }
    }
}

proof fn lemma_count_sum(a: Seq<char>, b: Seq<char>, c: char)
    ensures
        count(a + b, c) == count(a, c) + count(b, c),
    decreases b.len(),
{
    if b.len() == 0 {
        assert(a + b =~= a);
    } else {
        lemma_count_sum(a, b.drop_last(), c);
        assert((a + b).drop_last() =~= a + b.drop_last());
    }
}

proof fn lemma_count_none(text: Seq<char>, c: char)
    requires
        forall|i: int| 0 <= i < text.len() ==> #[trigger] text[i] != c,
    ensures
        count(text, c) == 0,
    decreases text.len(),
{
    if text.len() > 0 {
        assert forall|i: int| 0 <= i < text.drop_last().len() implies #[trigger] text.drop_last()[i] != c by {
            assert(text[i] != c);
        }
        lemma_count_none(text.drop_last(), c);
    }
}

/// A letter that stands for a kind of node.
pub open spec fn is_letter(c: char) -> bool {
    c == 'L' || c == 'B' || c == 'O'
}

/// The letter that stands for the kind of the first node of a trie.
pub open spec fn letter<T>(t: Tree<T>) -> Option<char> {
    match t {
        Tree::Empty => None,
        Tree::Leaf { .. } => Some('L'),
        Tree::Branch { .. } => Some('B'),
        Tree::Opaque { .. } => Some('O'),
    }
}

proof fn lemma_spaced_count(bytes: Seq<u8>, text: spec_fn(u8) -> Seq<char>, c: char)
    requires
        c != ' ',
        forall|b: u8| count(#[trigger] text(b), c) == 0,
    ensures
        count(spaced(bytes, text), c) == 0,
    decreases bytes.len(),
{
    if bytes.len() >= 2 {
        lemma_spaced_count(bytes.drop_last(), text, c);
        let x = spaced(bytes.drop_last(), text);
        assert(x.push(' ').drop_last() =~= x);
        lemma_count_sum(x.push(' '), text(bytes.last()), c);
    }
}

/// No letter stands in the bits of a byte string, in a truncated hash or in a number.
proof fn lemma_letters_elsewhere(bytes: Seq<u8>, n: nat, c: char)
    requires
        is_letter(c),
    ensures
        count(bits_text(bytes), c) == 0,
        count(hash_frag(bytes), c) == 0,
        count(aligned_number(n), c) == 0,
{
    let bits = |b: u8| octet(b, false);
    assert forall|b: u8| count(#[trigger] bits(b), c) == 0 by {
        lemma_count_none(octet(b, false), c);
    }
    lemma_spaced_count(bytes, bits, c);
    let hex = |b: u8| hex_pair(b, false);
    assert forall|b: u8| count(#[trigger] hex(b), c) == 0 by {
        lemma_count_none(hex_pair(b, false), c);
    }
    lemma_spaced_count(
        bytes.take(
            if bytes.len() < 4 {
                bytes.len() as int
            } else {
                4
            },
        ),
        hex,
        c,
    );
    lemma_decimal_count(n, c);
    let digits = decimal(n);
    if digits.len() < 3 {
        let pad = Seq::new((3 - digits.len()) as nat, |i: int| ' ');
        lemma_count_none(pad, c);
        lemma_count_sum(pad, digits, c);
    }
}

proof fn lemma_decimal_count(n: nat, c: char)
    requires
        is_letter(c),
    ensures
        count(decimal(n), c) == 0,
    decreases n,
{
    if n < 10 {
        lemma_count_none(decimal(n), c);
    } else {
        lemma_decimal_count(n / 10, c);
        assert(decimal(n).drop_last() =~= decimal(n / 10));
    }
}

/// How often the letter of a kind of node stands in the text of a trie: once for each node of that kind, and as often
/// as it stands in the texts of the values.
pub open spec fn shown<T, S: ValueText<T>>(t: Tree<T>, c: char, show: S) -> nat
    decreases t, 0nat,
{
    let own = if letter(t) == Some(c) {
        1nat
    } else {
        0nat
    };
    own + match t {
        Tree::Leaf { value, .. } => count(show.text(value), c),
        Tree::Branch { key, mask, children } => shown_below(children, children.len(), c, show),
        _ => 0,
    }
}

/// How often the letter of a kind of node stands in the texts of the first `n` of several tries.
pub open spec fn shown_below<T, S: ValueText<T>>(children: Seq<Tree<T>>, n: nat, c: char, show: S) -> nat
    decreases children, n,
{
    if n == 0 || n > children.len() {
        0
    } else {
        shown_below(children, (n - 1) as nat, c, show) + shown(children[n - 1], c, show)
    }
}

/// How often a letter stands in the fixed texts.
proof fn lemma_literals(c: char)
    requires
        is_letter(c),
    ensures
        count("L("@, c) == if c == 'L' { 1nat } else { 0nat },
        count("B("@, c) == if c == 'B' { 1nat } else { 0nat },
        count("O("@, c) == if c == 'O' { 1nat } else { 0nat },
        count(": "@, c) == 0,
        count(" -> "@, c) == 0,
        count(", "@, c) == 0,
        count(")"@, c) == 0,
        count("  "@, c) == 0,
        count("\n"@, c) == 0,
        count("E"@, c) == 0,
        count("Trie(Empty)"@, c) == 0,
        count(".."@, c) == 0,
{
    reveal_strlit("L(");
    reveal_strlit("B(");
    reveal_strlit("O(");
    reveal_strlit(": ");
    reveal_strlit(" -> ");
    reveal_strlit(", ");
    reveal_strlit(")");
    reveal_strlit("  ");
    reveal_strlit("\n");
    reveal_strlit("E");
    reveal_strlit("Trie(Empty)");
    reveal_strlit("..");
    reveal_with_fuel(count, 3);
    assert("L("@.drop_last().last() == 'L');
    assert("B("@.drop_last().last() == 'B');
    assert("O("@.drop_last().last() == 'O');
    lemma_count_none(": "@, c);
    lemma_count_none(" -> "@, c);
    lemma_count_none(", "@, c);
    lemma_count_none(")"@, c);
    lemma_count_none("  "@, c);
    lemma_count_none("\n"@, c);
    lemma_count_none("E"@, c);
    lemma_count_none("Trie(Empty)"@, c);
    lemma_count_none(".."@, c);
}

proof fn lemma_link_count<T: Digestible, const N: usize, const K: usize, H: Digest, M: TrieMode, S: ValueText<T>>(
    before: Seq<char>,
    link: NodeLink<T, N, K, H, M>,
    indent: Seq<char>,
    child: Option<usize>,
    show: S,
    c: char,
)
    requires
        is_letter(c),
        count(indent, c) == 0,
    ensures
        count(link_text(before, link, indent, child, show), c) == count(before, c) + shown(link.tree(), c, show),
    decreases link, 0int,
{
    lemma_literals(c);
    lemma_count_sum(before, indent, c);
    let start = match child {
        Some(n) => {
            lemma_letters_elsewhere(Seq::empty(), n as nat, c);
            lemma_count_sum(before + indent, aligned_number(n as nat), c);
            lemma_count_sum(before + indent + aligned_number(n as nat), ": "@, c);
            before + indent + aligned_number(n as nat) + ": "@
        },
        None => before + indent,
    };
    assert(count(start, c) == count(before, c));
    match link.0 {
        None => {
            lemma_count_sum(
                start,
                if indent.len() == 0 {
                    "Trie(Empty)"@
                } else {
                    "E"@
                },
                c,
            );
        },
        Some((hash, node)) => {
            lemma_letters_elsewhere(link.stored(), 0, c);
            lemma_count_sum(start, hash_frag(link.stored()), c);
            lemma_count_sum(start + hash_frag(link.stored()), " -> "@, c);
            lemma_node_count(start + hash_frag(link.stored()) + " -> "@, *node, hash@, indent, show, c);
            assert(link.tree() == node.tree(hash@));
        },
    }
}

proof fn lemma_node_count<T: Digestible, const N: usize, const K: usize, H: Digest, M: TrieMode, S: ValueText<T>>(
    before: Seq<char>,
    node: Node<T, N, K, H, M>,
    hash: Seq<u8>,
    indent: Seq<char>,
    show: S,
    c: char,
)
    requires
        is_letter(c),
        count(indent, c) == 0,
    ensures
        count(node_text(before, node, indent, show), c) == count(before, c) + shown(node.tree(hash), c, show),
    decreases node, 0int,
{
    lemma_literals(c);
    lemma_letters_elsewhere(node.key@, 0, c);
    let bits = bits_text(node.key@);
    match node.kind {
        Kind::Leaf { value, .. } => {
            let text = show.text(value);
            lemma_count_sum(before, "L("@, c);
            lemma_count_sum(before + "L("@, bits, c);
            lemma_count_sum(before + "L("@ + bits, ", "@, c);
            lemma_count_sum(before + "L("@ + bits + ", "@, text, c);
            lemma_count_sum(before + "L("@ + bits + ", "@ + text, ")"@, c);
        },
        Kind::Opaque { digest, .. } => {
            let frag = hash_frag(digest@);
            lemma_letters_elsewhere(digest@, 0, c);
            lemma_count_sum(before, "O("@, c);
            lemma_count_sum(before + "O("@, frag, c);
            lemma_count_sum(before + "O("@ + frag, ")"@, c);
        },
        Kind::Branch { mask, children } => {
            let tag = bits_text(seq![mask]);
            let deeper = indent + "  "@;
            let n = children@.len();
            lemma_letters_elsewhere(seq![mask], 0, c);
            lemma_count_sum(indent, "  "@, c);
            lemma_count_sum(before, "B("@, c);
            lemma_count_sum(before + "B("@, bits, c);
            lemma_count_sum(before + "B("@ + bits, ", "@, c);
            lemma_count_sum(before + "B("@ + bits + ", "@, tag, c);
            lemma_count_sum(before + "B("@ + bits + ", "@ + tag, ", "@, c);
            let head = before + "B("@ + bits + ", "@ + tag + ", "@;
            lemma_links_count(head, children@, n, deeper, show, c);
            let lines = links_text(head, children@, n, deeper, show);
            lemma_count_sum(lines, "\n"@, c);
            lemma_count_sum(lines + "\n"@, indent, c);
            lemma_count_sum(lines + "\n"@ + indent, ")"@, c);
        },
    }
}

proof fn lemma_links_count<T: Digestible, const N: usize, const K: usize, H: Digest, M: TrieMode, S: ValueText<T>>(
    before: Seq<char>,
    children: Seq<NodeLink<T, N, K, H, M>>,
    n: nat,
    indent: Seq<char>,
    show: S,
    c: char,
)
    requires
        is_letter(c),
        count(indent, c) == 0,
        n <= children.len(),
    ensures
        count(links_text(before, children, n, indent, show), c) == count(before, c) + shown_below(
            trees(children),
            n,
            c,
            show,
        ),
    decreases children, n,
{
    if n > 0 {
        let m = (n - 1) as nat;
        lemma_literals(c);
        lemma_links_count(before, children, m, indent, show, c);
        let lines = links_text(before, children, m, indent, show);
        lemma_count_sum(lines, "\n"@, c);
        lemma_link_count(lines + "\n"@, children[n - 1], indent, Some((n - 1) as usize), show, c);
        assert(trees(children)[n - 1] == children[n - 1].tree());
    }
}

/// A trie holds as many values as it has leaves.
pub proof fn law_as_many_keys_as_leaves<T: Digestible, const N: usize, const K: usize, H: Digest, M: TrieMode>(
    t: Trie<T, N, K, H, M>,
)
    requires
        t.wf(),
    ensures
        t@.dom().finite(),
        t@.dom().len() == leaves(t.tree()),
{
    let w = radix_bits(K as int);
    lemma_spelled_len(t.tree(), w, 0, N as int, M::allows_opaque());
    assert(t@.dom() =~= spelled(t.tree(), w)) by {
        assert forall|k: Seq<u8>| t@.dom().contains(k) == spelled(t.tree(), w).contains(k) by {
            law_keys_are_concatenations(t, k);
        }
    }
}

/// Where no `L` stands in the texts of the values, it stands in the text as often as there are leaves.
proof fn lemma_shown_leaves<T, S: ValueText<T>>(t: Tree<T>, show: S)
    requires
        forall|v: T| count(#[trigger] show.text(v), 'L') == 0,
    ensures
        shown(t, 'L', show) == leaves(t),
    decreases t, 0nat,
{
    if t is Branch {
        lemma_shown_leaves_below(t->children, t->children.len(), show);
    }
}

proof fn lemma_shown_leaves_below<T, S: ValueText<T>>(children: Seq<Tree<T>>, n: nat, show: S)
    requires
        forall|v: T| count(#[trigger] show.text(v), 'L') == 0,
        n <= children.len(),
    ensures
        shown_below(children, n, 'L', show) == leaves_below(children, n),
    decreases children, n,
{
    if n > 0 {
        lemma_shown_leaves_below(children, (n - 1) as nat, show);
        lemma_shown_leaves(children[n - 1], show);
    }
}

/// The text of a trie shows as many leaves as keys are stored: so often the letter `L` stands in it, unless it stands
/// in the text of a value too.
pub proof fn law_text_counts_stored_keys<
    T: Digestible,
    const N: usize,
    const K: usize,
    H: Digest,
    M: TrieMode,
    S: ValueText<T>,
>(
    t: Trie<T, N, K, H, M>,
    show: S,
)
    requires
        t.wf(),
        forall|v: T| count(#[trigger] show.text(v), 'L') == 0,
    ensures
        count(part_text(t.link(), Seq::empty(), None, show), 'L') == t@.dom().len(),
{
    lemma_link_count(Seq::empty(), t.link(), Seq::empty(), None, show, 'L');
    lemma_shown_leaves(t.tree(), show);
    law_as_many_keys_as_leaves(t);
}

/// The text in which values are elided shows as many leaves as keys are stored.
pub proof fn law_elided_text_counts_stored_keys<
    T: Digestible,
    const N: usize,
    const K: usize,
    H: Digest,
    M: TrieMode,
>(t: Trie<T, N, K, H, M>)
    requires
        t.wf(),
    ensures
        count(part_text(t.link(), Seq::empty(), None, Elided), 'L') == t@.dom().len(),
{
    lemma_literals('L');
    assert forall|v: T| count(#[trigger] <Elided as ValueText<T>>::text(&Elided, v), 'L') == 0 by {}
    law_text_counts_stored_keys(t, Elided);
}

/// The text of a trie shows each of its nodes once: so often the letter that stands for a kind of node stands in it,
/// and as often as it stands in the texts of the values.
pub proof fn law_text_counts_nodes<
    T: Digestible,
    const N: usize,
    const K: usize,
    H: Digest,
    M: TrieMode,
    S: ValueText<T>,
>(
    t: Trie<T, N, K, H, M>,
    show: S,
    c: char,
)
    requires
        is_letter(c),
    ensures
        count(part_text(t.link(), Seq::empty(), None, show), c) == shown(t.tree(), c, show),
{
    lemma_link_count(Seq::empty(), t.link(), Seq::empty(), None, show, c);
}

/// The label of a link that leads to a node starts as its text does, with the truncated digest that is stored for the
/// node, the letter of its kind and, unless the node stands for a hidden part, the bits of its fragment; a star stands
/// for a value and dots for children.
pub proof fn law_label_starts_text<
    T: Digestible,
    const N: usize,
    const K: usize,
    H: Digest,
    M: TrieMode,
    S: ValueText<T>,
>(
    link: NodeLink<T, N, K, H, M>,
    node: Node<T, N, K, H, M>,
    show: S,
)
    requires
        link.leads_to(node),
    ensures
        ({
            let frag = hash_frag(link.stored()) + " -> "@;
            let bits = bits_text(node.key@);
            let head = frag + match node.kind {
                Kind::Leaf { .. } => "L("@ + bits,
                Kind::Branch { .. } => "B("@ + bits,
                Kind::Opaque { .. } => "O("@,
            };
            let label = label_text(link);
            let text = part_text(link, Seq::empty(), None, show);
            &&& text.len() > head.len() && text.take(head.len() as int) == head
            &&& label == head + match node.kind {
                Kind::Leaf { .. } => ",*)"@,
                Kind::Branch { mask, .. } => ","@ + bits_text(seq![mask]) + ",..)"@,
                Kind::Opaque { .. } => ")"@,
            }
        }),
{
    let none = Seq::<char>::empty();
    let frag = hash_frag(link.stored()) + " -> "@;
    let bits = bits_text(node.key@);
    reveal_strlit(")");
    reveal_strlit("O(");
    reveal_strlit("O()");
    reveal_strlit(", ");
    let label = label_text(link);
    let text = part_text(link, none, None, show);
    law_text_of_parts(link, none, None, show);
    match node.kind {
        Kind::Leaf { value, .. } => {
            let head = frag + ("L("@ + bits);
            assert(label =~= head + ",*)"@);
            assert(text =~= head + (", "@ + show.text(value) + ")"@));
            assert(text.take(head.len() as int) =~= head);
        },
        Kind::Opaque { digest, .. } => {
            let head = frag + "O("@;
            assert("O()"@ =~= "O("@ + ")"@);
            assert(label =~= head + ")"@);
            assert(text =~= head + (hash_frag(digest@) + ")"@));
            assert(text.take(head.len() as int) =~= head);
        },
        Kind::Branch { mask, children } => {
            let head = frag + ("B("@ + bits);
            let tag = bits_text(seq![mask]);
            assert(label =~= head + (","@ + tag + ",..)"@));
            let lines = lines_of(
                Seq::new(
                    children@.len(),
                    |i: int| part_text(children@[i], none + "  "@, Some(i as usize), show),
                ),
            );
            assert(text =~= head + (", "@ + tag + ", "@ + lines + "\n"@ + none + ")"@));
            assert(text.take(head.len() as int) =~= head);
        },
    }
}

/// The label of a link that leads nowhere is the text of an empty trie.
pub proof fn law_empty_label<
    T: Digestible,
    const N: usize,
    const K: usize,
    H: Digest,
    M: TrieMode,
    S: ValueText<T>,
>(link: NodeLink<T, N, K, H, M>, show: S)
    requires
        link.tree() is Empty,
    ensures
        label_text(link) == "Trie(Empty)"@,
        part_text(link, Seq::empty(), None, show) == "Trie(Empty)"@,
{
    law_text_of_parts(link, Seq::empty(), None, show);
    assert(link.0 is None);
    assert(part_text(link, Seq::empty(), None, show) =~= "Trie(Empty)"@);
}

// ---------------------------------------------------------------------------
// Numbers and bytes as text
// ---------------------------------------------------------------------------

/// The value of a digit: `0` to `9`, then `a` to `f`.
pub open spec fn digit_value(c: char) -> int {
    if '0' <= c <= '9' {
        c as int - '0' as int
    } else {
        c as int - 'a' as int + 10
    }
}

/// The number that digits spell in a base, the highest digit first.
pub open spec fn number_of(digits: Seq<char>, base: int) -> int
    decreases digits.len(),
{
    if digits.len() == 0 {
        0
    } else {
        number_of(digits.drop_last(), base) * base + digit_value(digits.last())
    }
}

/// The decimal digits of a number spell it, and do not start with a zero unless it is zero.
pub proof fn law_decimal_spells_number(n: nat)
    ensures
        number_of(decimal(n), 10) == n,
        forall|i: int| 0 <= i < decimal(n).len() ==> '0' <= #[trigger] decimal(n)[i] <= '9',
        decimal(n).len() >= 1,
        decimal(n)[0] == '0' <==> n == 0,
        decimal(n)[0] == '0' ==> decimal(n).len() == 1,
    decreases n,
{
    reveal_with_fuel(number_of, 2);
    if n < 10 {
        assert(decimal(n).drop_last().len() == 0);
    } else {
        let high = decimal(n / 10);
        law_decimal_spells_number(n / 10);
        assert(decimal(n).drop_last() =~= high);
        assert forall|i: int| 0 <= i < decimal(n).len() implies '0' <= #[trigger] decimal(n)[i] <= '9' by {
            if i < high.len() {
                assert('0' <= high[i] <= '9');
            }
        }
    }
}

/// A number of a child is right-aligned in three places: it ends in its digits, all before them is blank, and it takes
/// three places unless it has more digits.
pub proof fn law_aligned_number(n: nat)
    ensures
        aligned_number(n).len() == if decimal(n).len() > 3 {
            decimal(n).len()
        } else {
            3
        },
        forall|i: int|
            0 <= i < aligned_number(n).len() ==> #[trigger] aligned_number(n)[i] == if i < aligned_number(n).len()
                - decimal(n).len() {
                ' '
            } else {
                decimal(n)[i - (aligned_number(n).len() - decimal(n).len())]
            },
{
    law_decimal_spells_number(n);
}

/// How long the texts of bytes are together, if each has `width` characters.
proof fn lemma_spaced_len(bytes: Seq<u8>, text: spec_fn(u8) -> Seq<char>, width: int)
    requires
        width >= 1,
        forall|b: u8| (#[trigger] text(b)).len() == width,
    ensures
        spaced(bytes, text).len() == if bytes.len() == 0 {
            0
        } else {
            bytes.len() * (width + 1) - 1
        },
    decreases bytes.len(),
{
    let n = bytes.len() as int;
    let u = width + 1;
    if n >= 2 {
        lemma_spaced_len(bytes.drop_last(), text, width);
        assert((n - 1) * u + u == n * u) by (nonlinear_arith);
    }
}

/// Where the text of a byte stands, if each has `width` characters.
proof fn lemma_spaced_at(bytes: Seq<u8>, text: spec_fn(u8) -> Seq<char>, width: int, i: int, j: int)
    requires
        width >= 1,
        forall|b: u8| (#[trigger] text(b)).len() == width,
        0 <= i < bytes.len(),
        0 <= j < width,
    ensures
        spaced(bytes, text)[i * (width + 1) + j] == text(bytes[i])[j],
        i < bytes.len() - 1 ==> spaced(bytes, text)[i * (width + 1) + width] == ' ',
    decreases bytes.len(),
{
    let n = bytes.len() as int;
    let u = width + 1;
    if n == 1 {
        assert(i * u == 0) by (nonlinear_arith)
            requires
                i == 0,
        ;
    } else {
        let less = bytes.drop_last();
        let x = spaced(less, text);
        let all = spaced(bytes, text);
        lemma_spaced_len(less, text, width);
        assert(x.len() == (n - 1) * u - 1);
        assert(0 <= i * u) by (nonlinear_arith)
            requires
                i >= 0,
                u >= 1,
        ;
        assert(all =~= x.push(' ') + text(bytes.last()));
        if i < n - 1 {
            lemma_spaced_at(less, text, width, i, j);
            assert(less[i] == bytes[i]);
            assert(i * u + u <= (n - 1) * u) by (nonlinear_arith)
                requires
                    i + 1 <= n - 1,
                    u >= 1,
            ;
            assert(all[i * u + j] == x[i * u + j]);
            if i < n - 2 {
                assert(i * u + u <= (n - 2) * u) by (nonlinear_arith)
                    requires
                        i + 1 <= n - 2,
                        u >= 1,
                ;
                assert((n - 2) * u + u == (n - 1) * u) by (nonlinear_arith);
                assert(all[i * u + width] == x[i * u + width]);
            } else {
                assert(i * u + width == x.len()) by (nonlinear_arith)
                    requires
                        i == n - 2,
                        u == width + 1,
                        x.len() == (n - 1) * u - 1,
                ;
            }
        }
    }
}

/// The binary text of a byte string: a digit for each bit `j` of each byte `i`, most or least significant bit of the
/// byte first, and a blank between bytes.
pub proof fn law_binary_text(bytes: Seq<u8>, msb: bool, i: int, j: u8)
    requires
        0 <= i < bytes.len(),
        j < 8,
    ensures
        ({
            let text = spaced(bytes, |b: u8| octet(b, msb));
            &&& text.len() == bytes.len() * 9 - 1
            &&& text[i * 9 + if msb {
                7 - j
            } else {
                j as int
            }] == if byte_bit(bytes[i], j) {
                '1'
            } else {
                '0'
            }
            &&& i < bytes.len() - 1 ==> text[i * 9 + 8] == ' '
        }),
{
    let f = |b: u8| octet(b, msb);
    let p = if msb {
        7 - j
    } else {
        j as int
    };
    lemma_spaced_len(bytes, f, 8);
    lemma_spaced_at(bytes, f, 8, i, p);
    assert(f(bytes[i])[p] == octet(bytes[i], msb)[p]);
}

/// The hexadecimal text of a byte string: two digits for each byte `i`, which spell it, most or least significant digit
/// first, and a blank between bytes.
pub proof fn law_hexadecimal_text(bytes: Seq<u8>, msb: bool, i: int)
    requires
        0 <= i < bytes.len(),
    ensures
        ({
            let text = spaced(bytes, |b: u8| hex_pair(b, msb));
            let high = text[i * 3 + if msb { 0int } else { 1int }];
            let low = text[i * 3 + if msb { 1int } else { 0int }];
            &&& text.len() == bytes.len() * 3 - 1
            &&& 0 <= digit_value(high) < 16 && 0 <= digit_value(low) < 16
            &&& bytes[i] == 16 * digit_value(high) + digit_value(low)
            &&& i < bytes.len() - 1 ==> text[i * 3 + 2] == ' '
        }),
{
    let f = |b: u8| hex_pair(b, msb);
    let b = bytes[i];
    lemma_spaced_len(bytes, f, 2);
    lemma_spaced_at(bytes, f, 2, i, 0);
    lemma_spaced_at(bytes, f, 2, i, 1);
    assert(f(b)[0] == hex_pair(b, msb)[0]);
    assert(f(b)[1] == hex_pair(b, msb)[1]);
    assert(digit_value(hex_digit(b as int / 16)) == b as int / 16);
    assert(digit_value(hex_digit(b as int % 16)) == b as int % 16);
}

/// A byte string without bytes has no text.
pub proof fn law_no_bytes_no_text(msb: bool)
    ensures
        spaced(Seq::empty(), |b: u8| octet(b, msb)).len() == 0,
        spaced(Seq::empty(), |b: u8| hex_pair(b, msb)).len() == 0,
        hash_frag(Seq::empty()).len() == 0,
{
}

/// A truncated hash shows its first four bytes, or all where there are fewer, each by its two hexadecimal digits, the
/// least significant one first.
pub proof fn law_truncated_hash(hash: Seq<u8>, i: int)
    requires
        0 <= i < hash.len(),
        i < 4,
    ensures
        hash_frag(hash).len() == if hash.len() < 4 {
            hash.len() * 3 - 1
        } else {
            11
        },
        hash[i] == 16 * digit_value(hash_frag(hash)[i * 3 + 1]) + digit_value(hash_frag(hash)[i * 3]),
{
    let first = hash.take(
        if hash.len() < 4 {
            hash.len() as int
        } else {
            4
        },
    );
    law_hexadecimal_text(first, false, i);
}

/// The text of a byte as an ASCII character: the character where it can be printed, after a backslash where it is a
/// quote or a backslash; else an escape whose two hexadecimal digits spell the byte.
pub proof fn law_ascii_byte(b: u8)
    ensures
        ({
            let text = ascii_texts(seq![b]);
            if b == '"' as u8 || b == '\'' as u8 || b == '\\' as u8 {
                text == seq!['\\', b as char]
            } else if ' ' as u8 <= b <= '~' as u8 {
                text == seq![b as char]
            } else {
                &&& text.len() == 4
                &&& text[0] == '\\' && text[1] == 'x'
                &&& 0 <= digit_value(text[2]) < 16 && 0 <= digit_value(text[3]) < 16
                &&& b == 16 * digit_value(text[2]) + digit_value(text[3])
            }
        }),
{
    reveal_with_fuel(ascii_texts, 2);
    assert(seq![b].drop_last() =~= Seq::<u8>::empty());
    assert(ascii_texts(seq![b]) =~= ascii_text(b));
    assert(digit_value(hex_digit(b as int / 16)) == b as int / 16);
    assert(digit_value(hex_digit(b as int % 16)) == b as int % 16);
}

/// The ASCII text of byte strings one after the other is that of each, one after the other.
pub proof fn law_ascii_text_of_parts(a: Seq<u8>, b: Seq<u8>)
    ensures
        ascii_texts(a + b) == ascii_texts(a) + ascii_texts(b),
        ascii_texts(Seq::empty()).len() == 0,
    decreases b.len(),
{
    if b.len() == 0 {
        assert(a + b =~= a);
        assert(ascii_texts(a) + ascii_texts(b) =~= ascii_texts(a));
    } else {
        law_ascii_text_of_parts(a, b.drop_last());
        assert((a + b).drop_last() =~= a + b.drop_last());
        assert(ascii_texts(a) + (ascii_texts(b.drop_last()) + ascii_text(b.last())) =~= ascii_texts(a) + ascii_texts(
            b.drop_last(),
        ) + ascii_text(b.last()));
    }
}

/// The text of a bit position: the index of the byte and that of the bit, as decimal numbers, between braces and with a
/// colon between them.
pub proof fn law_position_text(pos: BitPosition) -> (colon: int)
    ensures
        ({
            let text = position_text(pos);
            &&& 0 < colon < text.len() - 1
            &&& text[0] == '{' && text[colon] == ':' && text.last() == '}'
            &&& number_of(text.subrange(1, colon), 10) == pos.index
            &&& number_of(text.subrange(colon + 1, text.len() - 1), 10) == pos.bits
        }),
{
    let text = position_text(pos);
    let x = decimal(pos.index as nat);
    let y = decimal(pos.bits as nat);
    let colon = 1 + x.len() as int;
    reveal_strlit("{");
    reveal_strlit(":");
    reveal_strlit("}");
    law_decimal_spells_number(pos.index as nat);
    law_decimal_spells_number(pos.bits as nat);
    assert(text.subrange(1, colon) =~= x);
    assert(text.subrange(colon + 1, text.len() - 1) =~= y);
    colon
}

}
