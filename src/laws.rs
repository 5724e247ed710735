use vstd::prelude::*;
use crate::scan::{attr_at, attr_split, lemma_run_end, value_after, attrs_in, close_at, head_at, HeadMatch, in_class, is_quote, is_space, last_quote, run_end, text_at, CharClass};
use crate::xml_root::{meta_at, parse_document, value_of, Doc};
use crate::xml::{add_attrs, add_item, empty_node, has_sig, parse_body, parse_element, sig, Item, Node, XmlError};

verus! {

broadcast use vstd::seq::group_seq_axioms;

/// One attribute written out as ` key="value"`.
#[verifier::opaque]
pub open spec fn render_attr(k: Seq<char>, v: Seq<char>) -> Seq<char> {
    seq![' '] + k + seq!['=', '"'] + v + seq!['"']
}

/// A list of attributes written out in order, as in an element head.
pub open spec fn render_attrs(a: Seq<(Seq<char>, Seq<char>)>) -> Seq<char>
    decreases a.len(),
{
    if a.len() == 0 {
        Seq::empty()
    } else {
        render_attr(a[0].0, a[0].1) + render_attrs(a.drop_first())
    }
}

/// A key of one or more tag name characters other than `=`, and a value of value characters
/// without quotes.
pub open spec fn attr_writable(k: Seq<char>, v: Seq<char>) -> bool {
    &&& k.len() > 0
    &&& forall|j: int| 0 <= j < k.len() ==> in_class(#[trigger] k[j], CharClass::Name) && k[j] != '='
    &&& forall|j: int|
        0 <= j < v.len() ==> in_class(#[trigger] v[j], CharClass::Value) && !is_quote(v[j])
}

proof fn lemma_render_attr(k: Seq<char>, v: Seq<char>)
    ensures
        ({
            let one = render_attr(k, v);
            &&& one.len() == k.len() + v.len() + 4
            &&& one[0] == ' '
            &&& forall|j: int| 0 <= j < k.len() ==> one[1 + j] == #[trigger] k[j]
            &&& one[1 + k.len() as int] == '='
            &&& one[2 + k.len() as int] == '"'
            &&& forall|j: int| 0 <= j < v.len() ==> one[3 + k.len() as int + j] == #[trigger] v[j]
            &&& one[3 + k.len() as int + v.len() as int] == '"'
        }),
{
    reveal(render_attr);
    let one = render_attr(k, v);
    assert(one == seq![' '] + k + seq!['=', '"'] + v + seq!['"']);
}

proof fn lemma_run_to(s: Seq<char>, i: int, k: int, hi: int, cls: CharClass)
    requires
        0 <= i <= k <= hi <= s.len(),
        forall|j: int| i <= j < k ==> in_class(#[trigger] s[j], cls),
        k == hi || !in_class(s[k], cls),
    ensures
        run_end(s, i, hi, cls) == k,
    decreases k - i,
{
    if i < k {
        lemma_run_to(s, i + 1, k, hi, cls);
    }
}

proof fn lemma_no_quote(s: Seq<char>, lo: int, k: int)
    requires
        0 <= lo <= k <= s.len(),
        forall|j: int| lo <= j < k ==> !is_quote(#[trigger] s[j]),
    ensures
        last_quote(s, lo, k) is None,
    decreases k - lo,
{
    if k > lo {
        lemma_no_quote(s, lo, k - 1);
    }
}

proof fn lemma_split_down(s: Seq<char>, lo: int, k: int, e: int, hi: int)
    requires
        lo < e <= k,
        forall|j: int| e < j <= k ==> value_after(s, j, hi) is None,
    ensures
        attr_split(s, lo, k, hi) == attr_split(s, lo, e, hi),
    decreases k - e,
{
    if k > e {
        lemma_split_down(s, lo, k - 1, e, hi);
    }
}

#[verifier::rlimit(60)]
proof fn lemma_attrs_at(s: Seq<char>, i: int, hi: int, a: Seq<(Seq<char>, Seq<char>)>)
    requires
        0 <= i <= hi <= s.len(),
        s.subrange(i, hi) == render_attrs(a),
        forall|j: int| 0 <= j < a.len() ==> attr_writable(#[trigger] a[j].0, a[j].1),
    ensures
        attrs_in(s, i, hi) == a,
    decreases a.len(),
{
    if a.len() == 0 {
        assert(render_attrs(a).len() == 0);
        assert(s.subrange(i, hi).len() == hi - i);
        assert(a =~= Seq::empty());
    } else {
        let k = a[0].0;
        let v = a[0].1;
        let one = render_attr(k, v);
        let rest = a.drop_first();
        assert(attr_writable(k, v));
        assert(render_attrs(a) == one + render_attrs(rest));
        lemma_render_attr(k, v);
        let n = one.len() as int;
        let full = one + render_attrs(rest);
        assert(hi - i == full.len());
        assert forall|j: int| i <= j < hi implies #[trigger] s[j] == full[j - i] by {
            assert(s.subrange(i, hi)[j - i] == s[j]);
        }
        assert(full[0] == one[0]);
        assert(s[i] == ' ');
        let e = i + 1 + k.len();
        assert forall|j: int| i + 1 <= j < e implies in_class(#[trigger] s[j], CharClass::Name) by {
            assert(s[j] == full[j - i]);
            assert(full[j - i] == one[j - i]);
            assert(one[1 + (j - i - 1)] == k[j - i - 1]);
        }
        assert(s[e] == full[e - i]);
        assert(full[e - i] == one[e - i]);
        assert(s[e + 1] == full[e + 1 - i]);
        assert(full[e + 1 - i] == one[e + 1 - i]);
        assert(s[e] == '=');
        assert(s[e + 1] == '"');
        let q = e + 2 + v.len();
        assert(s[q] == full[q - i]);
        assert(full[q - i] == one[q - i]);
        assert(s[q] == '"');
        assert forall|j: int| e + 2 <= j < q implies in_class(#[trigger] s[j], CharClass::Value)
            && !is_quote(s[j]) by {
            assert(s[j] == full[j - i]);
            assert(full[j - i] == one[j - i]);
            assert(one[3 + k.len() as int + (j - e - 2)] == v[j - e - 2]);
        }
        let m = q + 1;
        if m < hi {
            assert(s[m] == full[m - i]);
            assert(full[m - i] == render_attrs(rest)[0]);
            assert(rest.len() > 0);
            assert(render_attrs(rest) == render_attr(rest[0].0, rest[0].1) + render_attrs(
                rest.drop_first(),
            ));
            lemma_render_attr(rest[0].0, rest[0].1);
            assert(s[m] == ' ');
        }
        lemma_run_to(s, e + 2, m, hi, CharClass::Value);
        lemma_no_quote(s, e + 2, q);
        assert(last_quote(s, e + 2, m) == Some(q));
        assert(value_after(s, e, hi) == Some(q));
        // the key is the longest one that a value follows
        let nm = run_end(s, i + 1, hi, CharClass::Name);
        lemma_run_end(s, i + 1, hi, CharClass::Name);
        if nm < e + 2 {
            assert(in_class(s[nm], CharClass::Name));
        }
        if nm > q + 1 {
            assert(in_class(s[q + 1], CharClass::Name));
        }
        assert forall|j: int| e < j <= nm - 1 implies value_after(s, j, hi) is None by {
            if j == e + 1 || j == q {
                assert(s[j] != '=');
            } else if s[j] == '=' && j + 1 < hi && is_quote(s[j + 1]) {
                assert(j + 1 == q);
                lemma_run_to(s, q + 1, q + 1, hi, CharClass::Value);
            }
        }
        lemma_split_down(s, i + 1, nm - 1, e, hi);
        // the space before the key starts no attribute
        lemma_run_to(s, i, i, hi, CharClass::Name);
        assert(attr_at(s, i, hi) is None);
        assert(attr_at(s, i + 1, hi) == Some((e, q)));
        assert forall|j: int| 0 <= j < k.len() implies s.subrange(i + 1, e)[j] == k[j] by {
            assert(s[i + 1 + j] == full[1 + j]);
            assert(full[1 + j] == one[1 + j]);
        }
        assert forall|j: int| 0 <= j < v.len() implies s.subrange(e + 2, q)[j] == v[j] by {
            assert(s[e + 2 + j] == full[e + 2 + j - i]);
            assert(full[e + 2 + j - i] == one[3 + k.len() as int + j]);
        }
        assert(s.subrange(i + 1, e) =~= k);
        assert(s.subrange(e + 2, q) =~= v);
        assert(s.subrange(m, hi) =~= render_attrs(rest)) by {
            assert(s.subrange(m, hi) =~= s.subrange(i, hi).subrange(n, hi - i));
        }
        lemma_attrs_at(s, m, hi, rest);
        assert(attrs_in(s, i, hi) == attrs_in(s, i + 1, hi));
        assert(attrs_in(s, i, hi) =~= a);
    }
}

/// Attributes written out as ` key="value"` and scanned back are the same attributes, in
/// the same order, where each key is one or more tag name characters other than `=` and each value holds value
/// characters but no quote.
pub proof fn lemma_attrs_round_trip(a: Seq<(Seq<char>, Seq<char>)>)
    requires
        forall|j: int| 0 <= j < a.len() ==> attr_writable(#[trigger] a[j].0, a[j].1),
    ensures
        attrs_in(render_attrs(a), 0, render_attrs(a).len() as int) == a,
{
    let s = render_attrs(a);
    assert(s.subrange(0, s.len() as int) =~= s);
    lemma_attrs_at(s, 0, s.len() as int, a);
}


pub open spec fn attr_items(a: Seq<(Seq<char>, Seq<char>)>) -> Seq<Item> {
    a.map_values(|p: (Seq<char>, Seq<char>)| Item::Attr { key: p.0, value: p.1 })
}

/// The parts of one element that can be written out and read back: a tag of name
/// characters, attributes with distinct keys, and text that does not start with white space.
pub open spec fn parts_writable(tag: Seq<char>, a: Seq<(Seq<char>, Seq<char>)>, text: Seq<char>) -> bool {
    &&& tag.len() > 0
    &&& forall|j: int| 0 <= j < tag.len() ==> in_class(#[trigger] tag[j], CharClass::Name)
    &&& forall|j: int| 0 <= j < a.len() ==> attr_writable(#[trigger] a[j].0, a[j].1)
    &&& forall|i: int, j: int| 0 <= i < j < a.len() ==> #[trigger] a[i].0 != #[trigger] a[j].0
    &&& forall|j: int| 0 <= j < text.len() ==> in_class(#[trigger] text[j], CharClass::Text)
    &&& text.len() > 0 ==> !is_space(text[0])
}

proof fn lemma_render_attrs_shape(a: Seq<(Seq<char>, Seq<char>)>)
    requires
        forall|j: int| 0 <= j < a.len() ==> attr_writable(#[trigger] a[j].0, a[j].1),
    ensures
        a.len() == 0 ==> render_attrs(a).len() == 0,
        a.len() > 0 ==> render_attrs(a).len() > 0 && render_attrs(a)[0] == ' '
            && render_attrs(a)[render_attrs(a).len() - 1] == '"',
        forall|j: int|
            0 <= j < render_attrs(a).len() ==> in_class(#[trigger] render_attrs(a)[j], CharClass::Line),
    decreases a.len(),
{
    if a.len() > 0 {
        let k = a[0].0;
        let v = a[0].1;
        let rest = a.drop_first();
        assert(attr_writable(k, v));
        assert forall|j: int| 0 <= j < rest.len() implies attr_writable(#[trigger] rest[j].0, rest[j].1) by {
            assert(rest[j] == a[j + 1]);
        }
        lemma_render_attrs_shape(rest);
        lemma_render_attr(k, v);
        let one = render_attr(k, v);
        let ra = render_attrs(a);
        assert(ra == one + render_attrs(rest));
        assert forall|j: int| 0 <= j < ra.len() implies in_class(#[trigger] ra[j], CharClass::Line) by {
            if j < one.len() {
                assert(ra[j] == one[j]);
                if 1 <= j < 1 + k.len() {
                    assert(one[1 + (j - 1)] == k[j - 1]);
                } else if 3 + k.len() <= j < 3 + k.len() + v.len() {
                    assert(one[3 + k.len() as int + (j - 3 - k.len())] == v[j - 3 - k.len()]);
                }
            } else {
                assert(ra[j] == render_attrs(rest)[j - one.len()]);
            }
        }
        if rest.len() == 0 {
            assert(ra[ra.len() - 1] == one[one.len() - 1]);
        } else {
            assert(ra[ra.len() - 1] == render_attrs(rest)[render_attrs(rest).len() - 1]);
        }
    }
}

proof fn lemma_add_attrs(n: Node, a: Seq<(Seq<char>, Seq<char>)>)
    requires
        forall|i: int, j: int| 0 <= i < j < a.len() ==> #[trigger] a[i].0 != #[trigger] a[j].0,
        forall|j: int| 0 <= j < a.len() ==> !has_sig(n.items, #[trigger] a[j].0),
    ensures
        add_attrs(n, a) == Ok::<Node, XmlError>(Node { items: n.items + attr_items(a), ..n }),
    decreases a.len(),
{
    if a.len() == 0 {
        assert(n.items + attr_items(a) =~= n.items);
    } else {
        let it = Item::Attr { key: a[0].0, value: a[0].1 };
        assert(!has_sig(n.items, a[0].0));
        let m = Node { items: n.items.push(it), ..n };
        assert(add_item(n, it) == Ok::<Node, XmlError>(m));
        let rest = a.drop_first();
        assert forall|i: int, j: int| 0 <= i < j < rest.len() implies #[trigger] rest[i].0
            != #[trigger] rest[j].0 by {
            assert(rest[i] == a[i + 1] && rest[j] == a[j + 1]);
        }
        assert forall|j: int| 0 <= j < rest.len() implies !has_sig(m.items, #[trigger] rest[j].0) by {
            assert(rest[j] == a[j + 1]);
            assert(a[0].0 != a[j + 1].0);
            assert(!has_sig(n.items, a[j + 1].0));
            if has_sig(m.items, rest[j].0) {
                let w = choose|w: int| 0 <= w < m.items.len() && sig(#[trigger] m.items[w]) == rest[j].0;
                if w < n.items.len() {
                    assert(m.items[w] == n.items[w]);
                }
            }
        }
        lemma_add_attrs(m, rest);
        assert(m.items + attr_items(rest) =~= n.items + attr_items(a));
    }
}

/// A tree of elements as it is written in markup: attributes in the head, then text, then
/// child elements.
pub struct Tree {
    pub tag: Seq<char>,
    pub attrs: Seq<(Seq<char>, Seq<char>)>,
    pub text: Seq<char>,
    pub children: Seq<Tree>,
}

/// The element that a tree stands for.
pub open spec fn node_of(t: Tree) -> Node
    decreases t,
{
    Node { tag: t.tag, items: attr_items(t.attrs) + child_items(t.children), text: t.text, closed: true }
}

pub open spec fn child_items(cs: Seq<Tree>) -> Seq<Item>
    decreases cs,
{
    if cs.len() == 0 {
        Seq::empty()
    } else {
        seq![Item::Elem(node_of(cs[0]))] + child_items(cs.drop_first())
    }
}

/// A tree written out: `<tag attrs/>` when it has neither text nor children, else
/// `<tag attrs>text children</tag>`.
pub open spec fn render(t: Tree) -> Seq<char>
    decreases t,
{
    if t.children.len() == 0 && t.text.len() == 0 {
        seq!['<'] + t.tag + render_attrs(t.attrs) + seq!['/', '>']
    } else {
        seq!['<'] + t.tag + render_attrs(t.attrs) + seq!['>'] + t.text + render_children(t.children)
            + seq!['<', '/'] + t.tag + seq!['>']
    }
}

pub open spec fn render_children(cs: Seq<Tree>) -> Seq<char>
    decreases cs,
{
    if cs.len() == 0 {
        Seq::empty()
    } else {
        render(cs[0]) + render_children(cs.drop_first())
    }
}

/// A tree that reads back as itself: its own parts can be written out, every key and child
/// tag of one element differs from the others, and every child is such a tree.
pub open spec fn writable(t: Tree) -> bool
    decreases t,
{
    &&& parts_writable(t.tag, t.attrs, t.text)
    &&& forall|i: int, j: int|
        0 <= i < j < t.children.len() ==> #[trigger] t.children[i].tag != #[trigger] t.children[j].tag
    &&& forall|i: int, j: int|
        0 <= i < t.attrs.len() && 0 <= j < t.children.len() ==> #[trigger] t.attrs[i].0
            != #[trigger] t.children[j].tag
    &&& forall|i: int| 0 <= i < t.children.len() ==> writable(#[trigger] t.children[i])
}

proof fn lemma_render(t: Tree)
    ensures
        ({
            let s = render(t);
            let tt = t.tag.len() as int;
            let r = render_attrs(t.attrs).len() as int;
            let x = t.text.len() as int;
            let c = render_children(t.children).len() as int;
            &&& s[0] == '<'
            &&& forall|j: int| 0 <= j < tt ==> s[1 + j] == #[trigger] t.tag[j]
            &&& forall|j: int| 0 <= j < r ==> s[1 + tt + j] == #[trigger] render_attrs(t.attrs)[j]
            &&& (t.children.len() == 0 && x == 0) ==> s.len() == tt + r + 3 && s[1 + tt + r] == '/'
                && s[2 + tt + r] == '>'
            &&& !(t.children.len() == 0 && x == 0) ==> {
                &&& s.len() == 2 * tt + r + x + c + 5
                &&& s[1 + tt + r] == '>'
                &&& forall|j: int| 0 <= j < x ==> s[2 + tt + r + j] == #[trigger] t.text[j]
                &&& forall|j: int|
                    0 <= j < c ==> s[2 + tt + r + x + j] == #[trigger] render_children(t.children)[j]
                &&& s[2 + tt + r + x + c] == '<'
                &&& s[3 + tt + r + x + c] == '/'
                &&& forall|j: int| 0 <= j < tt ==> s[4 + tt + r + x + c + j] == #[trigger] t.tag[j]
                &&& s[4 + 2 * tt + r + x + c] == '>'
            }
        }),
{
    let ra = render_attrs(t.attrs);
    let rc = render_children(t.children);
    let tag = t.tag;
    let tt = tag.len() as int;
    let r = ra.len() as int;
    let x = t.text.len() as int;
    let s = render(t);
    let h = seq!['<'] + tag + ra;
    assert(h.len() == 1 + tt + r);
    assert(h[0] == '<');
    assert forall|j: int| 0 <= j < tt implies h[1 + j] == #[trigger] tag[j] by {
        assert((seq!['<'] + tag)[1 + j] == tag[j]);
    }
    assert forall|j: int| 0 <= j < r implies h[1 + tt + j] == #[trigger] ra[j] by {}
    if t.children.len() == 0 && x == 0 {
        assert(s == h + seq!['/', '>']);
        assert forall|j: int| 0 <= j < tt implies s[1 + j] == #[trigger] tag[j] by {
            assert(s[1 + j] == h[1 + j]);
        }
        assert forall|j: int| 0 <= j < r implies s[1 + tt + j] == #[trigger] ra[j] by {
            assert(s[1 + tt + j] == h[1 + tt + j]);
        }
    } else {
        let b = h + seq!['>'] + t.text + rc;
        assert(s == b + seq!['<', '/'] + tag + seq!['>']);
        assert forall|j: int| 0 <= j < tt implies s[1 + j] == #[trigger] tag[j] by {
            assert(s[1 + j] == b[1 + j]);
            assert(b[1 + j] == h[1 + j]);
        }
        assert forall|j: int| 0 <= j < r implies s[1 + tt + j] == #[trigger] ra[j] by {
            assert(s[1 + tt + j] == b[1 + tt + j]);
            assert(b[1 + tt + j] == h[1 + tt + j]);
        }
        assert forall|j: int| 0 <= j < x implies s[2 + tt + r + j] == #[trigger] t.text[j] by {
            assert(s[2 + tt + r + j] == b[2 + tt + r + j]);
        }
        assert forall|j: int| 0 <= j < rc.len() implies s[2 + tt + r + x + j] == #[trigger] rc[j] by {
            assert(s[2 + tt + r + x + j] == b[2 + tt + r + x + j]);
        }
        assert(s[1 + tt + r] == b[1 + tt + r]);
        let c = b + seq!['<', '/'];
        assert forall|j: int| 0 <= j < tt implies s[4 + tt + r + x + rc.len() + j] == #[trigger] tag[j] by {
            assert((c + tag)[c.len() + j] == tag[j]);
        }
    }
}

proof fn lemma_render_children(cs: Seq<Tree>)
    requires
        forall|i: int| 0 <= i < cs.len() ==> writable(#[trigger] cs[i]),
    ensures
        cs.len() == 0 ==> render_children(cs).len() == 0,
        cs.len() > 0 ==> render_children(cs) == render(cs[0]) + render_children(cs.drop_first())
            && render(cs[0]).len() > 1 && render_children(cs)[0] == '<' && render_children(cs)[1]
            == cs[0].tag[0],
{
    if cs.len() > 0 {
        assert(writable(cs[0]));
        lemma_render(cs[0]);
        let w = render(cs[0]);
        assert(w.len() > 1);
        assert(w[1] == cs[0].tag[0]);
    }
}

proof fn lemma_has_attr_sig(a: Seq<(Seq<char>, Seq<char>)>, k: Seq<char>)
    requires
        has_sig(attr_items(a), k),
    ensures
        exists|i: int| 0 <= i < a.len() && #[trigger] a[i].0 == k,
{
    let w = choose|w: int| 0 <= w < attr_items(a).len() && sig(#[trigger] attr_items(a)[w]) == k;
    assert(a[w].0 == k);
}

#[verifier::rlimit(60)]
proof fn lemma_children(s: Seq<char>, m: Node, pos: int, cs: Seq<Tree>)
    requires
        forall|i: int| 0 <= i < cs.len() ==> writable(#[trigger] cs[i]),
        forall|i: int, j: int| 0 <= i < j < cs.len() ==> #[trigger] cs[i].tag != #[trigger] cs[j].tag,
        forall|j: int| 0 <= j < cs.len() ==> !has_sig(m.items, #[trigger] cs[j].tag),
        m.tag.len() > 0,
        forall|j: int| 0 <= j < m.tag.len() ==> in_class(#[trigger] m.tag[j], CharClass::Name),
        0 <= pos,
        pos + render_children(cs).len() + m.tag.len() + 3 <= s.len(),
        forall|j: int|
            pos <= j < pos + render_children(cs).len() ==> #[trigger] s[j] == render_children(cs)[j
                - pos],
        s[pos + render_children(cs).len()] == '<',
        s[pos + render_children(cs).len() + 1] == '/',
        forall|j: int|
            0 <= j < m.tag.len() ==> s[pos + render_children(cs).len() + 2 + j] == #[trigger] m.tag[j],
        s[pos + render_children(cs).len() + 2 + m.tag.len()] == '>',
    ensures
        parse_body(s, m, pos) == Ok::<(Node, int), XmlError>(
            (
                Node { items: m.items + child_items(cs), closed: true, ..m },
                pos + render_children(cs).len() + m.tag.len() + 3,
            ),
        ),
    decreases cs,
{
    let len = s.len() as int;
    let tt = m.tag.len() as int;
    lemma_render_children(cs);
    if cs.len() == 0 {
        let e = pos + 2 + tt;
        assert forall|j: int| pos + 2 <= j < e implies in_class(#[trigger] s[j], CharClass::Name) by {
            assert(s[pos + 0 + 2 + (j - pos - 2)] == m.tag[j - pos - 2]);
        }
        lemma_run_to(s, pos + 2, e, len, CharClass::Name);
        assert(close_at(s, pos) == Some(e));
        assert(s.subrange(pos + 2, e) =~= m.tag) by {
            assert forall|j: int| 0 <= j < tt implies s.subrange(pos + 2, e)[j] == m.tag[j] by {
                assert(s[pos + 0 + 2 + j] == m.tag[j]);
            }
        }
        assert(m.items + child_items(cs) =~= m.items);
    } else {
        let c = cs[0];
        let rest = cs.drop_first();
        let w = render(c);
        let lc = w.len() as int;
        let rc = render_children(cs);
        let rr = render_children(rest);
        assert(writable(c));
        assert(s[pos] == rc[0]);
        assert(s[pos + 1] == rc[1]);
        assert(c.tag.len() > 0);
        assert(in_class(c.tag[0], CharClass::Name));
        assert(close_at(s, pos) is None);
        lemma_run_to(s, pos, pos, len, CharClass::Text);
        assert(text_at(s, pos) is None);
        assert forall|j: int| pos <= j < pos + lc implies #[trigger] s[j] == w[j - pos] by {
            assert(s[j] == rc[j - pos]);
        }
        if rest.len() > 0 {
            lemma_render_children(rest);
            assert(s[pos + lc] == rc[lc]);
            assert(rc[lc] == rr[0]);
        }
        lemma_elem(s, pos, c);
        let nc = node_of(c);
        let it = Item::Elem(nc);
        assert(!has_sig(m.items, c.tag));
        let m2 = Node { items: m.items.push(it), ..m };
        assert(add_item(m, it) == Ok::<Node, XmlError>(m2));
        assert forall|i: int| 0 <= i < rest.len() implies writable(#[trigger] rest[i]) by {
            assert(rest[i] == cs[i + 1]);
        }
        assert forall|i: int, j: int| 0 <= i < j < rest.len() implies #[trigger] rest[i].tag
            != #[trigger] rest[j].tag by {
            assert(rest[i] == cs[i + 1] && rest[j] == cs[j + 1]);
        }
        assert forall|j: int| 0 <= j < rest.len() implies !has_sig(m2.items, #[trigger] rest[j].tag) by {
            assert(rest[j] == cs[j + 1]);
            assert(cs[0].tag != cs[j + 1].tag);
            assert(!has_sig(m.items, cs[j + 1].tag));
            if has_sig(m2.items, rest[j].tag) {
                let v = choose|v: int| 0 <= v < m2.items.len() && sig(#[trigger] m2.items[v]) == rest[j].tag;
                if v < m.items.len() {
                    assert(m2.items[v] == m.items[v]);
                }
            }
        }
        let next = pos + lc;
        assert forall|j: int| next <= j < next + rr.len() implies #[trigger] s[j] == rr[j - next] by {
            assert(s[j] == rc[j - pos]);
        }
        lemma_children(s, m2, next, rest);
        assert(m2.items + child_items(rest) =~= m.items + child_items(cs));
        assert(parse_body(s, m, pos) == parse_body(s, m2, next));
    }
}

#[verifier::rlimit(60)]
proof fn lemma_head(s: Seq<char>, p: int, t: Tree)
    requires
        writable(t),
        0 <= p,
        p + render(t).len() <= s.len(),
        forall|j: int| p <= j < p + render(t).len() ==> #[trigger] s[j] == render(t)[j - p],
        p + render(t).len() == s.len() || s[p + render(t).len()] == '<',
    ensures
        ({
            let tt = t.tag.len() as int;
            let r = render_attrs(t.attrs).len() as int;
            let sc = t.children.len() == 0 && t.text.len() == 0;
            &&& head_at(s, p) == Some(
                HeadMatch {
                    tag_lo: p + 1,
                    tag_hi: p + 1 + tt,
                    attr_hi: p + 1 + tt + r,
                    self_close: sc,
                    end: if sc {
                        p + render(t).len()
                    } else {
                        p + 2 + tt + r
                    },
                },
            )
            &&& s.subrange(p + 1, p + 1 + tt) == t.tag
            &&& attrs_in(s, p + 1 + tt, p + 1 + tt + r) == t.attrs
        }),
{
    let w = render(t);
    let tag = t.tag;
    let a = t.attrs;
    let ra = render_attrs(a);
    let rc = render_children(t.children);
    let tt = tag.len() as int;
    let r = ra.len() as int;
    let x = t.text.len() as int;
    let c = rc.len() as int;
    let lw = w.len() as int;
    let len = s.len() as int;
    let sc = t.children.len() == 0 && x == 0;
    lemma_render(t);
    lemma_render_attrs_shape(a);
    lemma_render_children(t.children);
    // the head
    assert(s[p] == w[0]);
    lemma_run_to(s, p, p, len, CharClass::Space);
    assert forall|j: int| p + 1 <= j < p + 1 + tt implies in_class(#[trigger] s[j], CharClass::Name) by {
        assert(s[j] == w[j - p]);
        assert(w[1 + (j - p - 1)] == tag[j - p - 1]);
    }
    assert(s[p + 1 + tt] == w[1 + tt]);
    if r > 0 {
        assert(w[1 + tt + 0] == ra[0]);
    }
    lemma_run_to(s, p + 1, p + 1 + tt, len, CharClass::Name);
    let jp = if sc { p + 2 + tt + r } else { p + 1 + tt + r };
    assert forall|j: int| p + 1 + tt <= j < jp implies in_class(#[trigger] s[j], CharClass::Line) by {
        assert(s[j] == w[j - p]);
        if j < p + 1 + tt + r {
            assert(w[1 + tt + (j - p - 1 - tt)] == ra[j - p - 1 - tt]);
        }
    }
    assert(s[jp] == w[jp - p]);
    lemma_run_to(s, p + 1 + tt, jp, len, CharClass::Line);
    assert(s[jp - 1] == w[jp - 1 - p]);
    if sc {
        lemma_run_to(s, jp + 1, jp + 1, len, CharClass::Space);
    } else {
        assert(s[jp + 1] == w[jp + 1 - p]);
        if x > 0 {
            assert(w[2 + tt + r + 0] == t.text[0]);
        } else {
            assert(w[2 + tt + r + 0 + 0] == rc[0]);
        }
        lemma_run_to(s, jp + 1, jp + 1, len, CharClass::Space);
        if r > 0 {
            assert(w[1 + tt + (r - 1)] == ra[r - 1]);
        } else {
            assert(w[1 + (tt - 1)] == tag[tt - 1]);
        }
    }
    // the attributes
    assert(s.subrange(p + 1 + tt, p + 1 + tt + r) =~= ra) by {
        assert forall|j: int| 0 <= j < r implies s.subrange(p + 1 + tt, p + 1 + tt + r)[j] == ra[j] by {
            assert(s[p + 1 + tt + j] == w[1 + tt + j]);
        }
    }
    lemma_attrs_at(s, p + 1 + tt, p + 1 + tt + r, a);
    assert(s.subrange(p + 1, p + 1 + tt) =~= tag) by {
        assert forall|j: int| 0 <= j < tt implies s.subrange(p + 1, p + 1 + tt)[j] == tag[j] by {
            assert(s[p + 1 + j] == w[1 + j]);
        }
    }
}

#[verifier::rlimit(80)]
proof fn lemma_elem(s: Seq<char>, p: int, t: Tree)
    requires
        writable(t),
        0 <= p,
        p + render(t).len() <= s.len(),
        forall|j: int| p <= j < p + render(t).len() ==> #[trigger] s[j] == render(t)[j - p],
        p + render(t).len() == s.len() || s[p + render(t).len()] == '<',
    ensures
        parse_element(s, p) == Ok::<(Node, int), XmlError>((node_of(t), p + render(t).len())),
    decreases t,
{
    let w = render(t);
    let tag = t.tag;
    let a = t.attrs;
    let ra = render_attrs(a);
    let rc = render_children(t.children);
    let tt = tag.len() as int;
    let r = ra.len() as int;
    let x = t.text.len() as int;
    let c = rc.len() as int;
    let lw = w.len() as int;
    let len = s.len() as int;
    let sc = t.children.len() == 0 && x == 0;
    lemma_render(t);
    lemma_render_attrs_shape(a);
    lemma_render_children(t.children);
    lemma_head(s, p, t);
    lemma_add_attrs(empty_node(tag), a);
    let n = Node { items: empty_node(tag).items + attr_items(a), ..empty_node(tag) };
    assert(n.items =~= attr_items(a));
    let h = head_at(s, p);
    assert(h is Some);
    assert(h->Some_0.tag_lo == p + 1);
    assert(h->Some_0.tag_hi == p + 1 + tt);
    assert(h->Some_0.attr_hi == p + 1 + tt + r);
    if sc {
        assert(h->Some_0.self_close);
        assert(h->Some_0.end == p + lw);
        assert(t.text =~= Seq::<char>::empty());
        assert(child_items(t.children) =~= Seq::<Item>::empty());
        assert(Node { closed: true, ..n } =~= node_of(t));
    } else {
        let body = p + 2 + tt + r;
        let e = body + x;
        assert(h->Some_0.end == body);
        assert(!h->Some_0.self_close);
        assert(s[e] == w[e - p]);
        if c > 0 {
            assert(w[2 + tt + r + x + 0] == rc[0]);
        }
        let n2 = Node { text: t.text, ..n };
        if x > 0 {
            assert(s[body] == w[2 + tt + r + 0]);
            assert(close_at(s, body) is None);
            assert forall|j: int| body <= j < e implies in_class(#[trigger] s[j], CharClass::Text) by {
                assert(s[j] == w[j - p]);
                assert(w[2 + tt + r + (j - body)] == t.text[j - body]);
            }
            lemma_run_to(s, body, e, len, CharClass::Text);
            assert(text_at(s, body) == Some(e));
            assert(s.subrange(body, e) =~= t.text) by {
                assert forall|j: int| 0 <= j < x implies s.subrange(body, e)[j] == t.text[j] by {
                    assert(s[body + j] == w[2 + tt + r + j]);
                }
            }
            assert(parse_body(s, n, body) == parse_body(s, n2, e));
        } else {
            assert(t.text =~= Seq::<char>::empty());
            assert(n2 =~= n);
        }
        // the children and the close tag
        assert forall|i: int| 0 <= i < t.children.len() implies writable(#[trigger] t.children[i]) by {}
        assert forall|j: int| 0 <= j < t.children.len() implies !has_sig(n2.items, #[trigger] t.children[j].tag) by {
            if has_sig(n2.items, t.children[j].tag) {
                lemma_has_attr_sig(a, t.children[j].tag);
                let i = choose|i: int| 0 <= i < a.len() && #[trigger] a[i].0 == t.children[j].tag;
                assert(t.attrs[i].0 != t.children[j].tag);
            }
        }
        assert forall|j: int| e <= j < e + c implies #[trigger] s[j] == rc[j - e] by {
            assert(s[j] == w[j - p]);
            assert(w[2 + tt + r + x + (j - e)] == rc[j - e]);
        }
        assert(s[e + c] == w[2 + tt + r + x + c]);
        assert(s[e + c + 1] == w[3 + tt + r + x + c]);
        assert forall|j: int| 0 <= j < tt implies s[e + c + 2 + j] == #[trigger] tag[j] by {
            assert(s[e + c + 2 + j] == w[4 + tt + r + x + c + j]);
        }
        assert(s[e + c + 2 + tt] == w[4 + 2 * tt + r + x + c]);
        lemma_children(s, n2, e, t.children);
        assert(Node { items: n2.items + child_items(t.children), closed: true, ..n2 } =~= node_of(t));
    }
}

/// A tree written out as markup and parsed back is the element the tree stands for, and the
/// parse takes all of the text.
pub proof fn lemma_round_trip(t: Tree)
    requires
        writable(t),
    ensures
        parse_element(render(t), 0) == Ok::<(Node, int), XmlError>((node_of(t), render(t).len() as int)),
{
    lemma_elem(render(t), 0, t);
}


/// No two items are stored under one key.
pub open spec fn sigs_unique(items: Seq<Item>) -> bool {
    forall|i: int, j: int| 0 <= i < j < items.len() ==> sig(#[trigger] items[i]) != sig(#[trigger] items[j])
}

proof fn lemma_add_item_unique(n: Node, it: Item)
    requires
        sigs_unique(n.items),
    ensures
        add_item(n, it) matches Ok(m) ==> sigs_unique(m.items),
{
    if !has_sig(n.items, sig(it)) {
        let items = n.items.push(it);
        assert forall|i: int, j: int| 0 <= i < j < items.len() implies sig(#[trigger] items[i]) != sig(
            #[trigger] items[j],
        ) by {
            assert(items[i] == n.items[i]);
            if j < n.items.len() {
                assert(items[j] == n.items[j]);
            }
        }
    }
}

/// No element of the tree holds two items under one key.
pub open spec fn keys_unique_deep(n: Node) -> bool
    decreases n,
{
    &&& sigs_unique(n.items)
    &&& forall|i: int|
        0 <= i < n.items.len() ==> match #[trigger] n.items[i] {
            Item::Elem(c) => keys_unique_deep(c),
            Item::Attr { .. } => true,
        }
}

proof fn lemma_push_deep(n: Node, it: Item)
    requires
        keys_unique_deep(n),
        it matches Item::Elem(c) ==> keys_unique_deep(c),
    ensures
        add_item(n, it) matches Ok(m) ==> keys_unique_deep(m),
{
    lemma_add_item_unique(n, it);
    if let Ok(m) = add_item(n, it) {
        assert forall|i: int| 0 <= i < m.items.len() implies match #[trigger] m.items[i] {
            Item::Elem(c) => keys_unique_deep(c),
            Item::Attr { .. } => true,
        } by {
            if i < n.items.len() {
                assert(m.items[i] == n.items[i]);
            }
        }
    }
}

proof fn lemma_add_attrs_deep(n: Node, a: Seq<(Seq<char>, Seq<char>)>)
    requires
        keys_unique_deep(n),
    ensures
        add_attrs(n, a) matches Ok(m) ==> keys_unique_deep(m),
    decreases a.len(),
{
    if a.len() > 0 {
        let it = Item::Attr { key: a[0].0, value: a[0].1 };
        lemma_push_deep(n, it);
        if let Ok(m) = add_item(n, it) {
            lemma_add_attrs_deep(m, a.drop_first());
        }
    }
}

proof fn lemma_body_deep(s: Seq<char>, n: Node, p: int)
    requires
        keys_unique_deep(n),
    ensures
        parse_body(s, n, p) matches Ok((m, _)) ==> keys_unique_deep(m),
    decreases s.len() - p, 1int,
{
    if 0 <= p <= s.len() && close_at(s, p) is None {
        match text_at(s, p) {
            Some(e) => {
                if p < e <= s.len() {
                    lemma_body_deep(s, Node { text: s.subrange(p, e), ..n }, e);
                }
            },
            None => {
                if p < s.len() {
                    lemma_element_deep(s, p);
                    if let Ok((c, q)) = parse_element(s, p) {
                        lemma_push_deep(n, Item::Elem(c));
                        if let Ok(m) = add_item(n, Item::Elem(c)) {
                            if p < q <= s.len() {
                                lemma_body_deep(s, m, q);
                            }
                        }
                    }
                }
            },
        }
    }
}

proof fn lemma_element_deep(s: Seq<char>, p: int)
    ensures
        parse_element(s, p) matches Ok((n, _)) ==> keys_unique_deep(n),
    decreases s.len() - p, 0int,
{
    if let Some(h) = head_at(s, p) {
        let fresh = empty_node(s.subrange(h.tag_lo, h.tag_hi));
        lemma_add_attrs_deep(fresh, attrs_in(s, h.tag_hi, h.attr_hi));
        if let Ok(n) = add_attrs(fresh, attrs_in(s, h.tag_hi, h.attr_hi)) {
            if !h.self_close && p < h.end <= s.len() {
                lemma_body_deep(s, n, h.end);
            }
        }
    }
}

/// An element that parses, and every element nested in it, holds no two attributes or child
/// elements under one key.
pub proof fn lemma_element_keys_unique(s: Seq<char>, p: int)
    ensures
        parse_element(s, p) matches Ok((n, _)) ==> keys_unique_deep(n),
{
    lemma_element_deep(s, p);
}

/// A tree whose tag does not start with `?`, written out as a whole document and parsed back,
/// has that tree as its root element and an empty declaration.
pub proof fn lemma_document_round_trip(t: Tree)
    requires
        writable(t),
        t.tag[0] != '?',
    ensures
        parse_document(render(t)) == Ok::<Doc, XmlError>(
            Doc {
                root: node_of(t),
                version: Seq::empty(),
                encoding: Seq::empty(),
                standalone: false,
            },
        ),
{
    lemma_round_trip(t);
    lemma_render(t);
    let s = render(t);
    assert(s[1] == t.tag[0]);
    assert(meta_at(s) is None);
    reveal_strlit("yes");
    assert(value_of(Seq::empty(), "stand_alone"@) =~= Seq::<char>::empty());
}

} // verus!
