use vstd::prelude::*;
use crate::scan::{
    attr_pairs, attrs_in, chars_of, close_at, find_close, find_head, find_text, head_at,
    scan_attrs, string_of, text_at,
};
use crate::xml_attr::AttrData;

verus! {

broadcast use vstd::std_specs::vec::group_vec_axioms, vstd::seq::group_seq_axioms;

/// Abstract content stored under one signature of an element.
pub enum Item {
    Attr { key: Seq<char>, value: Seq<char> },
    Elem(Node),
}

/// Abstract element: tag, contents in declaration order, text, close status.
pub struct Node {
    pub tag: Seq<char>,
    pub items: Seq<Item>,
    pub text: Seq<char>,
    pub closed: bool,
}

/// What an element stores under one key: an attribute or a child element.
pub enum InsideData {
    Attr(AttrData),
    Inside(XmlStruct),
}

/// An element: its tag, its attributes and child elements in declaration order, its text, and
/// whether a matching close tag (or `/>`) ended it.
pub struct XmlStruct {
    tag: String,
    insides_data: Vec<InsideData>,
    data: String,
    status: bool,
}

impl InsideData {
    pub closed spec fn view(&self) -> Item
        decreases self,
    {
        match self {
            InsideData::Attr(a) => Item::Attr { key: a.key_view(), value: a.value_view() },
            InsideData::Inside(x) => Item::Elem(x.view()),
        }
    }
}

pub closed spec fn items_view(v: Seq<InsideData>) -> Seq<Item>
    decreases v,
{
    if v.len() == 0 {
        Seq::empty()
    } else {
        items_view(v.drop_last()).push(v.last().view())
    }
}

impl XmlStruct {
    pub closed spec fn view(&self) -> Node
        decreases self,
    {
        Node { tag: self.tag@, items: items_view(self.insides_data@), text: self.data@, closed: self.status }
    }
}


/// Why a parse fails.
#[derive(Clone, Copy, Debug, PartialEq, Eq, Structural)]
pub enum XmlError {
    /// no element head where an element is required
    MalformedHead,
    /// two attributes or two child elements of one element share a key or tag
    DuplicateSignature,
    /// the input ends before the element's close tag
    UnterminatedBody,
}

/// The key under which an item is stored: an attribute's key or a child's tag.
pub open spec fn sig(it: Item) -> Seq<char> {
    match it {
        Item::Attr { key, .. } => key,
        Item::Elem(n) => n.tag,
    }
}

pub open spec fn has_sig(items: Seq<Item>, k: Seq<char>) -> bool {
    exists|i: int| 0 <= i < items.len() && sig(#[trigger] items[i]) == k
}

/// Appends an item, refusing a second item under one key.
pub open spec fn add_item(n: Node, it: Item) -> Result<Node, XmlError> {
    if has_sig(n.items, sig(it)) {
        Err(XmlError::DuplicateSignature)
    } else {
        Ok(Node { items: n.items.push(it), ..n })
    }
}

pub open spec fn add_attrs(n: Node, a: Seq<(Seq<char>, Seq<char>)>) -> Result<Node, XmlError>
    decreases a.len(),
{
    if a.len() == 0 {
        Ok(n)
    } else {
        match add_item(n, Item::Attr { key: a[0].0, value: a[0].1 }) {
            Ok(m) => add_attrs(m, a.drop_first()),
            Err(e) => Err(e),
        }
    }
}

pub open spec fn empty_node(tag: Seq<char>) -> Node {
    Node { tag, items: Seq::empty(), text: Seq::empty(), closed: false }
}

/// The element that starts at `p`, and where the text after it starts.
pub open spec fn parse_element(s: Seq<char>, p: int) -> Result<(Node, int), XmlError>
    decreases s.len() - p, 0int,
{
    match head_at(s, p) {
        None => Err(XmlError::MalformedHead),
        Some(h) => match add_attrs(
            empty_node(s.subrange(h.tag_lo, h.tag_hi)),
            attrs_in(s, h.tag_hi, h.attr_hi),
        ) {
            Err(e) => Err(e),
            Ok(n) => if h.self_close {
                Ok((Node { closed: true, ..n }, h.end))
            } else if p < h.end <= s.len() {
                parse_body(s, n, h.end)
            } else {
                Err(XmlError::MalformedHead)
            },
        },
    }
}

/// The body of the open element `n` from `p` on: text and child elements up to a close tag.
/// The element is closed when that tag names it.
pub open spec fn parse_body(s: Seq<char>, n: Node, p: int) -> Result<(Node, int), XmlError>
    decreases s.len() - p, 1int,
{
    if !(0 <= p <= s.len()) {
        Err(XmlError::UnterminatedBody)
    } else {
        match close_at(s, p) {
            Some(e) => Ok((Node { closed: s.subrange(p + 2, e) == n.tag, ..n }, e + 1)),
            None => match text_at(s, p) {
                Some(e) => if p < e <= s.len() {
                    parse_body(s, Node { text: s.subrange(p, e), ..n }, e)
                } else {
                    Err(XmlError::UnterminatedBody)
                },
                None => if p == s.len() {
                    Err(XmlError::UnterminatedBody)
                } else {
                    match parse_element(s, p) {
                        Err(e) => Err(e),
                        Ok((c, q)) => match add_item(n, Item::Elem(c)) {
                            Err(e) => Err(e),
                            Ok(m) => if p < q <= s.len() {
                                parse_body(s, m, q)
                            } else {
                                Err(XmlError::MalformedHead)
                            },
                        },
                    }
                },
            },
        }
    }
}

pub open spec fn parsed_view(r: Result<(XmlStruct, usize), XmlError>) -> Result<(Node, int), XmlError> {
    match r {
        Ok((x, q)) => Ok((x@, q as int)),
        Err(e) => Err(e),
    }
}

proof fn lemma_items_view(v: Seq<InsideData>)
    ensures
        items_view(v).len() == v.len(),
        forall|j: int| 0 <= j < v.len() ==> #[trigger] items_view(v)[j] == v[j]@,
    decreases v.len(),
{
    if v.len() > 0 {
        lemma_items_view(v.drop_last());
    }
}

proof fn lemma_items_view_push(v: Seq<InsideData>, d: InsideData)
    ensures
        items_view(v.push(d)) == items_view(v).push(d@),
{
    assert(v.push(d).drop_last() =~= v);
}

impl InsideData {
    /// The key under which this item is stored.
    pub fn signature(&self) -> (r: &String)
        ensures
            r@ == sig(self@),
    {
        match self {
            InsideData::Attr(a) => a.get_key_ref(),
            InsideData::Inside(x) => &x.tag,
        }
    }
}

impl XmlStruct {
    pub fn new(tag: &str) -> (r: XmlStruct)
        ensures
            r@ == empty_node(tag@),
    {
        let r = XmlStruct { tag: tag.to_owned(), insides_data: Vec::new(), data: String::new(), status: false };
        proof {
            assert(r@.items =~= Seq::<Item>::empty());
        }
        r
    }

    fn append_inside_data(&mut self, data: InsideData) -> (r: Result<(), XmlError>)
        ensures
            match add_item(old(self)@, data@) {
                Ok(n) => r is Ok && final(self)@ == n,
                Err(e) => r == Err::<(), XmlError>(e) && final(self)@ == old(self)@,
            },
    {
        proof {
            lemma_items_view(self.insides_data@);
        }
        let mut i: usize = 0;
        while i < self.insides_data.len()
            invariant
                i <= self.insides_data.len(),
                forall|j: int| 0 <= j < i ==> sig(#[trigger] self.insides_data@[j]@) != sig(data@),
            decreases self.insides_data.len() - i,
        {
            let known = self.insides_data[i].signature();
            if known.eq(data.signature()) {
                proof {
                    lemma_items_view(self.insides_data@);
                    assert(sig(self@.items[i as int]) == sig(data@));
                }
                return Err(XmlError::DuplicateSignature);
            }
            i = i + 1;
        }
        proof {
            lemma_items_view(self.insides_data@);
            assert(!has_sig(self@.items, sig(data@)));
            lemma_items_view_push(self.insides_data@, data);
        }
        self.insides_data.push(data);
        Ok(())
    }

    fn set_plain_data(&mut self, data: String)
        ensures
            final(self)@ == (Node { text: data@, ..old(self)@ }),
    {
        self.data = data;
    }

    /// Adds the attributes of `a`, in order.
    fn load_attr_data(&mut self, a: &Vec<AttrData>) -> (r: Result<(), XmlError>)
        ensures
            match add_attrs(old(self)@, attr_pairs(a@)) {
                Ok(n) => r is Ok && final(self)@ == n,
                Err(e) => r == Err::<(), XmlError>(e),
            },
    {
        let mut j: usize = 0;
        proof {
            assert(attr_pairs(a@).skip(0) =~= attr_pairs(a@));
        }
        while j < a.len()
            invariant
                j <= a.len(),
                add_attrs(self@, attr_pairs(a@).skip(j as int)) == add_attrs(old(self)@, attr_pairs(a@)),
            decreases a.len() - j,
        {
            let ghost rest = attr_pairs(a@).skip(j as int);
            proof {
                assert(rest.drop_first() =~= attr_pairs(a@).skip(j + 1));
            }
            let item = InsideData::Attr(AttrData::from_strings(a[j].get_key(), a[j].get_value()));
            match self.append_inside_data(item) {
                Ok(()) => {},
                Err(e) => {
                    return Err(e);
                },
            }
            j = j + 1;
        }
        proof {
            assert(attr_pairs(a@).skip(j as int) =~= Seq::empty());
        }
        Ok(())
    }

    /// Closes the element with the close tag whose name ends at `e`, and gives back where the
    /// text after the tag starts.
    fn check_close_tag(&mut self, s: &Vec<char>, pos: usize, e: usize) -> (r: usize)
        requires
            pos + 2 < e < s.len(),
        ensures
            r == e + 1,
            final(self)@ == (Node { closed: s@.subrange(pos + 2, e as int) == old(self)@.tag, ..old(self)@ }),
    {
        let name = string_of(s, pos + 2, e);
        self.status = name == self.tag;
        e + 1
    }

    /// Takes one run of text or one child element at `pos`, where no close tag stands, and
    /// gives back where the body goes on.
    fn load_inside_data(&mut self, s: &Vec<char>, pos: usize) -> (r: Result<usize, XmlError>)
        requires
            pos <= s.len(),
            close_at(s@, pos as int) is None,
        ensures
            match text_at(s@, pos as int) {
                Some(e) => (r matches Ok(k) && k == e) && final(self)@ == (Node {
                    text: s@.subrange(pos as int, e),
                    ..old(self)@
                }),
                None => if pos == s.len() {
                    r == Err::<usize, XmlError>(XmlError::UnterminatedBody)
                } else {
                    match parse_element(s@, pos as int) {
                        Err(e) => r == Err::<usize, XmlError>(e),
                        Ok((c, q)) => match add_item(old(self)@, Item::Elem(c)) {
                            Err(e) => r == Err::<usize, XmlError>(e),
                            Ok(m) => (r matches Ok(k) && k == q) && final(self)@ == m,
                        },
                    }
                },
            },
            parse_body(s@, old(self)@, pos as int) == match r {
                Ok(q) => parse_body(s@, final(self)@, q as int),
                Err(e) => Err(e),
            },
            r matches Ok(q) ==> pos < q <= s.len(),
        decreases s.len() - pos, 1int,
    {
        match find_text(s, pos) {
            Some(e) => {
                self.set_plain_data(string_of(s, pos, e));
                Ok(e)
            },
            None => {
                if pos == s.len() {
                    return Err(XmlError::UnterminatedBody);
                }
                match XmlStruct::parse_at(s, pos) {
                    Err(e) => Err(e),
                    Ok((child, q)) => {
                        match self.append_inside_data(InsideData::Inside(child)) {
                            Err(e) => Err(e),
                            Ok(()) => Ok(q),
                        }
                    },
                }
            },
        }
    }

    /// Scans the body from `p` on, as `parse_body` says.
    fn no_close_sign_handle(&mut self, s: &Vec<char>, p: usize) -> (r: Result<usize, XmlError>)
        requires
            p <= s.len(),
        ensures
            match parse_body(s@, old(self)@, p as int) {
                Ok((n, q)) => (r matches Ok(k) && k == q) && final(self)@ == n,
                Err(e) => r == Err::<usize, XmlError>(e),
            },
            r matches Ok(q) ==> p < q <= s.len(),
        decreases s.len() - p, 2int,
    {
        let mut pos: usize = p;
        loop
            invariant
                p <= pos <= s.len(),
                parse_body(s@, self@, pos as int) == parse_body(s@, old(self)@, p as int),
            decreases s.len() - pos,
        {
            match find_close(s, pos) {
                Some(e) => {
                    return Ok(self.check_close_tag(s, pos, e));
                },
                None => {},
            }
            match self.load_inside_data(s, pos) {
                Ok(q) => {
                    pos = q;
                },
                Err(e) => {
                    return Err(e);
                },
            }
        }
    }

    /// The element that starts at `p` in `s`, and where the text after it starts.
    pub fn parse_at(s: &Vec<char>, p: usize) -> (r: Result<(XmlStruct, usize), XmlError>)
        requires
            p <= s.len(),
        ensures
            parsed_view(r) == parse_element(s@, p as int),
            r matches Ok((_, q)) ==> p < q <= s.len(),
        decreases s.len() - p, 0int,
    {
        match find_head(s, p) {
            None => Err(XmlError::MalformedHead),
            Some(h) => {
                let mut xml = XmlStruct::new_from(string_of(s, h.tag_lo, h.tag_hi));
                let attrs = scan_attrs(s, h.tag_hi, h.attr_hi);
                match xml.load_attr_data(&attrs) {
                    Err(e) => {
                        return Err(e);
                    },
                    Ok(()) => {},
                }
                if h.self_close {
                    xml.status = true;
                    Ok((xml, h.end))
                } else {
                    match xml.no_close_sign_handle(s, h.end) {
                        Ok(q) => Ok((xml, q)),
                        Err(e) => Err(e),
                    }
                }
            },
        }
    }

    fn new_from(tag: String) -> (r: XmlStruct)
        ensures
            r@ == empty_node(tag@),
    {
        let r = XmlStruct { tag, insides_data: Vec::new(), data: String::new(), status: false };
        proof {
            assert(r@.items =~= Seq::<Item>::empty());
        }
        r
    }
}


/// The first item stored under `k`, from index `i` on.
pub open spec fn lookup_from(items: Seq<Item>, k: Seq<char>, i: int) -> Option<Item>
    decreases items.len() - i,
{
    if i < 0 || i >= items.len() {
        None
    } else if sig(items[i]) == k {
        Some(items[i])
    } else {
        lookup_from(items, k, i + 1)
    }
}

/// The item stored under `k`.
pub open spec fn lookup(items: Seq<Item>, k: Seq<char>) -> Option<Item> {
    lookup_from(items, k, 0)
}

impl XmlStruct {
    /// Parses the element at the start of `data`, and gives back the text after it.
    pub fn from_str(data: String) -> (r: Result<(XmlStruct, String), XmlError>)
        ensures
            match parse_element(data@, 0) {
                Ok((n, q)) => r matches Ok((x, rest)) && x@ == n && rest@ == data@.subrange(
                    q,
                    data@.len() as int,
                ),
                Err(e) => r matches Err(e2) && e2 == e,
            },
    {
        let s = chars_of(data.as_str());
        match XmlStruct::parse_at(&s, 0) {
            Ok((x, q)) => {
                let rest = string_of(&s, q, s.len());
                Ok((x, rest))
            },
            Err(e) => Err(e),
        }
    }

    pub fn get_tag(&self) -> (r: &str)
        ensures
            r@ == self@.tag,
    {
        self.tag.as_str()
    }

    /// The keys of the attributes and child elements, in declaration order.
    pub fn get_inside_iter_name(&self) -> (r: Vec<String>)
        ensures
            r@.len() == self@.items.len(),
            forall|i: int| 0 <= i < r@.len() ==> (#[trigger] r@[i])@ == sig(self@.items[i]),
    {
        proof {
            lemma_items_view(self.insides_data@);
        }
        let mut r: Vec<String> = Vec::new();
        let mut i: usize = 0;
        while i < self.insides_data.len()
            invariant
                i <= self.insides_data.len(),
                r@.len() == i,
                items_view(self.insides_data@).len() == self.insides_data@.len(),
                forall|j: int| 0 <= j < i ==> (#[trigger] r@[j])@ == sig(self.insides_data@[j]@),
            decreases self.insides_data.len() - i,
        {
            r.push(self.insides_data[i].signature().clone());
            i = i + 1;
        }
        r
    }

    /// The attribute or child element stored under `tag_name`.
    pub fn get_inside_data(&self, tag_name: &str) -> (r: Option<&InsideData>)
        ensures
            r matches Some(d) ==> lookup(self@.items, tag_name@) == Some(d@),
            r matches Some(InsideData::Attr(a)) ==> lookup(self@.items, tag_name@) == Some(
                Item::Attr { key: a.key_view(), value: a.value_view() },
            ),
            r matches Some(InsideData::Inside(x)) ==> lookup(self@.items, tag_name@) == Some(
                Item::Elem(x@),
            ),
            r is None ==> lookup(self@.items, tag_name@) is None,
    {
        proof {
            lemma_items_view(self.insides_data@);
        }
        let k = tag_name.to_owned();
        let mut i: usize = 0;
        while i < self.insides_data.len()
            invariant
                i <= self.insides_data.len(),
                k@ == tag_name@,
                items_view(self.insides_data@).len() == self.insides_data@.len(),
                forall|j: int|
                    0 <= j < self.insides_data@.len() ==> #[trigger] items_view(self.insides_data@)[j]
                        == self.insides_data@[j]@,
                lookup_from(self@.items, k@, i as int) == lookup(self@.items, k@),
            decreases self.insides_data.len() - i,
        {
            let known = self.insides_data[i].signature();
            if known.eq(&k) {
                return Some(&self.insides_data[i]);
            }
            i = i + 1;
        }
        None
    }

    /// The text of the element; `None` where it has none.
    pub fn get_plain_data(&self) -> (r: Option<&String>)
        ensures
            r is None <==> self@.text.len() == 0,
            r matches Some(t) ==> t@ == self@.text,
    {
        if self.data.as_str().is_empty() {
            None
        } else {
            Some(&self.data)
        }
    }

    /// Whether the element closed itself, or was closed by a tag that names it.
    pub fn is_close_tag(&self) -> (r: bool)
        ensures
            r == self@.closed,
    {
        self.status
    }
}

} // verus!
