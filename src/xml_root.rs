use vstd::prelude::*;
use crate::scan::{attr_pairs, attrs_in, chars_of, run_end, scan_attrs, scan_run, CharClass};
use crate::xml::{lookup, parse_element, sig, InsideData, Item, Node, XmlError, XmlStruct};
use crate::xml_attr::AttrData;

verus! {

/// Abstract document: the root element and the fields of the declaration.
pub struct Doc {
    pub root: Node,
    pub version: Seq<char>,
    pub encoding: Seq<char>,
    pub standalone: bool,
}

/// A parsed document: one root element and the fields of an optional `<?xml ...?>` header.
pub struct XmlRoot {
    root: XmlStruct,
    version: String,
    encoding: String,
    stand_alone: bool,
}

/// Where a declaration `<?xml ...?>` at the very start ends: the position of its `>`.
pub open spec fn meta_at(s: Seq<char>) -> Option<int> {
    let m = run_end(s, 5, s.len() as int, CharClass::Text);
    if s.len() >= 5 && s[0] == '<' && s[1] == '?' && s[2] == 'x' && s[3] == 'm' && s[4] == 'l'
        && m > 6 && m < s.len() && s[m] == '>' && s[m - 1] == '?' {
        Some(m)
    } else {
        None
    }
}

/// The value of the last pair with key `k`, or the empty text.
pub open spec fn value_of(a: Seq<(Seq<char>, Seq<char>)>, k: Seq<char>) -> Seq<char>
    decreases a.len(),
{
    if a.len() == 0 {
        Seq::empty()
    } else if a.last().0 == k {
        a.last().1
    } else {
        value_of(a.drop_last(), k)
    }
}

/// The pairs of the declaration, and where the text after it starts.
pub open spec fn meta_of(s: Seq<char>) -> (Seq<(Seq<char>, Seq<char>)>, int) {
    match meta_at(s) {
        Some(m) => (attrs_in(s, 5, m - 1), m + 1),
        None => (Seq::empty(), 0),
    }
}

pub open spec fn parse_document(s: Seq<char>) -> Result<Doc, XmlError> {
    let (a, start) = meta_of(s);
    match parse_element(s, start) {
        Ok((n, _)) => Ok(
            Doc {
                root: n,
                version: value_of(a, "version"@),
                encoding: value_of(a, "encoding"@),
                standalone: value_of(a, "stand_alone"@) == "yes"@,
            },
        ),
        Err(e) => Err(e),
    }
}

pub open spec fn error_text(e: XmlError) -> Seq<char> {
    match e {
        XmlError::MalformedHead => "malformed element head"@,
        XmlError::DuplicateSignature => "duplicate attribute key or child tag"@,
        XmlError::UnterminatedBody => "element body without a close tag"@,
    }
}

impl XmlError {
    pub fn message(&self) -> (r: String)
        ensures
            r@ == error_text(*self),
    {
        match self {
            XmlError::MalformedHead => "malformed element head".to_owned(),
            XmlError::DuplicateSignature => "duplicate attribute key or child tag".to_owned(),
            XmlError::UnterminatedBody => "element body without a close tag".to_owned(),
        }
    }
}

fn find_meta(s: &Vec<char>) -> (r: Option<usize>)
    ensures
        r matches Some(m) ==> meta_at(s@) == Some(m as int) && 6 < m < s.len(),
        r is None ==> meta_at(s@) is None,
{
    let len = s.len();
    if len < 5 || s[0] != '<' || s[1] != '?' || s[2] != 'x' || s[3] != 'm' || s[4] != 'l' {
        return None;
    }
    let m = scan_run(s, 5, len, CharClass::Text);
    if m > 6 && m < len && s[m] == '>' && s[m - 1] == '?' {
        Some(m)
    } else {
        None
    }
}

impl XmlRoot {
    pub closed spec fn view(&self) -> Doc {
        Doc {
            root: self.root@,
            version: self.version@,
            encoding: self.encoding@,
            standalone: self.stand_alone,
        }
    }

    fn new() -> (r: XmlRoot)
        ensures
            r@.version.len() == 0,
            r@.encoding.len() == 0,
            !r@.standalone,
    {
        XmlRoot { root: XmlStruct::new(""), version: String::new(), encoding: String::new(), stand_alone: false }
    }

    /// Reads the declaration at the start of `s` into the meta fields, and gives back where
    /// the text after it starts.
    fn load_meta_data(&mut self, s: &Vec<char>) -> (r: usize)
        requires
            old(self)@.version.len() == 0,
            old(self)@.encoding.len() == 0,
            !old(self)@.standalone,
        ensures
            r == meta_of(s@).1,
            r <= s.len(),
            final(self)@.root == old(self)@.root,
            final(self)@.version == value_of(meta_of(s@).0, "version"@),
            final(self)@.encoding == value_of(meta_of(s@).0, "encoding"@),
            final(self)@.standalone == (value_of(meta_of(s@).0, "stand_alone"@) == "yes"@),
    {
        match find_meta(s) {
            None => {
                proof {
                    reveal_strlit("yes");
                }
                0
            },
            Some(m) => {
                let a = scan_attrs(s, 5, m - 1);
                let ghost pairs = attr_pairs(a@);
                let version = "version".to_owned();
                let encoding = "encoding".to_owned();
                let stand_alone = "stand_alone".to_owned();
                let yes = "yes".to_owned();
                let mut j: usize = 0;
                proof {
                    reveal_strlit("yes");
                    assert(pairs.take(0) =~= Seq::empty());
                    assert(value_of(pairs.take(0), "stand_alone"@).len() == 0);
                }
                while j < a.len()
                    invariant
                        j <= a.len(),
                        pairs == attr_pairs(a@),
                        version@ == "version"@,
                        encoding@ == "encoding"@,
                        stand_alone@ == "stand_alone"@,
                        yes@ == "yes"@,
                        self@.root == old(self)@.root,
                        self@.version == value_of(pairs.take(j as int), "version"@),
                        self@.encoding == value_of(pairs.take(j as int), "encoding"@),
                        self@.standalone == (value_of(pairs.take(j as int), "stand_alone"@) == "yes"@),
                    decreases a.len() - j,
                {
                    proof {
                        reveal_strlit("version");
                        reveal_strlit("encoding");
                        reveal_strlit("stand_alone");
                        reveal_strlit("yes");
                        assert("version"@.len() != "encoding"@.len());
                        assert("version"@.len() != "stand_alone"@.len());
                        assert("encoding"@.len() != "stand_alone"@.len());
                        assert(pairs.take(j + 1).drop_last() =~= pairs.take(j as int));
                        assert(pairs.take(j + 1).last() == pairs[j as int]);
                    }
                    let key = a[j].get_key_ref();
                    if key.eq(&version) {
                        self.version = a[j].get_value();
                    } else if key.eq(&encoding) {
                        self.encoding = a[j].get_value();
                    } else if key.eq(&stand_alone) {
                        self.stand_alone = a[j].get_value_ref().eq(&yes);
                    }
                    j = j + 1;
                }
                proof {
                    assert(pairs.take(j as int) =~= pairs);
                }
                m + 1
            },
        }
    }

    /// Parses the root element from `p` on; the text after it is left alone.
    fn load_xml_struct(&mut self, s: &Vec<char>, p: usize) -> (r: Result<(), XmlError>)
        requires
            p <= s.len(),
        ensures
            match parse_element(s@, p as int) {
                Ok((n, _)) => r is Ok && final(self)@ == (Doc { root: n, ..old(self)@ }),
                Err(e) => r == Err::<(), XmlError>(e),
            },
    {
        match XmlStruct::parse_at(s, p) {
            Ok((x, _)) => {
                self.root = x;
                Ok(())
            },
            Err(e) => Err(e),
        }
    }

    /// Parses a whole document: an optional declaration, then one root element. Text after
    /// the root element is ignored.
    pub fn from_str(str: &str) -> (r: Result<XmlRoot, String>)
        ensures
            match parse_document(str@) {
                Ok(d) => r matches Ok(x) && x@ == d,
                Err(e) => r matches Err(m) && m@ == error_text(e),
            },
    {
        let s = chars_of(str);
        let mut xml = XmlRoot::new();
        let start = xml.load_meta_data(&s);
        match xml.load_xml_struct(&s, start) {
            Ok(()) => Ok(xml),
            Err(e) => Err(e.message()),
        }
    }

    pub fn get_tag(&self) -> (r: &str)
        ensures
            r@ == self@.root.tag,
    {
        self.root.get_tag()
    }

    /// The attribute or child element of the root stored under `sign_name`.
    pub fn get_inside_data(&self, sign_name: &str) -> (r: Option<&InsideData>)
        ensures
            r matches Some(d) ==> lookup(self@.root.items, sign_name@) == Some(d@),
            r matches Some(InsideData::Attr(a)) ==> lookup(self@.root.items, sign_name@) == Some(
                Item::Attr { key: a.key_view(), value: a.value_view() },
            ),
            r matches Some(InsideData::Inside(x)) ==> lookup(self@.root.items, sign_name@) == Some(
                Item::Elem(x@),
            ),
            r is None ==> lookup(self@.root.items, sign_name@) is None,
    {
        self.root.get_inside_data(sign_name)
    }

    /// The keys of the root's attributes and child elements, in declaration order.
    pub fn get_inside_iter_name(&self) -> (r: Vec<String>)
        ensures
            r@.len() == self@.root.items.len(),
            forall|i: int| 0 <= i < r@.len() ==> (#[trigger] r@[i])@ == sig(self@.root.items[i]),
    {
        self.root.get_inside_iter_name()
    }

    pub fn get_plain_data(&self) -> (r: Option<&String>)
        ensures
            r is None <==> self@.root.text.len() == 0,
            r matches Some(t) ==> t@ == self@.root.text,
    {
        self.root.get_plain_data()
    }

    pub fn is_close_tag(&self) -> (r: bool)
        ensures
            r == self@.root.closed,
    {
        self.root.is_close_tag()
    }

    pub fn version(&self) -> (r: &str)
        ensures
            r@ == self@.version,
    {
        self.version.as_str()
    }

    pub fn encoding(&self) -> (r: &str)
        ensures
            r@ == self@.encoding,
    {
        self.encoding.as_str()
    }

    pub fn standalone(&self) -> (r: bool)
        ensures
            r == self@.standalone,
    {
        self.stand_alone
    }
}

} // verus!
