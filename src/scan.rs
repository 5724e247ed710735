use vstd::prelude::*;
use crate::xml_attr::AttrData;
use vstd::std_specs::iter::IteratorSpec;

verus! {

/// The character classes of the markup grammar.
#[derive(Clone, Copy, PartialEq, Eq, Structural)]
pub enum CharClass {
    /// white space (the Unicode White_Space property)
    Space,
    /// a tag name character: not `/`, `<`, `>` or white space
    Name,
    /// an attribute value character: not `<`, `>` or white space
    Value,
    /// a character of plain text: not `<` or `>`
    Text,
    /// a character inside one line of an element head: not `>` or a line feed
    Line,
}

pub open spec fn is_space(c: char) -> bool {
    let u = c as u32;
    (0x09 <= u && u <= 0x0D) || u == 0x20 || u == 0x85 || u == 0xA0 || u == 0x1680 || (0x2000
        <= u && u <= 0x200A) || u == 0x2028 || u == 0x2029 || u == 0x202F || u == 0x205F || u
        == 0x3000
}

pub open spec fn is_quote(c: char) -> bool {
    c == '"' || c == '\''
}

pub open spec fn in_class(c: char, cls: CharClass) -> bool {
    match cls {
        CharClass::Space => is_space(c),
        CharClass::Name => !(c == '/' || c == '<' || c == '>' || is_space(c)),
        CharClass::Value => !(c == '<' || c == '>' || is_space(c)),
        CharClass::Text => c != '<' && c != '>',
        CharClass::Line => c != '>' && c != '\n',
    }
}

/// The first index `k` in `i..hi` whose character is not of class `cls`, or `hi`.
pub open spec fn run_end(s: Seq<char>, i: int, hi: int, cls: CharClass) -> int
    decreases hi - i,
{
    if i < hi && i < s.len() && 0 <= i && in_class(s[i], cls) {
        run_end(s, i + 1, hi, cls)
    } else {
        i
    }
}

pub proof fn lemma_run_end(s: Seq<char>, i: int, hi: int, cls: CharClass)
    requires
        0 <= i <= hi <= s.len(),
    ensures
        i <= run_end(s, i, hi, cls) <= hi,
        forall|k: int| i <= k < run_end(s, i, hi, cls) ==> in_class(#[trigger] s[k], cls),
        run_end(s, i, hi, cls) < hi ==> !in_class(s[run_end(s, i, hi, cls)], cls),
    decreases hi - i,
{
    if i < hi && in_class(s[i], cls) {
        lemma_run_end(s, i + 1, hi, cls);
    }
}

/// The positions of an element head that `find_head` found: the tag name is `tag_lo..tag_hi`,
/// the attribute text `tag_hi..attr_hi`, and the text after the head starts at `end`.
pub struct HeadSpan {
    pub tag_lo: usize,
    pub tag_hi: usize,
    pub attr_hi: usize,
    pub self_close: bool,
    pub end: usize,
}

/// The positions of an element head, as `head_at` finds them.
pub struct HeadMatch {
    pub tag_lo: int,
    pub tag_hi: int,
    pub attr_hi: int,
    pub self_close: bool,
    pub end: int,
}

impl HeadSpan {
    pub open spec fn view(&self) -> HeadMatch {
        HeadMatch {
            tag_lo: self.tag_lo as int,
            tag_hi: self.tag_hi as int,
            attr_hi: self.attr_hi as int,
            self_close: self.self_close,
            end: self.end as int,
        }
    }
}

/// Where an element head starts at `p`: `<`, after optional white space, then the tag name,
/// the attribute text on the same line, an optional `/`, and `>` followed by optional white
/// space.
pub open spec fn head_at(s: Seq<char>, p: int) -> Option<HeadMatch> {
    let q = run_end(s, p, s.len() as int, CharClass::Space);
    let t = run_end(s, q + 1, s.len() as int, CharClass::Name);
    let j = run_end(s, t, s.len() as int, CharClass::Line);
    if 0 <= p <= s.len() && q < s.len() && s[q] == '<' && t > q + 1 && j < s.len() && s[j]
        == '>' {
        let sc = j - 1 >= t && s[j - 1] == '/';
        Some(
            HeadMatch {
                tag_lo: q + 1,
                tag_hi: t,
                attr_hi: if sc {
                    j - 1
                } else {
                    j
                },
                self_close: sc,
                end: run_end(s, j + 1, s.len() as int, CharClass::Space),
            },
        )
    } else {
        None
    }
}

/// Where a close tag `</name>` starts at `p`: the end of the name.
pub open spec fn close_at(s: Seq<char>, p: int) -> Option<int> {
    let n = run_end(s, p + 2, s.len() as int, CharClass::Name);
    if 0 <= p && p + 1 < s.len() && s[p] == '<' && s[p + 1] == '/' && n > p + 2 && n < s.len()
        && s[n] == '>' {
        Some(n)
    } else {
        None
    }
}

/// Where a run of plain text that starts at `p` ends, if there is one.
pub open spec fn text_at(s: Seq<char>, p: int) -> Option<int> {
    let e = run_end(s, p, s.len() as int, CharClass::Text);
    if 0 <= p && e > p {
        Some(e)
    } else {
        None
    }
}

/// The last quote in `lo..k`.
pub open spec fn last_quote(s: Seq<char>, lo: int, k: int) -> Option<int>
    decreases k - lo,
{
    if k <= lo || k > s.len() || lo < 0 {
        None
    } else if is_quote(s[k - 1]) {
        Some(k - 1)
    } else {
        last_quote(s, lo, k - 1)
    }
}

/// Whether a key that ends at `e` is followed by `=`, a quote, and a value that ends at a quote
/// before white space, `<` or `>`: the position of that closing quote, the last one that qualifies.
pub open spec fn value_after(s: Seq<char>, e: int, hi: int) -> Option<int> {
    if 0 <= e && e + 1 < hi && hi <= s.len() && s[e] == '=' && is_quote(s[e + 1]) {
        last_quote(s, e + 2, run_end(s, e + 2, hi, CharClass::Value))
    } else {
        None
    }
}

/// The longest key `i..e` with `e <= k` that a value follows, and the value's closing quote.
pub open spec fn attr_split(s: Seq<char>, i: int, k: int, hi: int) -> Option<(int, int)>
    decreases k - i,
{
    if k <= i {
        None
    } else {
        match value_after(s, k, hi) {
            Some(v) => Some((k, v)),
            None => attr_split(s, i, k - 1, hi),
        }
    }
}

/// Where an attribute `key="value"` starts at `i`, inside `..hi`: the end of the key and the
/// position of the closing quote. The key is the longest run of tag name characters (`=` and
/// quotes among them) that `=`, a quote and a value follow; the value runs to the last quote
/// before white space, `<` or `>`.
pub open spec fn attr_at(s: Seq<char>, i: int, hi: int) -> Option<(int, int)> {
    if 0 <= i && hi <= s.len() {
        attr_split(s, i, run_end(s, i, hi, CharClass::Name) - 1, hi)
    } else {
        None
    }
}

/// Every attribute of the text `i..hi`, left to right, as key and value.
pub open spec fn attrs_in(s: Seq<char>, i: int, hi: int) -> Seq<(Seq<char>, Seq<char>)>
    decreases hi - i,
{
    if i < 0 || i >= hi || hi > s.len() {
        Seq::empty()
    } else {
        match attr_at(s, i, hi) {
            Some((e, v)) => if i < v + 1 <= hi {
                seq![(s.subrange(i, e), s.subrange(e + 2, v))] + attrs_in(s, v + 1, hi)
            } else {
                Seq::empty()
            },
            None => attrs_in(s, i + 1, hi),
        }
    }
}


/// The keys and values of a list of attributes.
pub open spec fn attr_pairs(v: Seq<AttrData>) -> Seq<(Seq<char>, Seq<char>)> {
    v.map_values(|a: AttrData| (a.key_view(), a.value_view()))
}

/// The characters of `s`, in order.
pub(crate) fn chars_of(s: &str) -> (r: Vec<char>)
    ensures
        r@ == s@,
{
    broadcast use vstd::string::axiom_spec_iter, vstd::string::next_postcondition;

    let mut it = s.chars();
    let mut r: Vec<char> = Vec::new();
    proof {
        assert(r@ + IteratorSpec::remaining(&it) =~= s@);
    }
    loop
        invariant
            r@ + IteratorSpec::remaining(&it) == s@,
            IteratorSpec::decrease(&it) is Some,
        decreases IteratorSpec::decrease(&it)->0,
    {
        let ghost before = IteratorSpec::remaining(&it);
        match it.next() {
            Some(c) => {
                proof {
                    assert(r@.push(c) + IteratorSpec::remaining(&it) =~= r@ + before);
                }
                r.push(c);
            },
            None => {
                proof {
                    assert(r@ + IteratorSpec::remaining(&it) =~= r@);
                }
                return r;
            },
        }
    }
}

/// Relies on `String`'s `FromIterator<&char>`: the characters `s[lo..hi]`, in order.
#[verifier::external_body]
pub(crate) fn string_of(s: &Vec<char>, lo: usize, hi: usize) -> (r: String)
    requires
        lo <= hi <= s.len(),
    ensures
        r@ == s@.subrange(lo as int, hi as int),
{
    s[lo..hi].iter().collect()
}

pub fn is_space_char(c: char) -> (r: bool)
    ensures
        r == is_space(c),
{
    let u = c as u32;
    (0x09 <= u && u <= 0x0D) || u == 0x20 || u == 0x85 || u == 0xA0 || u == 0x1680 || (0x2000
        <= u && u <= 0x200A) || u == 0x2028 || u == 0x2029 || u == 0x202F || u == 0x205F || u
        == 0x3000
}

pub fn char_in_class(c: char, cls: CharClass) -> (r: bool)
    ensures
        r == in_class(c, cls),
{
    match cls {
        CharClass::Space => is_space_char(c),
        CharClass::Name => !(c == '/' || c == '<' || c == '>' || is_space_char(c)),
        CharClass::Value => !(c == '<' || c == '>' || is_space_char(c)),
        CharClass::Text => c != '<' && c != '>',
        CharClass::Line => c != '>' && c != '\n',
    }
}

/// The end of the run of class `cls` that starts at `i`, inside `..hi`.
pub fn scan_run(s: &Vec<char>, i: usize, hi: usize, cls: CharClass) -> (r: usize)
    requires
        i <= hi <= s.len(),
    ensures
        r == run_end(s@, i as int, hi as int, cls),
        i <= r <= hi,
{
    proof {
        lemma_run_end(s@, i as int, hi as int, cls);
    }
    let mut k: usize = i;
    while k < hi
        invariant
            i <= k <= hi <= s.len(),
            run_end(s@, k as int, hi as int, cls) == run_end(s@, i as int, hi as int, cls),
        decreases hi - k,
    {
        if char_in_class(s[k], cls) {
            k = k + 1;
        } else {
            return k;
        }
    }
    k
}

/// The element head at `p`, as `head_at` says.
pub fn find_head(s: &Vec<char>, p: usize) -> (r: Option<HeadSpan>)
    requires
        p <= s.len(),
    ensures
        r matches Some(h) ==> head_at(s@, p as int) == Some(h@),
        r is None ==> head_at(s@, p as int) is None,
        r matches Some(h) ==> p < h.tag_lo < h.tag_hi <= h.attr_hi < h.end <= s.len(),
{
    let len = s.len();
    let q = scan_run(s, p, len, CharClass::Space);
    if q >= len || s[q] != '<' {
        return None;
    }
    let t = scan_run(s, q + 1, len, CharClass::Name);
    if t <= q + 1 {
        return None;
    }
    let j = scan_run(s, t, len, CharClass::Line);
    if j >= len || s[j] != '>' {
        return None;
    }
    let sc = j - 1 >= t && s[j - 1] == '/';
    let end = scan_run(s, j + 1, len, CharClass::Space);
    Some(HeadSpan { tag_lo: q + 1, tag_hi: t, attr_hi: if sc { j - 1 } else { j }, self_close: sc, end })
}

/// The close tag at `p`, as `close_at` says.
pub fn find_close(s: &Vec<char>, p: usize) -> (r: Option<usize>)
    requires
        p <= s.len(),
    ensures
        r matches Some(n) ==> close_at(s@, p as int) == Some(n as int) && p + 2 < n < s.len(),
        r is None ==> close_at(s@, p as int) is None,
{
    let len = s.len();
    if len - p < 2 || s[p] != '<' || s[p + 1] != '/' {
        return None;
    }
    let n = scan_run(s, p + 2, len, CharClass::Name);
    if n > p + 2 && n < len && s[n] == '>' {
        Some(n)
    } else {
        None
    }
}

/// The run of plain text at `p`, as `text_at` says.
pub fn find_text(s: &Vec<char>, p: usize) -> (r: Option<usize>)
    requires
        p <= s.len(),
    ensures
        r matches Some(e) ==> text_at(s@, p as int) == Some(e as int) && p < e <= s.len(),
        r is None ==> text_at(s@, p as int) is None,
{
    let e = scan_run(s, p, s.len(), CharClass::Text);
    if e > p {
        Some(e)
    } else {
        None
    }
}

fn find_last_quote(s: &Vec<char>, lo: usize, hi: usize) -> (r: Option<usize>)
    requires
        lo <= hi <= s.len(),
    ensures
        r matches Some(k) ==> last_quote(s@, lo as int, hi as int) == Some(k as int),
        r is None ==> last_quote(s@, lo as int, hi as int) is None,
{
    let mut k: usize = hi;
    while k > lo
        invariant
            lo <= k <= hi <= s.len(),
            last_quote(s@, lo as int, k as int) == last_quote(s@, lo as int, hi as int),
        decreases k,
    {
        if s[k - 1] == '"' || s[k - 1] == '\'' {
            return Some(k - 1);
        }
        k = k - 1;
    }
    None
}

proof fn lemma_last_quote(s: Seq<char>, lo: int, k: int)
    requires
        0 <= lo <= k <= s.len(),
    ensures
        last_quote(s, lo, k) matches Some(v) ==> lo <= v < k,
    decreases k - lo,
{
    if k > lo && !is_quote(s[k - 1]) {
        lemma_last_quote(s, lo, k - 1);
    }
}

fn find_attr(s: &Vec<char>, i: usize, hi: usize) -> (r: Option<(usize, usize)>)
    requires
        i <= hi <= s.len(),
    ensures
        r matches Some((e, v)) ==> attr_at(s@, i as int, hi as int) == Some((e as int, v as int))
            && i < e && e + 2 <= v < hi,
        r is None ==> attr_at(s@, i as int, hi as int) is None,
{
    let m = scan_run(s, i, hi, CharClass::Name);
    if m <= i {
        return None;
    }
    let mut k: usize = m - 1;
    while k > i
        invariant
            i <= k < m <= hi <= s.len(),
            attr_split(s@, i as int, k as int, hi as int) == attr_at(s@, i as int, hi as int),
        decreases k,
    {
        if hi - k > 1 && s[k] == '=' && (s[k + 1] == '"' || s[k + 1] == '\'') {
            let vend = scan_run(s, k + 2, hi, CharClass::Value);
            proof {
                lemma_last_quote(s@, k + 2, vend as int);
            }
            match find_last_quote(s, k + 2, vend) {
                Some(v) => {
                    return Some((k, v));
                },
                None => {},
            }
        }
        k = k - 1;
    }
    None
}

/// The attributes of the text `lo..hi`, left to right.
pub fn scan_attrs(s: &Vec<char>, lo: usize, hi: usize) -> (r: Vec<AttrData>)
    requires
        lo <= hi <= s.len(),
    ensures
        attr_pairs(r@) == attrs_in(s@, lo as int, hi as int),
{
    let mut r: Vec<AttrData> = Vec::new();
    let mut i: usize = lo;
    proof {
        assert(attr_pairs(r@) =~= Seq::empty());
    }
    while i < hi
        invariant
            lo <= i <= hi <= s.len(),
            attr_pairs(r@) + attrs_in(s@, i as int, hi as int) == attrs_in(s@, lo as int, hi as int),
        decreases hi - i,
    {
        match find_attr(s, i, hi) {
            Some((e, v)) => {
                let a = AttrData::from_strings(string_of(s, i, e), string_of(s, e + 2, v));
                let ghost old_r = r@;
                let ghost pair = (s@.subrange(i as int, e as int), s@.subrange(e + 2, v as int));
                r.push(a);
                proof {
                    assert(attr_pairs(r@) =~= attr_pairs(old_r).push(pair));
                    assert(attrs_in(s@, i as int, hi as int) == seq![pair] + attrs_in(s@, v + 1, hi as int));
                    assert(attr_pairs(old_r) + attrs_in(s@, i as int, hi as int) =~= attr_pairs(r@)
                        + attrs_in(s@, v + 1, hi as int));
                }
                i = v + 1;
            },
            None => {
                i = i + 1;
            },
        }
    }
    proof {
        assert(attr_pairs(r@) + attrs_in(s@, i as int, hi as int) =~= attr_pairs(r@));
    }
    r
}

} // verus!
