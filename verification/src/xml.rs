//! A reader and writer for the `primary.xml` subset the repository model
//! consumes: a `<metadata>` root of `<package>` elements, each with
//! `<name>`, `<version epoch ver rel/>` and a `<format>` whose
//! provides / requires / conflicts / obsoletes lists hold `<entry>`
//! records. Namespace prefixes are ignored by matching local names, and
//! unknown elements and attributes are skipped.
use vstd::prelude::*;

use crate::repo::{Entries, Format, Package, RpmEntry, Version};
use crate::text::{chars_eq_str, chars_to_string, copy_range, find_char, parse_u64_chars};

verus! {

/// Why a metadata document was rejected.
#[derive(Debug, Clone, PartialEq, Eq)]
pub enum ParseError {
    /// The text is not well-formed XML of the expected shape.
    MalformedXml,
    /// A required element or attribute is absent; carries its name.
    MissingField(String),
    /// A numeric attribute does not hold a decimal number in range.
    BadInteger,
}

/// A scanned tag: its (possibly prefixed) name, its attributes in order,
/// and whether it closes (`</x>`) or self-closes (`<x/>`).
struct Tag {
    name: Vec<char>,
    attrs: Vec<(Vec<char>, Vec<char>)>,
    closing: bool,
    self_closing: bool,
}

pub open spec fn is_space(c: char) -> bool {
    c == ' ' || c == '\t' || c == '\n' || c == '\r'
}

pub open spec fn is_name_char(c: char) -> bool {
    ('a' <= c && c <= 'z') || ('A' <= c && c <= 'Z') || ('0' <= c && c <= '9') || c == '_' || c
        == '-' || c == '.' || c == ':'
}

/// The first position at or after `i` that does not hold a name
/// character, or the length if every later position does.
pub open spec fn name_run_end(s: Seq<char>, i: int) -> int
    decreases s.len() - i,
{
    if i >= s.len() {
        s.len() as int
    } else if !is_name_char(s[i]) {
        i
    } else {
        name_run_end(s, i + 1)
    }
}

/// Pins the end of a name run from the characters themselves.
proof fn lemma_name_run_end_at(s: Seq<char>, i: int, e: int)
    requires
        0 <= i <= e <= s.len(),
        forall|j: int| i <= j < e ==> is_name_char(#[trigger] s[j]),
        e == s.len() || !is_name_char(s[e]),
    ensures
        name_run_end(s, i) == e,
    decreases e - i,
{
    if i < e {
        lemma_name_run_end_at(s, i + 1, e);
    }
}

#[verifier::loop_isolation(false)]
fn skip_ws(s: &Vec<char>, pos: usize) -> (r: usize)
    requires
        pos <= s@.len(),
    ensures
        pos <= r <= s@.len(),
        forall|j: int| pos <= j < r ==> is_space(#[trigger] s@[j]),
        r < s@.len() ==> !is_space(s@[r as int]),
{
    let mut i: usize = pos;
    while i < s.len() && (s[i] == ' ' || s[i] == '\t' || s[i] == '\n' || s[i] == '\r')
        invariant
            pos <= i <= s@.len(),
            forall|j: int| pos <= j < i ==> is_space(#[trigger] s@[j]),
        decreases s@.len() - i,
    {
        i = i + 1;
    }
    i
}

fn name_char(c: char) -> (r: bool)
    ensures
        r == is_name_char(c),
{
    ('a' <= c && c <= 'z') || ('A' <= c && c <= 'Z') || ('0' <= c && c <= '9') || c == '_' || c
        == '-' || c == '.' || c == ':'
}

#[verifier::loop_isolation(false)]
fn read_name(s: &Vec<char>, pos: usize) -> (r: (Vec<char>, usize))
    requires
        pos <= s@.len(),
    ensures
        pos <= r.1 <= s@.len(),
        r.1 == name_run_end(s@, pos as int),
        r.0@ == s@.subrange(pos as int, r.1 as int),
{
    let mut i: usize = pos;
    let mut name: Vec<char> = Vec::new();
    while i < s.len() && name_char(s[i])
        invariant
            pos <= i <= s@.len(),
            name@ =~= s@.subrange(pos as int, i as int),
            name_run_end(s@, pos as int) == name_run_end(s@, i as int),
        decreases s@.len() - i,
    {
        name.push(s[i]);
        proof {
            assert(s@.subrange(pos as int, i + 1) =~= s@.subrange(pos as int, i as int).push(
                s@[i as int],
            ));
        }
        i = i + 1;
    }
    (name, i)
}

/// The part of a name after its last namespace prefix.
pub open spec fn local_of(n: Seq<char>) -> Seq<char>
    decreases n.len(),
{
    if n.len() == 0 {
        n
    } else if n.last() == ':' {
        Seq::empty()
    } else {
        local_of(n.drop_last()).push(n.last())
    }
}

/// A name without a colon is its own local part.
proof fn lemma_local_of_no_colon(n: Seq<char>)
    requires
        forall|j: int| 0 <= j < n.len() ==> #[trigger] n[j] != ':',
    ensures
        local_of(n) == n,
    decreases n.len(),
{
    if n.len() > 0 {
        assert(forall|j: int| 0 <= j < n.drop_last().len() ==> #[trigger] n.drop_last()[j] != ':');
        lemma_local_of_no_colon(n.drop_last());
        assert(local_of(n) =~= n);
    }
}

/// The part of a tag or attribute name after its last namespace prefix.
#[verifier::loop_isolation(false)]
fn local_name(name: &Vec<char>) -> (r: Vec<char>)
    ensures
        r@ == local_of(name@),
{
    let mut out: Vec<char> = Vec::new();
    let mut i: usize = 0;
    while i < name.len()
        invariant
            0 <= i <= name@.len(),
            out@ == local_of(name@.take(i as int)),
        decreases name@.len() - i,
    {
        proof {
            assert(name@.take(i + 1).drop_last() =~= name@.take(i as int));
            assert(name@.take(i + 1).last() == name@[i as int]);
        }
        if name[i] == ':' {
            out.clear();
        } else {
            out.push(name[i]);
        }
        i = i + 1;
    }
    proof {
        assert(name@.take(name@.len() as int) =~= name@);
    }
    out
}

#[verifier::loop_isolation(false)]
fn chars_eq(a: &Vec<char>, b: &Vec<char>) -> (r: bool)
    ensures
        r == (a@ == b@),
{
    if a.len() != b.len() {
        return false;
    }
    let mut i: usize = 0;
    while i < a.len()
        invariant
            0 <= i <= a@.len(),
            a@.len() == b@.len(),
            forall|j: int| 0 <= j < i ==> a@[j] == b@[j],
        decreases a@.len() - i,
    {
        if a[i] != b[i] {
            return false;
        }
        i = i + 1;
    }
    assert(a@ =~= b@);
    true
}

/// `t` is the text of `s` starting at `pos`.
pub open spec fn text_at(s: Seq<char>, pos: int, t: Seq<char>) -> bool {
    &&& 0 <= pos
    &&& pos + t.len() <= s.len()
    &&& s.subrange(pos, pos + t.len()) == t
}

pub proof fn lemma_text_at_index(s: Seq<char>, pos: int, t: Seq<char>, k: int)
    requires
        text_at(s, pos, t),
        0 <= k < t.len(),
    ensures
        s[pos + k] == t[k],
{
    assert(s.subrange(pos, pos + t.len())[k] == s[pos + k]);
}

/// A text split into two parts stands at two consecutive positions.
pub proof fn lemma_text_at_split(s: Seq<char>, pos: int, a: Seq<char>, b: Seq<char>)
    requires
        text_at(s, pos, a + b),
    ensures
        text_at(s, pos, a),
        text_at(s, pos + a.len(), b),
{
    assert forall|k: int| 0 <= k < a.len() implies s[pos + k] == a[k] by {
        lemma_text_at_index(s, pos, a + b, k);
    }
    assert(s.subrange(pos, pos + a.len()) =~= a);
    assert forall|k: int| 0 <= k < b.len() implies s[pos + a.len() + k] == b[k] by {
        lemma_text_at_index(s, pos, a + b, a.len() + k);
    }
    assert(s.subrange(pos + a.len(), pos + a.len() + b.len()) =~= b);
}

pub open spec fn no_char(t: Seq<char>, c: char) -> bool {
    forall|j: int| 0 <= j < t.len() ==> #[trigger] t[j] != c
}

pub open spec fn all_name_chars(t: Seq<char>) -> bool {
    forall|j: int| 0 <= j < t.len() ==> is_name_char(#[trigger] t[j])
}

/// The shape of one canonical tag: `</name>`, `<name a="v" ...>` or
/// `<name a="v" .../>`.
pub ghost struct TagShape {
    pub closing: bool,
    pub name: Seq<char>,
    pub attrs: Seq<(Seq<char>, Seq<char>)>,
    pub self_closing: bool,
}

pub open spec fn wf_attrs(attrs: Seq<(Seq<char>, Seq<char>)>) -> bool {
    forall|k: int|
        0 <= k < attrs.len() ==> {
            &&& (#[trigger] attrs[k]).0.len() > 0
            &&& all_name_chars(attrs[k].0)
            &&& no_char(attrs[k].1, '"')
        }
}

pub open spec fn wf_tag_shape(t: TagShape) -> bool {
    &&& t.name.len() > 0
    &&& all_name_chars(t.name)
    &&& wf_attrs(t.attrs)
    &&& t.closing ==> t.attrs.len() == 0 && !t.self_closing
}

/// The canonical text of one attribute: ` key="value"`.
pub open spec fn attr_text(kv: (Seq<char>, Seq<char>)) -> Seq<char> {
    " "@ + kv.0 + "=\""@ + kv.1 + "\""@
}

pub open spec fn attrs_text(attrs: Seq<(Seq<char>, Seq<char>)>) -> Seq<char>
    decreases attrs.len(),
{
    if attrs.len() == 0 {
        Seq::empty()
    } else {
        attr_text(attrs.first()) + attrs_text(attrs.drop_first())
    }
}

/// The canonical text of one tag.
pub open spec fn tag_text(t: TagShape) -> Seq<char> {
    "<"@ + (if t.closing {
        "/"@
    } else {
        Seq::<char>::empty()
    }) + t.name + attrs_text(t.attrs) + (if t.self_closing {
        "/>"@
    } else {
        ">"@
    })
}

/// The views of a scanned attribute list.
pub open spec fn attrs_view(attrs: Seq<(Vec<char>, Vec<char>)>) -> Seq<(Seq<char>, Seq<char>)> {
    Seq::new(attrs.len(), |i: int| (attrs[i].0@, attrs[i].1@))
}

/// The contents and lengths of the punctuation literals of the canonical
/// grammar, in one place.
pub proof fn lemma_lit_facts()
    ensures
        ("<"@).len() == 1 && ("<"@)[0] == '<',
        ("/"@).len() == 1 && ("/"@)[0] == '/',
        (">"@).len() == 1 && (">"@)[0] == '>',
        ("/>"@).len() == 2 && ("/>"@)[0] == '/' && ("/>"@)[1] == '>',
        (" "@).len() == 1 && (" "@)[0] == ' ',
        ("=\""@).len() == 2 && ("=\""@)[0] == '=' && ("=\""@)[1] == '"',
        ("\""@).len() == 1 && ("\""@)[0] == '"',
{
    reveal_strlit("<");
    reveal_strlit("/");
    reveal_strlit(">");
    reveal_strlit("/>");
    reveal_strlit(" ");
    reveal_strlit("=\"");
    reveal_strlit("\"");
}

/// Pins the first occurrence of a character from the characters themselves.
pub proof fn lemma_find_from_at(s: Seq<char>, c: char, from: int, e: int)
    requires
        0 <= from <= e <= s.len(),
        forall|j: int| from <= j < e ==> #[trigger] s[j] != c,
        e == s.len() || s[e] == c,
    ensures
        crate::text::find_from(s, c, from) == e,
    decreases e - from,
{
    if from < e {
        lemma_find_from_at(s, c, from + 1, e);
    }
}

/// Scans one tag starting at a `<`. Besides the progress bound, the
/// contract pins the result on the attribute-less tag shapes, which is
/// what the canonical serialization's framing tags look like, and — when
/// a canonical tag shape is supplied for the position — on that shape.
/// What the tag scanner meets, position by position, when one canonical
/// attribute stands at `p` followed by `rest`.
proof fn lemma_attr_piece(s: Seq<char>, p: int, kv: (Seq<char>, Seq<char>), rest: Seq<char>)
    requires
        text_at(s, p, attr_text(kv) + rest),
        kv.0.len() > 0,
        all_name_chars(kv.0),
        no_char(kv.1, '"'),
        rest.len() > 0,
    ensures
        attr_text(kv).len() == kv.0.len() + kv.1.len() + 4,
        s[p] == ' ',
        name_run_end(s, p + 1) == p + 1 + kv.0.len(),
        s.subrange(p + 1, p + 1 + kv.0.len()) == kv.0,
        s[p + 1 + kv.0.len()] == '=',
        s[p + 2 + kv.0.len()] == '"',
        crate::text::find_from(s, '"', p + 3 + kv.0.len()) == p + 3 + kv.0.len() + kv.1.len(),
        p + 3 + kv.0.len() + kv.1.len() < s.len(),
        s.subrange(p + 3 + kv.0.len(), p + 3 + kv.0.len() + kv.1.len()) == kv.1,
        text_at(s, p + attr_text(kv).len(), rest),
{
    lemma_lit_facts();
    let n = kv.0.len() as int;
    let v = kv.1.len() as int;
    assert(attr_text(kv) + rest =~= " "@ + (kv.0 + ("=\""@ + (kv.1 + ("\""@ + rest)))));
    lemma_text_at_split(s, p, " "@, kv.0 + ("=\""@ + (kv.1 + ("\""@ + rest))));
    lemma_text_at_index(s, p, " "@, 0);
    lemma_text_at_split(s, p + 1, kv.0, "=\""@ + (kv.1 + ("\""@ + rest)));
    lemma_text_at_split(s, p + 1 + n, "=\""@, kv.1 + ("\""@ + rest));
    lemma_text_at_index(s, p + 1 + n, "=\""@, 0);
    lemma_text_at_index(s, p + 1 + n, "=\""@, 1);
    lemma_text_at_split(s, p + 3 + n, kv.1, "\""@ + rest);
    lemma_text_at_split(s, p + 3 + n + v, "\""@, rest);
    lemma_text_at_index(s, p + 3 + n + v, "\""@, 0);
    assert forall|j: int| p + 1 <= j < p + 1 + n implies is_name_char(#[trigger] s[j]) by {
        lemma_text_at_index(s, p + 1, kv.0, j - (p + 1));
    }
    assert(!is_name_char('='));
    lemma_name_run_end_at(s, p + 1, p + 1 + n);
    assert forall|j: int| p + 3 + n <= j < p + 3 + n + v implies #[trigger] s[j] != '"' by {
        lemma_text_at_index(s, p + 3 + n, kv.1, j - (p + 3 + n));
    }
    lemma_find_from_at(s, '"', p + 3 + n, p + 3 + n + v);
    assert(text_at(s, p + attr_text(kv).len(), rest));
}

#[verifier::loop_isolation(false)]
#[verifier::rlimit(60)]
fn parse_tag(s: &Vec<char>, pos: usize, Ghost(shape): Ghost<Option<TagShape>>) -> (r: Result<
    (Tag, usize),
    ParseError,
>)
    requires
        pos <= s@.len(),
        shape is Some ==> wf_tag_shape(shape->Some_0) && text_at(
            s@,
            pos as int,
            tag_text(shape->Some_0),
        ),
    ensures
        shape is Some ==> ({
            let t = shape->Some_0;
            &&& r is Ok
            &&& r->Ok_0.0.name@ == t.name
            &&& attrs_view(r->Ok_0.0.attrs@) == t.attrs
            &&& r->Ok_0.0.closing == t.closing
            &&& r->Ok_0.0.self_closing == t.self_closing
            &&& r->Ok_0.1 == pos + tag_text(t).len()
        }),
        r is Ok ==> pos < r->Ok_0.1 <= s@.len(),
        (pos >= s@.len() || s@[pos as int] != '<') ==> r is Err,
        ({
            // "<name/>": a self-closing tag without attributes
            let e = name_run_end(s@, pos + 1);
            (pos < s@.len() && s@[pos as int] == '<' && e > pos + 1 && e + 1 < s@.len() && s@[e]
                == '/' && s@[e + 1] == '>') ==> {
                &&& r is Ok
                &&& r->Ok_0.1 == e + 2
                &&& r->Ok_0.0.name@ == s@.subrange(pos + 1, e)
                &&& r->Ok_0.0.attrs@.len() == 0
                &&& !r->Ok_0.0.closing
                &&& r->Ok_0.0.self_closing
            }
        }),
        ({
            // "<name>": an open tag without attributes
            let e = name_run_end(s@, pos + 1);
            (pos < s@.len() && s@[pos as int] == '<' && e > pos + 1 && e < s@.len() && s@[e]
                == '>') ==> {
                &&& r is Ok
                &&& r->Ok_0.1 == e + 1
                &&& r->Ok_0.0.name@ == s@.subrange(pos + 1, e)
                &&& r->Ok_0.0.attrs@.len() == 0
                &&& !r->Ok_0.0.closing
                &&& !r->Ok_0.0.self_closing
            }
        }),
        ({
            // "</name>": a closing tag
            let e = name_run_end(s@, pos + 2);
            (pos + 1 < s@.len() && s@[pos as int] == '<' && s@[pos + 1] == '/' && e > pos + 2 && e
                < s@.len() && s@[e] == '>') ==> {
                &&& r is Ok
                &&& r->Ok_0.1 == e + 1
                &&& r->Ok_0.0.name@ == s@.subrange(pos + 2, e)
                &&& r->Ok_0.0.closing
                &&& !r->Ok_0.0.self_closing
            }
        }),
{
    let ghost canon = shape is Some;
    let ghost t = shape->Some_0;
    let ghost closer: Seq<char> = if t.self_closing {
        "/>"@
    } else {
        ">"@
    };
    let ghost ns: int = pos + 1 + (if t.closing {
        1int
    } else {
        0int
    });
    let ghost ap: int = ns + t.name.len();
    proof {
        if canon {
            lemma_lit_facts();
            let sl: Seq<char> = if t.closing {
                "/"@
            } else {
                Seq::empty()
            };
            let head = "<"@ + sl;
            assert(tag_text(t) =~= head + (t.name + (attrs_text(t.attrs) + closer)));
            lemma_text_at_split(s@, pos as int, head, t.name + (attrs_text(t.attrs) + closer));
            lemma_text_at_index(s@, pos as int, head, 0);
            if t.closing {
                lemma_text_at_index(s@, pos as int, head, 1);
            }
            assert(head.len() == ns - pos);
            lemma_text_at_split(s@, ns, t.name, attrs_text(t.attrs) + closer);
            assert forall|j: int| ns <= j < ap implies is_name_char(#[trigger] s@[j]) by {
                lemma_text_at_index(s@, ns, t.name, j - ns);
            }
            if t.attrs.len() > 0 {
                assert(attrs_text(t.attrs) + closer =~= attr_text(t.attrs.first()) + (attrs_text(
                    t.attrs.drop_first(),
                ) + closer));
                lemma_attr_piece(
                    s@,
                    ap,
                    t.attrs.first(),
                    attrs_text(t.attrs.drop_first()) + closer,
                );
            } else {
                assert(attrs_text(t.attrs) + closer =~= closer);
                lemma_text_at_index(s@, ap, closer, 0);
            }
            assert(!is_name_char(s@[ap]));
            lemma_name_run_end_at(s@, ns, ap);
            if !t.closing {
                lemma_text_at_index(s@, ns, t.name, 0);
                assert(s@[pos + 1] == t.name[0]);
                assert(!is_name_char('/'));
            }
        }
    }
    if pos >= s.len() || s[pos] != '<' {
        return Err(ParseError::MalformedXml);
    }
    proof {
        if name_run_end(s@, pos + 1) > pos + 1 {
            assert(pos + 1 < s@.len() && is_name_char(s@[pos + 1]));
        }
    }
    let mut i: usize = pos + 1;
    let mut closing: bool = false;
    if i < s.len() && s[i] == '/' {
        closing = true;
        i = i + 1;
    }
    proof {
        if canon {
            assert(closing == t.closing);
            assert(i == ns);
        }
    }
    let (name, i2) = read_name(s, i);
    if name.len() == 0 {
        return Err(ParseError::MalformedXml);
    }
    proof {
        if canon {
            assert(i2 == ap);
            assert(name@ =~= t.name);
        }
    }
    let ghost e = i2 as int;
    let ghost simple = e < s@.len() && (s@[e] == '>' || (s@[e] == '/' && e + 1 < s@.len() && s@[e
        + 1] == '>'));
    let mut i: usize = i2;
    let mut attrs: Vec<(Vec<char>, Vec<char>)> = Vec::new();
    let ghost mut m: int = 0;
    proof {
        if canon {
            assert(t.attrs.skip(0) =~= t.attrs);
            assert(attrs_view(attrs@) =~= t.attrs.take(0));
        }
    }
    while i < s.len()
        invariant
            pos < i <= s@.len(),
            simple ==> i == e && attrs@.len() == 0,
            canon ==> {
                &&& 0 <= m <= t.attrs.len()
                &&& attrs_view(attrs@) == t.attrs.take(m)
                &&& name@ == t.name
                &&& closing == t.closing
                &&& text_at(s@, i as int, attrs_text(t.attrs.skip(m)) + closer)
                &&& i == pos + tag_text(t).len() - attrs_text(t.attrs.skip(m)).len()
                    - closer.len()
            },
        decreases s@.len() - i,
    {
        let ghost p = i as int;
        let ghost kv = t.attrs[m];
        proof {
            if canon {
                lemma_lit_facts();
                if m < t.attrs.len() {
                    assert(t.attrs.skip(m).first() == kv);
                    assert(t.attrs.skip(m).drop_first() =~= t.attrs.skip(m + 1));
                    assert(attrs_text(t.attrs.skip(m)) + closer =~= attr_text(kv) + (attrs_text(
                        t.attrs.skip(m + 1),
                    ) + closer));
                    lemma_attr_piece(s@, p, kv, attrs_text(t.attrs.skip(m + 1)) + closer);
                    assert(s@.subrange(p + 1, p + 1 + kv.0.len())[0] == s@[p + 1]);
                    assert(s@[p + 1] == kv.0[0]);
                    assert(!is_space(s@[p + 1]));
                } else {
                    assert(t.attrs.skip(m) =~= Seq::<(Seq<char>, Seq<char>)>::empty());
                    assert(attrs_text(t.attrs.skip(m)) + closer =~= closer);
                    lemma_text_at_index(s@, p, closer, 0);
                    if t.self_closing {
                        lemma_text_at_index(s@, p, closer, 1);
                    }
                    assert(!is_space(s@[p]));
                }
            }
        }
        i = skip_ws(s, i);
        proof {
            if canon {
                if m < t.attrs.len() {
                    assert(is_space(s@[p]));
                    assert(i != p);
                    assert(i == p + 1);
                } else {
                    assert(i == p);
                }
            }
        }
        if i >= s.len() {
            return Err(ParseError::MalformedXml);
        }
        let c = s[i];
        if c == '>' {
            proof {
                if canon {
                    if m < t.attrs.len() {
                        assert(c == kv.0[0] && is_name_char(kv.0[0]));
                        assert(!is_name_char('>'));
                    } else {
                        assert(!t.self_closing);
                        assert(attrs_view(attrs@) == t.attrs.take(m) && t.attrs.take(m)
                            =~= t.attrs);
                    }
                }
            }
            return Ok((Tag { name, attrs, closing, self_closing: false }, i + 1));
        }
        if c == '/' {
            if i + 1 < s.len() && s[i + 1] == '>' {
                if closing {
                    return Err(ParseError::MalformedXml);
                }
                proof {
                    if canon {
                        if m < t.attrs.len() {
                            assert(c == kv.0[0] && is_name_char(kv.0[0]));
                            assert(!is_name_char('/'));
                        } else {
                            assert(t.self_closing);
                            assert(t.attrs.take(m) =~= t.attrs);
                        }
                    }
                }
                return Ok((Tag { name, attrs, closing, self_closing: true }, i + 2));
            }
            proof {
                if canon {
                    if m < t.attrs.len() {
                        assert(!is_name_char('/'));
                        assert(false);
                    } else {
                        assert(t.self_closing);
                        assert(false);
                    }
                }
            }
            return Err(ParseError::MalformedXml);
        }
        if closing {
            proof {
                if canon {
                    assert(m < t.attrs.len() || s@[i as int] == '>' || s@[i as int] == '/');
                    assert(false);
                }
            }
            return Err(ParseError::MalformedXml);
        }
        let (aname, i3) = read_name(s, i);
        if aname.len() == 0 {
            proof {
                if canon {
                    assert(m < t.attrs.len());
                    assert(i3 == p + 1 + kv.0.len());
                    assert(aname@ =~= kv.0);
                    assert(false);
                }
            }
            return Err(ParseError::MalformedXml);
        }
        proof {
            if canon {
                assert(m < t.attrs.len());
                assert(i3 == p + 1 + kv.0.len());
                assert(aname@ =~= kv.0);
                assert(!is_space('='));
            }
        }
        let mut k: usize = skip_ws(s, i3);
        proof {
            if canon {
                assert(k == p + 1 + kv.0.len());
            }
        }
        if k >= s.len() || s[k] != '=' {
            return Err(ParseError::MalformedXml);
        }
        proof {
            if canon {
                assert(!is_space(s@[k + 1]));
            }
        }
        k = skip_ws(s, k + 1);
        proof {
            if canon {
                assert(k == p + 2 + kv.0.len());
            }
        }
        if k >= s.len() || (s[k] != '"' && s[k] != '\'') {
            return Err(ParseError::MalformedXml);
        }
        let quote = s[k];
        let vstart = k + 1;
        let vend = find_char(s, quote, vstart);
        proof {
            if canon {
                assert(quote == '"');
                assert(vend == p + 3 + kv.0.len() + kv.1.len());
            }
        }
        if vend >= s.len() {
            return Err(ParseError::MalformedXml);
        }
        let value = copy_range(s, vstart, vend);
        let ghost before = attrs@;
        attrs.push((aname, value));
        proof {
            if canon {
                assert(value@ =~= kv.1);
                assert(t.attrs.take(m + 1) =~= t.attrs.take(m).push(kv));
                assert(attrs_view(attrs@) =~= attrs_view(before).push((aname@, value@)));
                assert((aname@, value@) == kv);
                assert(attrs_view(attrs@) =~= t.attrs.take(m + 1));
                m = m + 1;
            }
        }
        i = vend + 1;
    }
    proof {
        if canon {
            lemma_lit_facts();
            assert(false);
        }
    }
    Err(ParseError::MalformedXml)
}

/// The position just past the next `-->`, if any.
#[verifier::loop_isolation(false)]
fn find_comment_end(s: &Vec<char>, from: usize) -> (r: Option<usize>)
    requires
        from <= s@.len(),
    ensures
        r is Some ==> from < r->Some_0 <= s@.len(),
{
    let mut k: usize = from;
    while k < s.len() && s.len() - k >= 3
        invariant
            from <= k <= s@.len(),
        decreases s@.len() - k,
    {
        if s[k] == '-' && s[k + 1] == '-' && s[k + 2] == '>' {
            return Some(k + 3);
        }
        k = k + 1;
    }
    None
}

/// Skips whitespace, comments and processing instructions. A position
/// already standing on an ordinary tag is returned unchanged.
#[verifier::loop_isolation(false)]
fn skip_misc(s: &Vec<char>, pos: usize) -> (r: Result<usize, ParseError>)
    requires
        pos <= s@.len(),
    ensures
        r is Ok ==> pos <= r->Ok_0 <= s@.len(),
        (pos < s@.len() && s@[pos as int] == '<' && pos + 1 < s@.len() && s@[pos + 1] != '?' && s@[
            pos + 1] != '!') ==> r == Result::<usize, ParseError>::Ok(pos),
{
    let ghost at_tag = pos < s@.len() && s@[pos as int] == '<' && pos + 1 < s@.len() && s@[pos
        + 1] != '?' && s@[pos + 1] != '!';
    let mut i: usize = pos;
    loop
        invariant
            pos <= i <= s@.len(),
            at_tag ==> i == pos,
        decreases s@.len() - i,
    {
        i = skip_ws(s, i);
        if i < s.len() && s.len() - i >= 2 && s[i] == '<' && s[i + 1] == '?' {
            let gt = find_char(s, '>', i + 2);
            if gt >= s.len() {
                return Err(ParseError::MalformedXml);
            }
            i = gt + 1;
        } else if i < s.len() && s.len() - i >= 4 && s[i] == '<' && s[i + 1] == '!' && s[i + 2]
            == '-' && s[i + 3] == '-' {
            match find_comment_end(s, i + 4) {
                Some(e) => {
                    i = e;
                },
                None => {
                    return Err(ParseError::MalformedXml);
                },
            }
        } else {
            return Ok(i);
        }
    }
}

/// Skips the rest of an element whose open tag was consumed, through its
/// matching close tag.
#[verifier::loop_isolation(false)]
fn skip_element(s: &Vec<char>, pos: usize) -> (r: Result<usize, ParseError>)
    requires
        pos <= s@.len(),
    ensures
        r is Ok ==> pos < r->Ok_0 <= s@.len(),
{
    let mut depth: usize = 1;
    let mut i: usize = pos;
    loop
        invariant
            pos <= i <= s@.len(),
            depth >= 1,
        decreases s@.len() - i,
    {
        let lt = find_char(s, '<', i);
        if lt >= s.len() {
            return Err(ParseError::MalformedXml);
        }
        if lt + 1 < s.len() && (s[lt + 1] == '?' || s[lt + 1] == '!') {
            let j = skip_misc(s, lt)?;
            if j <= lt {
                return Err(ParseError::MalformedXml);
            }
            i = j;
        } else {
            let (tag, j) = parse_tag(s, lt, Ghost(None))?;
            if tag.closing {
                if depth == 1 {
                    return Ok(j);
                }
                depth = depth - 1;
            } else if !tag.self_closing {
                if depth == usize::MAX {
                    return Err(ParseError::MalformedXml);
                }
                depth = depth + 1;
            }
            i = j;
        }
    }
}

/// The value of the first attribute bearing `key`, if any.
pub open spec fn attr_lookup(attrs: Seq<(Seq<char>, Seq<char>)>, key: Seq<char>) -> Option<
    Seq<char>,
>
    decreases attrs.len(),
{
    if attrs.len() == 0 {
        None
    } else if attrs.first().0 == key {
        Some(attrs.first().1)
    } else {
        attr_lookup(attrs.drop_first(), key)
    }
}

proof fn lemma_attr_lookup_opt(
    k2: Seq<char>,
    v: Option<Seq<char>>,
    rest: Seq<(Seq<char>, Seq<char>)>,
    key: Seq<char>,
)
    ensures
        attr_lookup(opt_attr(k2, v) + rest, key) == if v is Some && k2 == key {
            Some(v->Some_0)
        } else {
            attr_lookup(rest, key)
        },
{
    match v {
        None => {
            assert(opt_attr(k2, v) + rest =~= rest);
        },
        Some(x) => {
            let a = opt_attr(k2, v) + rest;
            assert(a.first() == (k2, x));
            assert(a.drop_first() =~= rest);
        },
    }
}

/// One optional canonical attribute: present as its single pair, or absent.
pub open spec fn opt_attr(key: Seq<char>, v: Option<Seq<char>>) -> Seq<(Seq<char>, Seq<char>)> {
    match v {
        Some(x) => seq![(key, x)],
        None => Seq::empty(),
    }
}

/// The attribute list the serializer writes for one `<entry>` record.
pub open spec fn entry_attrs(e: crate::repo::EntryView) -> Seq<(Seq<char>, Seq<char>)> {
    opt_attr("name"@, Some(e.name)) + opt_attr("flags"@, e.flags) + opt_attr(
        "epoch"@,
        match e.epoch {
            Some(x) => Some(crate::text::decimal_chars(x as int)),
            None => None,
        },
    ) + opt_attr("ver"@, e.ver) + opt_attr("rel"@, e.rel)
}

/// The attribute list the serializer writes for one `<version>` tag.
pub open spec fn version_attrs(v: crate::repo::VersionView) -> Seq<(Seq<char>, Seq<char>)> {
    opt_attr("epoch"@, Some(crate::text::decimal_chars(v.epoch as int))) + opt_attr(
        "ver"@,
        Some(v.ver),
    ) + opt_attr("rel"@, Some(v.rel))
}

/// An entry record whose canonical text re-parses: no attribute value
/// holds a double quote.
pub open spec fn wf_entry(e: crate::repo::EntryView) -> bool {
    &&& no_char(e.name, '"')
    &&& (e.flags is Some ==> no_char(e.flags->Some_0, '"'))
    &&& (e.ver is Some ==> no_char(e.ver->Some_0, '"'))
    &&& (e.rel is Some ==> no_char(e.rel->Some_0, '"'))
}

pub open spec fn wf_entries(es: Seq<crate::repo::EntryView>) -> bool {
    forall|i: int| 0 <= i < es.len() ==> wf_entry(#[trigger] es[i])
}

pub open spec fn opt_wf_entries(es: Option<Seq<crate::repo::EntryView>>) -> bool {
    es is Some ==> wf_entries(es->Some_0)
}

/// A package whose canonical text re-parses: its name is free of `<`,
/// its version fields are free of `"`, and its entries are well formed.
pub open spec fn wf_package(p: crate::repo::PackageView) -> bool {
    &&& no_char(p.name, '<')
    &&& no_char(p.version.ver, '"')
    &&& no_char(p.version.rel, '"')
    &&& opt_wf_entries(p.format.provides)
    &&& opt_wf_entries(p.format.requires)
    &&& opt_wf_entries(p.format.conflicts)
    &&& opt_wf_entries(p.format.obsoletes)
}

pub open spec fn wf_packages(ps: Seq<crate::repo::PackageView>) -> bool {
    forall|i: int| 0 <= i < ps.len() ==> wf_package(#[trigger] ps[i])
}

/// The contents of the attribute-key literals: all distinct names.
proof fn lemma_key_facts()
    ensures
        ("name"@).len() == 4 && all_name_chars("name"@),
        ("flags"@).len() == 5 && all_name_chars("flags"@),
        ("epoch"@).len() == 5 && all_name_chars("epoch"@),
        ("ver"@).len() == 3 && all_name_chars("ver"@),
        ("rel"@).len() == 3 && all_name_chars("rel"@),
        ("type"@).len() == 4 && all_name_chars("type"@),
        "name"@ != "flags"@ && "name"@ != "epoch"@ && "name"@ != "ver"@ && "name"@ != "rel"@,
        "flags"@ != "epoch"@ && "flags"@ != "ver"@ && "flags"@ != "rel"@,
        "epoch"@ != "ver"@ && "epoch"@ != "rel"@,
        "ver"@ != "rel"@,
        "type"@ != "name"@ && "type"@ != "flags"@ && "type"@ != "epoch"@ && "type"@ != "ver"@
            && "type"@ != "rel"@,
{
    reveal_strlit("name");
    reveal_strlit("flags");
    reveal_strlit("epoch");
    reveal_strlit("ver");
    reveal_strlit("rel");
    reveal_strlit("type");
    assert(("flags"@)[0] == 'f' && ("epoch"@)[0] == 'e');
    assert(("ver"@)[0] == 'v' && ("rel"@)[0] == 'r');
    assert(("type"@)[0] == 't' && ("name"@)[0] == 'n');
}

/// What each key resolves to in a canonical entry attribute list.
proof fn lemma_entry_attr_lookup(e: crate::repo::EntryView)
    ensures
        attr_lookup(entry_attrs(e), "name"@) == Some(e.name),
        attr_lookup(entry_attrs(e), "flags"@) == e.flags,
        attr_lookup(entry_attrs(e), "epoch"@) == match e.epoch {
            Some(x) => Some(crate::text::decimal_chars(x as int)),
            None => None::<Seq<char>>,
        },
        attr_lookup(entry_attrs(e), "ver"@) == e.ver,
        attr_lookup(entry_attrs(e), "rel"@) == e.rel,
{
    lemma_key_facts();
    let oe: Option<Seq<char>> = match e.epoch {
        Some(x) => Some(crate::text::decimal_chars(x as int)),
        None => None,
    };
    let s1 = opt_attr("name"@, Some(e.name));
    let s2 = opt_attr("flags"@, e.flags);
    let s3 = opt_attr("epoch"@, oe);
    let s4 = opt_attr("ver"@, e.ver);
    let s5 = opt_attr("rel"@, e.rel);
    let a = entry_attrs(e);
    assert(a =~= s1 + (s2 + (s3 + (s4 + s5))));
    assert(s5 =~= s5 + Seq::<(Seq<char>, Seq<char>)>::empty());
    assert forall|key: Seq<char>| true implies #[trigger] attr_lookup(a, key) == (if key == "name"@ {
        Some(e.name)
    } else if key == "flags"@ {
        e.flags
    } else if key == "epoch"@ {
        oe
    } else if key == "ver"@ {
        e.ver
    } else if key == "rel"@ {
        e.rel
    } else {
        None
    }) by {
        lemma_attr_lookup_opt("name"@, Some(e.name), s2 + (s3 + (s4 + s5)), key);
        lemma_attr_lookup_opt("flags"@, e.flags, s3 + (s4 + s5), key);
        lemma_attr_lookup_opt("epoch"@, oe, s4 + s5, key);
        lemma_attr_lookup_opt("ver"@, e.ver, s5, key);
        lemma_attr_lookup_opt(
            "rel"@,
            e.rel,
            Seq::<(Seq<char>, Seq<char>)>::empty(),
            key,
        );
    }
}

/// What each key resolves to in a canonical version attribute list.
proof fn lemma_version_attr_lookup(v: crate::repo::VersionView)
    ensures
        attr_lookup(version_attrs(v), "epoch"@) == Some(
            crate::text::decimal_chars(v.epoch as int),
        ),
        attr_lookup(version_attrs(v), "ver"@) == Some(v.ver),
        attr_lookup(version_attrs(v), "rel"@) == Some(v.rel),
{
    lemma_key_facts();
    let d = crate::text::decimal_chars(v.epoch as int);
    let s1 = opt_attr("epoch"@, Some(d));
    let s2 = opt_attr("ver"@, Some(v.ver));
    let s3 = opt_attr("rel"@, Some(v.rel));
    let a = version_attrs(v);
    assert(a =~= s1 + (s2 + (s3 + Seq::<(Seq<char>, Seq<char>)>::empty())));
    lemma_attr_lookup_opt("epoch"@, Some(d), s2 + (s3 + Seq::empty()), "epoch"@);
    lemma_attr_lookup_opt("epoch"@, Some(d), s2 + (s3 + Seq::empty()), "ver"@);
    lemma_attr_lookup_opt("ver"@, Some(v.ver), s3 + Seq::empty(), "ver"@);
    lemma_attr_lookup_opt("epoch"@, Some(d), s2 + (s3 + Seq::empty()), "rel"@);
    lemma_attr_lookup_opt("ver"@, Some(v.ver), s3 + Seq::empty(), "rel"@);
    lemma_attr_lookup_opt("rel"@, Some(v.rel), Seq::empty(), "rel"@);
}

fn find_attr<'a>(attrs: &'a Vec<(Vec<char>, Vec<char>)>, key: &str) -> (r: Option<&'a Vec<char>>)
    ensures
        r is Some <==> attr_lookup(attrs_view(attrs@), key@) is Some,
        r is Some ==> r->Some_0@ == attr_lookup(attrs_view(attrs@), key@)->Some_0,
{
    let ghost av = attrs_view(attrs@);
    proof {
        assert(av.skip(0) =~= av);
    }
    let mut j: usize = 0;
    while j < attrs.len()
        invariant
            0 <= j <= attrs@.len(),
            av == attrs_view(attrs@),
            av.len() == attrs@.len(),
            attr_lookup(av, key@) == attr_lookup(av.skip(j as int), key@),
        decreases attrs@.len() - j,
    {
        proof {
            assert(av.skip(j as int).first() == av[j as int]);
            assert(av.skip(j as int).drop_first() =~= av.skip(j + 1));
        }
        if chars_eq_str(&attrs[j].0, key) {
            return Some(&attrs[j].1);
        }
        j = j + 1;
    }
    proof {
        assert(av.skip(av.len() as int) =~= Seq::<(Seq<char>, Seq<char>)>::empty());
    }
    None
}

fn missing(name: &str) -> (r: ParseError) {
    ParseError::MissingField(String::from_str(name))
}

/// Reads one capability entry out of an `<entry>` tag's attributes:
/// `name` is required, `flags`, `epoch`, `ver` and `rel` optional, and
/// `epoch` must be a decimal `u64`. On a canonical attribute list the
/// result is exactly the entry the list was written from.
fn entry_from_attrs(attrs: &Vec<(Vec<char>, Vec<char>)>, Ghost(ge): Ghost<
    Option<crate::repo::EntryView>,
>) -> (r: Result<RpmEntry, ParseError>)
    requires
        ge is Some ==> attrs_view(attrs@) == entry_attrs(ge->Some_0),
    ensures
        ge is Some ==> r is Ok && r->Ok_0@ == ge->Some_0,
{
    proof {
        if ge is Some {
            lemma_entry_attr_lookup(ge->Some_0);
            if ge->Some_0.epoch is Some {
                crate::text::lemma_decimal_chars_value(ge->Some_0.epoch->Some_0 as int);
            }
        }
    }
    let name = match find_attr(attrs, "name") {
        Some(v) => chars_to_string(v),
        None => {
            return Err(missing("name"));
        },
    };
    let flags = match find_attr(attrs, "flags") {
        Some(v) => Some(chars_to_string(v)),
        None => None,
    };
    let epoch = match find_attr(attrs, "epoch") {
        Some(v) => match parse_u64_chars(v) {
            Some(e) => Some(e),
            None => {
                return Err(ParseError::BadInteger);
            },
        },
        None => None,
    };
    let ver = match find_attr(attrs, "ver") {
        Some(v) => Some(chars_to_string(v)),
        None => None,
    };
    let rel = match find_attr(attrs, "rel") {
        Some(v) => Some(chars_to_string(v)),
        None => None,
    };
    Ok(RpmEntry { name, flags, epoch, ver, rel })
}

/// Reads a `<version>` tag's attributes: `epoch`, `ver` and `rel` are all
/// required and `epoch` must be a decimal `u64`. On a canonical attribute
/// list the result is exactly the version the list was written from.
fn version_from_attrs(attrs: &Vec<(Vec<char>, Vec<char>)>, Ghost(gv): Ghost<
    Option<crate::repo::VersionView>,
>) -> (r: Result<Version, ParseError>)
    requires
        gv is Some ==> attrs_view(attrs@) == version_attrs(gv->Some_0),
    ensures
        gv is Some ==> r is Ok && r->Ok_0@ == gv->Some_0,
{
    proof {
        if gv is Some {
            lemma_version_attr_lookup(gv->Some_0);
            crate::text::lemma_decimal_chars_value(gv->Some_0.epoch as int);
        }
    }
    let epoch = match find_attr(attrs, "epoch") {
        Some(v) => match parse_u64_chars(v) {
            Some(e) => e,
            None => {
                return Err(ParseError::BadInteger);
            },
        },
        None => {
            return Err(missing("epoch"));
        },
    };
    let ver = match find_attr(attrs, "ver") {
        Some(v) => chars_to_string(v),
        None => {
            return Err(missing("ver"));
        },
    };
    let rel = match find_attr(attrs, "rel") {
        Some(v) => chars_to_string(v),
        None => {
            return Err(missing("rel"));
        },
    };
    Ok(Version { epoch, ver, rel })
}

/// The shape of a canonical attribute-less open tag `<n>`.
pub open spec fn open_shape(n: Seq<char>) -> TagShape {
    TagShape { closing: false, name: n, attrs: Seq::empty(), self_closing: false }
}

/// The shape of a canonical close tag `</n>`.
pub open spec fn close_shape(n: Seq<char>) -> TagShape {
    TagShape { closing: true, name: n, attrs: Seq::empty(), self_closing: false }
}

/// The shape of one serialized `<rpm:entry .../>` tag.
pub open spec fn entry_shape(e: crate::repo::EntryView) -> TagShape {
    TagShape { closing: false, name: "rpm:entry"@, attrs: entry_attrs(e), self_closing: true }
}

/// The shape of one serialized `<version .../>` tag.
pub open spec fn version_shape(v: crate::repo::VersionView) -> TagShape {
    TagShape { closing: false, name: "version"@, attrs: version_attrs(v), self_closing: true }
}

/// The shape of the serialized `<package type="rpm">` open tag.
pub open spec fn pkg_open_shape() -> TagShape {
    TagShape {
        closing: false,
        name: "package"@,
        attrs: seq![("type"@, "rpm"@)],
        self_closing: false,
    }
}

proof fn lemma_wf_attrs_concat(a: Seq<(Seq<char>, Seq<char>)>, b: Seq<(Seq<char>, Seq<char>)>)
    requires
        wf_attrs(a),
        wf_attrs(b),
    ensures
        wf_attrs(a + b),
{
    assert forall|k: int| 0 <= k < (a + b).len() implies {
        &&& (#[trigger] (a + b)[k]).0.len() > 0
        &&& all_name_chars((a + b)[k].0)
        &&& no_char((a + b)[k].1, '"')
    } by {
        if k < a.len() {
            assert((a + b)[k] == a[k]);
        } else {
            assert((a + b)[k] == b[k - a.len()]);
        }
    }
}

proof fn lemma_attrs_text_concat(a: Seq<(Seq<char>, Seq<char>)>, b: Seq<(Seq<char>, Seq<char>)>)
    ensures
        attrs_text(a + b) == attrs_text(a) + attrs_text(b),
    decreases a.len(),
{
    if a.len() == 0 {
        assert(a + b =~= b);
        assert(attrs_text(a) + attrs_text(b) =~= attrs_text(b));
    } else {
        assert((a + b).first() == a.first());
        assert((a + b).drop_first() =~= a.drop_first() + b);
        lemma_attrs_text_concat(a.drop_first(), b);
        assert(attrs_text(a + b) =~= attrs_text(a) + attrs_text(b));
    }
}

proof fn lemma_attrs_text_opt(k: Seq<char>, v: Option<Seq<char>>)
    ensures
        attrs_text(opt_attr(k, v)) == spec_xml_opt(" "@ + k + "=\""@, v),
{
    match v {
        None => {
        },
        Some(x) => {
            let a = opt_attr(k, v);
            assert(a.len() == 1);
            assert(a.first() == (k, x));
            assert(a.drop_first() =~= Seq::<(Seq<char>, Seq<char>)>::empty());
            assert(attrs_text(Seq::<(Seq<char>, Seq<char>)>::empty()) =~= Seq::<char>::empty());
            assert(attrs_text(a) =~= attr_text((k, x)));
            assert(attr_text((k, x)) =~= (" "@ + k + "=\""@) + x + "\""@);
        },
    }
}

/// An attribute-less open tag's canonical text.
proof fn lemma_open_tag_text(n: Seq<char>)
    requires
        n.len() > 0,
        all_name_chars(n),
    ensures
        wf_tag_shape(open_shape(n)),
        tag_text(open_shape(n)) == "<"@ + n + ">"@,
{
    assert(tag_text(open_shape(n)) =~= "<"@ + n + ">"@);
}

/// A close tag's canonical text.
proof fn lemma_close_tag_text(n: Seq<char>)
    requires
        n.len() > 0,
        all_name_chars(n),
    ensures
        wf_tag_shape(close_shape(n)),
        tag_text(close_shape(n)) == "</"@ + n + ">"@,
{
    reveal_strlit("</");
    lemma_lit_facts();
    assert(tag_text(close_shape(n)) =~= "</"@ + n + ">"@);
}

/// The names of the canonical elements: their characters, lengths and
/// local parts, and the distinctions the element dispatch relies on.
proof fn lemma_name_facts()
    ensures
        all_name_chars("metadata"@) && ("metadata"@).len() == 8 && local_of("metadata"@)
            == "metadata"@,
        all_name_chars("package"@) && ("package"@).len() == 7 && local_of("package"@)
            == "package"@,
        all_name_chars("name"@) && ("name"@).len() == 4 && local_of("name"@) == "name"@,
        all_name_chars("version"@) && ("version"@).len() == 7 && local_of("version"@)
            == "version"@,
        all_name_chars("format"@) && ("format"@).len() == 6 && local_of("format"@) == "format"@,
        all_name_chars("rpm:entry"@) && ("rpm:entry"@).len() == 9 && local_of("rpm:entry"@)
            == "entry"@,
        all_name_chars("rpm:provides"@) && ("rpm:provides"@).len() == 12 && local_of(
            "rpm:provides"@,
        ) == "provides"@,
        all_name_chars("rpm:requires"@) && ("rpm:requires"@).len() == 12 && local_of(
            "rpm:requires"@,
        ) == "requires"@,
        all_name_chars("rpm:conflicts"@) && ("rpm:conflicts"@).len() == 13 && local_of(
            "rpm:conflicts"@,
        ) == "conflicts"@,
        all_name_chars("rpm:obsoletes"@) && ("rpm:obsoletes"@).len() == 13 && local_of(
            "rpm:obsoletes"@,
        ) == "obsoletes"@,
        ("entry"@).len() == 5,
        ("provides"@).len() == 8 && ("requires"@).len() == 8 && ("conflicts"@).len() == 9 && (
        "obsoletes"@).len() == 9,
        "provides"@ != "requires"@,
        "conflicts"@ != "obsoletes"@,
{
    reveal_strlit("metadata");
    reveal_strlit("package");
    reveal_strlit("name");
    reveal_strlit("version");
    reveal_strlit("format");
    reveal_strlit("rpm");
    reveal_strlit(":");
    reveal_strlit("entry");
    reveal_strlit("provides");
    reveal_strlit("requires");
    reveal_strlit("conflicts");
    reveal_strlit("obsoletes");
    reveal_strlit("rpm:entry");
    reveal_strlit("rpm:provides");
    reveal_strlit("rpm:requires");
    reveal_strlit("rpm:conflicts");
    reveal_strlit("rpm:obsoletes");
    assert(("provides"@)[0] == 'p' && ("requires"@)[0] == 'r');
    assert(("conflicts"@)[0] == 'c' && ("obsoletes"@)[0] == 'o');
    lemma_local_of_no_colon("metadata"@);
    lemma_local_of_no_colon("package"@);
    lemma_local_of_no_colon("name"@);
    lemma_local_of_no_colon("version"@);
    lemma_local_of_no_colon("format"@);
    assert("rpm:entry"@ =~= "rpm"@ + ":"@ + "entry"@);
    lemma_local_of_prefixed("rpm"@, "entry"@);
    assert("rpm:provides"@ =~= "rpm"@ + ":"@ + "provides"@);
    lemma_local_of_prefixed("rpm"@, "provides"@);
    assert("rpm:requires"@ =~= "rpm"@ + ":"@ + "requires"@);
    lemma_local_of_prefixed("rpm"@, "requires"@);
    assert("rpm:conflicts"@ =~= "rpm"@ + ":"@ + "conflicts"@);
    lemma_local_of_prefixed("rpm"@, "conflicts"@);
    assert("rpm:obsoletes"@ =~= "rpm"@ + ":"@ + "obsoletes"@);
    lemma_local_of_prefixed("rpm"@, "obsoletes"@);
}

/// The local part of a name with one namespace prefix.
proof fn lemma_local_of_prefixed(pre: Seq<char>, b: Seq<char>)
    requires
        no_char(b, ':'),
    ensures
        local_of(pre + ":"@ + b) == b,
    decreases b.len(),
{
    reveal_strlit(":");
    let x = pre + ":"@ + b;
    if b.len() == 0 {
        assert(x =~= pre + ":"@);
        assert(x.last() == ':');
        assert(local_of(x) =~= b);
    } else {
        assert(x.last() == b.last());
        assert(b.last() != ':');
        assert(x.drop_last() =~= pre + ":"@ + b.drop_last());
        assert forall|j: int| 0 <= j < b.drop_last().len() implies #[trigger] b.drop_last()[j]
            != ':' by {
            assert(b.drop_last()[j] == b[j]);
        }
        lemma_local_of_prefixed(pre, b.drop_last());
        assert(b.drop_last().push(b.last()) =~= b);
    }
}

/// The canonical text of one entry record is exactly one well-formed
/// self-closing tag.
#[verifier::rlimit(100)]
proof fn lemma_entry_tag_text(e: crate::repo::EntryView)
    requires
        wf_entry(e),
    ensures
        wf_tag_shape(entry_shape(e)),
        tag_text(entry_shape(e)) == spec_xml_entry(e),
{
    lemma_lit_facts();
    lemma_key_facts();
    lemma_name_facts();
    reveal_strlit("name");
    reveal_strlit("flags");
    reveal_strlit("epoch");
    reveal_strlit("ver");
    reveal_strlit("rel");
    reveal_strlit("rpm:entry");
    reveal_strlit("<rpm:entry name=\"");
    reveal_strlit(" flags=\"");
    reveal_strlit(" epoch=\"");
    reveal_strlit(" ver=\"");
    reveal_strlit(" rel=\"");
    let oe: Option<Seq<char>> = match e.epoch {
        Some(x) => Some(crate::text::decimal_chars(x as int)),
        None => None,
    };
    if e.epoch is Some {
        crate::text::lemma_decimal_chars_value(e.epoch->Some_0 as int);
        crate::text::lemma_digits_benign(oe->Some_0);
    }
    let s1 = opt_attr("name"@, Some(e.name));
    let s2 = opt_attr("flags"@, e.flags);
    let s3 = opt_attr("epoch"@, oe);
    let s4 = opt_attr("ver"@, e.ver);
    let s5 = opt_attr("rel"@, e.rel);
    assert(wf_attrs(s1) && wf_attrs(s2) && wf_attrs(s3) && wf_attrs(s4) && wf_attrs(s5));
    lemma_wf_attrs_concat(s1, s2);
    lemma_wf_attrs_concat(s1 + s2, s3);
    lemma_wf_attrs_concat(s1 + s2 + s3, s4);
    lemma_wf_attrs_concat(s1 + s2 + s3 + s4, s5);
    lemma_attrs_text_concat(s1, s2);
    lemma_attrs_text_concat(s1 + s2, s3);
    lemma_attrs_text_concat(s1 + s2 + s3, s4);
    lemma_attrs_text_concat(s1 + s2 + s3 + s4, s5);
    lemma_attrs_text_opt("name"@, Some(e.name));
    lemma_attrs_text_opt("flags"@, e.flags);
    lemma_attrs_text_opt("epoch"@, oe);
    lemma_attrs_text_opt("ver"@, e.ver);
    lemma_attrs_text_opt("rel"@, e.rel);
    assert(" flags=\""@ =~= " "@ + "flags"@ + "=\""@);
    assert(" epoch=\""@ =~= " "@ + "epoch"@ + "=\""@);
    assert(" ver=\""@ =~= " "@ + "ver"@ + "=\""@);
    assert(" rel=\""@ =~= " "@ + "rel"@ + "=\""@);
    assert(spec_xml_opt(" "@ + "flags"@ + "=\""@, e.flags) == spec_xml_opt(" flags=\""@, e.flags));
    assert(spec_xml_opt(" "@ + "epoch"@ + "=\""@, oe) == spec_xml_opt(" epoch=\""@, oe));
    assert(spec_xml_opt(" "@ + "ver"@ + "=\""@, e.ver) == spec_xml_opt(" ver=\""@, e.ver));
    assert(spec_xml_opt(" "@ + "rel"@ + "=\""@, e.rel) == spec_xml_opt(" rel=\""@, e.rel));
    assert("<rpm:entry name=\""@ =~= "<"@ + "rpm:entry"@ + (" "@ + "name"@ + "=\""@));
    assert(attrs_text(s1) =~= (" "@ + "name"@ + "=\""@) + e.name + "\""@);
    assert(tag_text(entry_shape(e)) =~= "<"@ + "rpm:entry"@ + (attrs_text(s1) + (attrs_text(s2)
        + (attrs_text(s3) + (attrs_text(s4) + attrs_text(s5))))) + "/>"@);
    assert(spec_xml_entry(e) =~= "<"@ + "rpm:entry"@ + (attrs_text(s1) + (attrs_text(s2)
        + (attrs_text(s3) + (attrs_text(s4) + attrs_text(s5))))) + "/>"@);
}

/// The canonical text of one version record is exactly one well-formed
/// self-closing tag.
#[verifier::rlimit(100)]
proof fn lemma_version_tag_text(v: crate::repo::VersionView)
    requires
        no_char(v.ver, '"'),
        no_char(v.rel, '"'),
    ensures
        wf_tag_shape(version_shape(v)),
        tag_text(version_shape(v)) == "<version epoch=\""@ + crate::text::decimal_chars(
            v.epoch as int,
        ) + "\" ver=\""@ + v.ver + "\" rel=\""@ + v.rel + "\"/>"@,
{
    lemma_lit_facts();
    lemma_key_facts();
    lemma_name_facts();
    reveal_strlit("version");
    reveal_strlit("epoch");
    reveal_strlit("ver");
    reveal_strlit("rel");
    reveal_strlit("<version epoch=\"");
    reveal_strlit("\" ver=\"");
    reveal_strlit("\" rel=\"");
    reveal_strlit("\"/>");
    let d = crate::text::decimal_chars(v.epoch as int);
    crate::text::lemma_decimal_chars_value(v.epoch as int);
    crate::text::lemma_digits_benign(d);
    let s1 = opt_attr("epoch"@, Some(d));
    let s2 = opt_attr("ver"@, Some(v.ver));
    let s3 = opt_attr("rel"@, Some(v.rel));
    assert(wf_attrs(s1) && wf_attrs(s2) && wf_attrs(s3));
    lemma_wf_attrs_concat(s1, s2);
    lemma_wf_attrs_concat(s1 + s2, s3);
    lemma_attrs_text_concat(s1, s2);
    lemma_attrs_text_concat(s1 + s2, s3);
    lemma_attrs_text_opt("epoch"@, Some(d));
    lemma_attrs_text_opt("ver"@, Some(v.ver));
    lemma_attrs_text_opt("rel"@, Some(v.rel));
    assert("<version epoch=\""@ =~= "<"@ + "version"@ + (" "@ + "epoch"@ + "=\""@));
    assert("\" ver=\""@ =~= "\""@ + (" "@ + "ver"@ + "=\""@));
    assert("\" rel=\""@ =~= "\""@ + (" "@ + "rel"@ + "=\""@));
    assert("\"/>"@ =~= "\""@ + "/>"@);
    assert(tag_text(version_shape(v)) =~= "<version epoch=\""@ + d + "\" ver=\""@ + v.ver
        + "\" rel=\""@ + v.rel + "\"/>"@);
}

/// The serialized package open tag is exactly one well-formed tag.
proof fn lemma_pkg_open_text()
    ensures
        wf_tag_shape(pkg_open_shape()),
        tag_text(pkg_open_shape()) == "<package type=\"rpm\">"@,
{
    lemma_lit_facts();
    lemma_key_facts();
    lemma_name_facts();
    reveal_strlit("package");
    reveal_strlit("type");
    reveal_strlit("<package type=\"rpm\">");
    reveal_strlit("rpm");
    let a = pkg_open_shape().attrs;
    assert(a.first() == ("type"@, "rpm"@));
    assert(a.drop_first() =~= Seq::<(Seq<char>, Seq<char>)>::empty());
    assert(attrs_text(Seq::<(Seq<char>, Seq<char>)>::empty()) =~= Seq::<char>::empty());
    assert(attrs_text(a) =~= attr_text(("type"@, "rpm"@)));
    assert(wf_attrs(a));
    assert(tag_text(pkg_open_shape()) =~= "<package type=\"rpm\">"@);
}

/// Entry lists serialize front first.
proof fn lemma_xml_entries_first(es: Seq<crate::repo::EntryView>)
    requires
        es.len() > 0,
    ensures
        spec_xml_entries(es) == spec_xml_entry(es.first()) + spec_xml_entries(es.drop_first()),
    decreases es.len(),
{
    if es.len() == 1 {
        assert(es.drop_last() =~= Seq::<crate::repo::EntryView>::empty());
        assert(es.drop_first() =~= Seq::<crate::repo::EntryView>::empty());
        assert(es.first() == es.last());
        assert(spec_xml_entries(es) =~= spec_xml_entry(es.first()) + spec_xml_entries(
            es.drop_first(),
        ));
    } else {
        lemma_xml_entries_first(es.drop_last());
        assert(es.drop_last().first() == es.first());
        assert(es.drop_last().drop_first() =~= es.drop_first().drop_last());
        assert(es.drop_first().last() == es.last());
        assert(spec_xml_entries(es) =~= spec_xml_entry(es.first()) + spec_xml_entries(
            es.drop_first(),
        ));
    }
}

/// Package lists serialize front first.
#[verifier::rlimit(100)]
proof fn lemma_xml_packages_first(ps: Seq<crate::repo::PackageView>)
    requires
        ps.len() > 0,
    ensures
        spec_xml_packages(ps) == spec_xml_package(ps.first()) + spec_xml_packages(ps.drop_first()),
    decreases ps.len(),
{
    if ps.len() == 1 {
        assert(ps.drop_last() =~= Seq::<crate::repo::PackageView>::empty());
        assert(ps.drop_first() =~= Seq::<crate::repo::PackageView>::empty());
        assert(ps.first() == ps.last());
        assert(spec_xml_packages(ps) =~= spec_xml_package(ps.first()) + spec_xml_packages(
            ps.drop_first(),
        ));
    } else {
        lemma_xml_packages_first(ps.drop_last());
        assert(ps.drop_last().first() == ps.first());
        assert(ps.drop_last().drop_first() =~= ps.drop_first().drop_last());
        assert(ps.drop_first().last() == ps.last());
        assert(spec_xml_packages(ps) =~= spec_xml_package(ps.first()) + spec_xml_packages(
            ps.drop_first(),
        ));
    }
}

/// The canonical text of a format's four optional relation lists.
pub open spec fn sections_text(f: crate::repo::FormatView) -> Seq<char> {
    spec_xml_section("<rpm:provides>"@, "</rpm:provides>"@, f.provides) + spec_xml_section(
        "<rpm:requires>"@,
        "</rpm:requires>"@,
        f.requires,
    ) + spec_xml_section("<rpm:conflicts>"@, "</rpm:conflicts>"@, f.conflicts) + spec_xml_section(
        "<rpm:obsoletes>"@,
        "</rpm:obsoletes>"@,
        f.obsoletes,
    )
}

/// The canonical text of a package element after its open tag.
pub open spec fn package_body_text(p: crate::repo::PackageView) -> Seq<char> {
    "<name>"@ + (p.name + ("</name>"@ + (tag_text(version_shape(p.version)) + ("<format>"@
        + (sections_text(p.format) + ("</format>"@ + "</package>"@))))))
}

/// The framing literals of the canonical grammar, decomposed into the
/// tags the scanner reads.
proof fn lemma_frame_lits()
    ensures
        "<metadata>"@ == "<"@ + "metadata"@ + ">"@,
        "</metadata>"@ == "</"@ + "metadata"@ + ">"@,
        "<name>"@ == "<"@ + "name"@ + ">"@,
        "</name>"@ == "</"@ + "name"@ + ">"@,
        "<format>"@ == "<"@ + "format"@ + ">"@,
        "</format>"@ == "</"@ + "format"@ + ">"@,
        "</package>"@ == "</"@ + "package"@ + ">"@,
        "<rpm:provides>"@ == "<"@ + "rpm:provides"@ + ">"@,
        "</rpm:provides>"@ == "</"@ + "rpm:provides"@ + ">"@,
        "<rpm:requires>"@ == "<"@ + "rpm:requires"@ + ">"@,
        "</rpm:requires>"@ == "</"@ + "rpm:requires"@ + ">"@,
        "<rpm:conflicts>"@ == "<"@ + "rpm:conflicts"@ + ">"@,
        "</rpm:conflicts>"@ == "</"@ + "rpm:conflicts"@ + ">"@,
        "<rpm:obsoletes>"@ == "<"@ + "rpm:obsoletes"@ + ">"@,
        "</rpm:obsoletes>"@ == "</"@ + "rpm:obsoletes"@ + ">"@,
        "</format></package>"@ == "</format>"@ + "</package>"@,
{
    lemma_lit_facts();
    reveal_strlit("</");
    reveal_strlit("metadata");
    reveal_strlit("package");
    reveal_strlit("name");
    reveal_strlit("format");
    reveal_strlit("rpm:provides");
    reveal_strlit("rpm:requires");
    reveal_strlit("rpm:conflicts");
    reveal_strlit("rpm:obsoletes");
    reveal_strlit("<metadata>");
    reveal_strlit("</metadata>");
    reveal_strlit("<name>");
    reveal_strlit("</name>");
    reveal_strlit("<format>");
    reveal_strlit("</format>");
    reveal_strlit("</package>");
    reveal_strlit("<rpm:provides>");
    reveal_strlit("</rpm:provides>");
    reveal_strlit("<rpm:requires>");
    reveal_strlit("</rpm:requires>");
    reveal_strlit("<rpm:conflicts>");
    reveal_strlit("</rpm:conflicts>");
    reveal_strlit("<rpm:obsoletes>");
    reveal_strlit("</rpm:obsoletes>");
    reveal_strlit("</format></package>");
    assert("<metadata>"@ =~= "<"@ + "metadata"@ + ">"@);
    assert("</metadata>"@ =~= "</"@ + "metadata"@ + ">"@);
    assert("<name>"@ =~= "<"@ + "name"@ + ">"@);
    assert("</name>"@ =~= "</"@ + "name"@ + ">"@);
    assert("<format>"@ =~= "<"@ + "format"@ + ">"@);
    assert("</format>"@ =~= "</"@ + "format"@ + ">"@);
    assert("</package>"@ =~= "</"@ + "package"@ + ">"@);
    assert("<rpm:provides>"@ =~= "<"@ + "rpm:provides"@ + ">"@);
    assert("</rpm:provides>"@ =~= "</"@ + "rpm:provides"@ + ">"@);
    assert("<rpm:requires>"@ =~= "<"@ + "rpm:requires"@ + ">"@);
    assert("</rpm:requires>"@ =~= "</"@ + "rpm:requires"@ + ">"@);
    assert("<rpm:conflicts>"@ =~= "<"@ + "rpm:conflicts"@ + ">"@);
    assert("</rpm:conflicts>"@ =~= "</"@ + "rpm:conflicts"@ + ">"@);
    assert("<rpm:obsoletes>"@ =~= "<"@ + "rpm:obsoletes"@ + ">"@);
    assert("</rpm:obsoletes>"@ =~= "</"@ + "rpm:obsoletes"@ + ">"@);
    assert("</format></package>"@ =~= "</format>"@ + "</package>"@);
}

/// The head of a package element, decomposed into the tags the scanner
/// reads.
#[verifier::rlimit(100)]
proof fn lemma_package_head_decomp(p: crate::repo::PackageView)
    requires
        wf_package(p),
    ensures
        spec_xml_package_head(p) == "<package type=\"rpm\">"@ + ("<name>"@ + (p.name + ("</name>"@
            + (tag_text(version_shape(p.version)) + "<format>"@)))),
{
    lemma_version_tag_text(p.version);
    reveal_strlit("<package type=\"rpm\"><name>");
    reveal_strlit("<package type=\"rpm\">");
    reveal_strlit("<name>");
    reveal_strlit("</name><version epoch=\"");
    reveal_strlit("</name>");
    reveal_strlit("<version epoch=\"");
    reveal_strlit("\"/><format>");
    reveal_strlit("\"/>");
    reveal_strlit("<format>");
    assert("<package type=\"rpm\"><name>"@ =~= "<package type=\"rpm\">"@ + "<name>"@);
    assert("</name><version epoch=\""@ =~= "</name>"@ + "<version epoch=\""@);
    assert("\"/><format>"@ =~= "\"/>"@ + "<format>"@);
    let vt = tag_text(version_shape(p.version));
    assert(spec_xml_package_head(p) =~= "<package type=\"rpm\">"@ + ("<name>"@ + (p.name
        + ("</name>"@ + (vt + "<format>"@)))));
}

/// A package element's canonical text, regrouped behind its head.
#[verifier::rlimit(100)]
proof fn lemma_package_text_step(p: crate::repo::PackageView)
    requires
        wf_package(p),
    ensures
        spec_xml_package(p) == spec_xml_package_head(p) + (sections_text(p.format) + ("</format>"@
            + "</package>"@)),
{
    lemma_frame_lits();
    assert(spec_xml_package(p) =~= spec_xml_package_head(p) + (sections_text(p.format)
        + ("</format>"@ + "</package>"@)));
}

/// A package element's canonical text is its open tag followed by its
/// body text.
#[verifier::rlimit(100)]
proof fn lemma_package_text(p: crate::repo::PackageView)
    requires
        wf_package(p),
    ensures
        spec_xml_package(p) == tag_text(pkg_open_shape()) + package_body_text(p),
{
    lemma_pkg_open_text();
    lemma_package_head_decomp(p);
    lemma_package_text_step(p);
    let vt = tag_text(version_shape(p.version));
    let st = sections_text(p.format);
    assert(("<package type=\"rpm\">"@ + ("<name>"@ + (p.name + ("</name>"@ + (vt
        + "<format>"@))))) + (st + ("</format>"@ + "</package>"@)) =~= "<package type=\"rpm\">"@
        + package_body_text(p));
}

/// The first two characters of a canonical tag, as the miscellany
/// skipper tests them.
proof fn lemma_tag_at_misc(s: Seq<char>, pos: int, t: TagShape)
    requires
        wf_tag_shape(t),
        text_at(s, pos, tag_text(t)),
    ensures
        pos + 1 < s.len(),
        s[pos] == '<',
        s[pos + 1] != '?',
        s[pos + 1] != '!',
{
    lemma_lit_facts();
    let sl: Seq<char> = if t.closing {
        "/"@
    } else {
        Seq::empty()
    };
    let head = "<"@ + sl;
    let closer: Seq<char> = if t.self_closing {
        "/>"@
    } else {
        ">"@
    };
    assert(tag_text(t) =~= head + (t.name + (attrs_text(t.attrs) + closer)));
    lemma_text_at_split(s, pos, head, t.name + (attrs_text(t.attrs) + closer));
    lemma_text_at_index(s, pos, head, 0);
    if t.closing {
        lemma_text_at_index(s, pos, head, 1);
    } else {
        lemma_text_at_split(s, pos + head.len(), t.name, attrs_text(t.attrs) + closer);
        lemma_text_at_index(s, pos + 1, t.name, 0);
        assert(is_name_char(s[pos + 1]));
    }
}

/// The view of an optional owned entry list.
pub open spec fn opt_entries_view(o: Option<Entries>) -> Option<Seq<crate::repo::EntryView>> {
    match o {
        Some(e) => Some(e@),
        None => None,
    }
}

/// Reads the `<entry>` children of one relation list element, through
/// the close tag bearing the list's local name. On the canonical text of
/// an entry list the result is exactly that list.
#[verifier::loop_isolation(false)]
#[verifier::rlimit(100)]
fn parse_entries(s: &Vec<char>, pos: usize, list_name: &Vec<char>, Ghost(gsec): Ghost<
    Option<(Seq<crate::repo::EntryView>, Seq<char>)>,
>) -> (r: Result<(Entries, usize), ParseError>)
    requires
        pos <= s@.len(),
        gsec is Some ==> {
            let (es, cname) = gsec->Some_0;
            &&& wf_entries(es)
            &&& cname.len() > 0
            &&& all_name_chars(cname)
            &&& local_of(cname) == list_name@
            &&& text_at(s@, pos as int, spec_xml_entries(es) + tag_text(close_shape(cname)))
        },
    ensures
        r is Ok ==> pos < r->Ok_0.1 <= s@.len(),
        gsec is Some ==> {
            let (es, cname) = gsec->Some_0;
            &&& r is Ok
            &&& r->Ok_0.0@ == es
            &&& r->Ok_0.1 == pos + spec_xml_entries(es).len() + tag_text(close_shape(cname)).len()
        },
{
    let ghost canon = gsec is Some;
    let ghost es = gsec->Some_0.0;
    let ghost cname = gsec->Some_0.1;
    let ghost ct = tag_text(close_shape(cname));
    let mut entries: Vec<RpmEntry> = Vec::new();
    let mut i: usize = pos;
    let ghost mut m: int = 0;
    proof {
        if canon {
            assert(es.skip(0) =~= es);
            assert(crate::repo::rpm_entries_view(entries@) =~= es.take(0));
        }
    }
    loop
        invariant
            pos <= i <= s@.len(),
            canon ==> {
                &&& 0 <= m <= es.len()
                &&& crate::repo::rpm_entries_view(entries@) == es.take(m)
                &&& text_at(s@, i as int, spec_xml_entries(es.skip(m)) + ct)
                &&& i == pos + spec_xml_entries(es).len() - spec_xml_entries(es.skip(m)).len()
            },
        decreases s@.len() - i,
    {
        let ghost p0 = i as int;
        let ghost nt: TagShape = if m < es.len() {
            entry_shape(es[m])
        } else {
            close_shape(cname)
        };
        proof {
            if canon {
                lemma_name_facts();
                if m < es.len() {
                    lemma_xml_entries_first(es.skip(m));
                    assert(es.skip(m).first() == es[m]);
                    assert(es.skip(m).drop_first() =~= es.skip(m + 1));
                    lemma_entry_tag_text(es[m]);
                    assert(spec_xml_entries(es.skip(m)) + ct =~= tag_text(entry_shape(es[m]))
                        + (spec_xml_entries(es.skip(m + 1)) + ct));
                    lemma_text_at_split(
                        s@,
                        p0,
                        tag_text(entry_shape(es[m])),
                        spec_xml_entries(es.skip(m + 1)) + ct,
                    );
                } else {
                    assert(es.skip(m) =~= Seq::<crate::repo::EntryView>::empty());
                    assert(spec_xml_entries(es.skip(m)) + ct =~= ct);
                    lemma_close_tag_text(cname);
                }
                lemma_tag_at_misc(s@, p0, nt);
            }
        }
        let j = skip_misc(s, i)?;
        proof {
            if canon {
                assert(j == i);
            }
        }
        let (tag, j2) = parse_tag(
            s,
            j,
            Ghost(
                if canon {
                    Some(nt)
                } else {
                    None
                },
            ),
        )?;
        i = j2;
        let local = local_name(&tag.name);
        proof {
            if canon {
                lemma_name_facts();
                if m < es.len() {
                    assert(local@ == "entry"@);
                } else {
                    assert(local@ == list_name@);
                }
            }
        }
        if tag.closing {
            if !chars_eq(&local, list_name) {
                proof {
                    if canon {
                        assert(false);
                    }
                }
                return Err(ParseError::MalformedXml);
            }
            proof {
                if canon {
                    assert(m == es.len());
                    assert(es.take(m) =~= es);
                }
            }
            return Ok((Entries { entries }, i));
        }
        if chars_eq_str(&local, "entry") {
            let entry = entry_from_attrs(
                &tag.attrs,
                Ghost(
                    if canon {
                        Some(es[m])
                    } else {
                        None
                    },
                ),
            )?;
            entries.push(entry);
            proof {
                if canon {
                    assert(es.take(m + 1) =~= es.take(m).push(es[m]));
                    assert(crate::repo::rpm_entries_view(entries@) =~= es.take(m + 1));
                    m = m + 1;
                }
            }
        } else {
            proof {
                if canon {
                    assert(false);
                }
            }
        }
        if !tag.self_closing {
            proof {
                if canon {
                    assert(false);
                }
            }
            i = skip_element(s, i)?;
        }
    }
}

/// One present section peels off the front of a format's canonical text.
#[verifier::rlimit(100)]
proof fn lemma_sections_step(
    rem: crate::repo::FormatView,
    rem2: crate::repo::FormatView,
    which: int,
    sname: Seq<char>,
    ses: Seq<crate::repo::EntryView>,
)
    requires
        0 <= which <= 3,
        which == 0 ==> rem.provides == Some(ses) && sname == "rpm:provides"@ && rem2
            == (crate::repo::FormatView {
            provides: None,
            requires: rem.requires,
            conflicts: rem.conflicts,
            obsoletes: rem.obsoletes,
        }),
        which == 1 ==> rem.provides is None && rem.requires == Some(ses) && sname
            == "rpm:requires"@ && rem2 == (crate::repo::FormatView {
            provides: rem.provides,
            requires: None,
            conflicts: rem.conflicts,
            obsoletes: rem.obsoletes,
        }),
        which == 2 ==> rem.provides is None && rem.requires is None && rem.conflicts == Some(ses)
            && sname == "rpm:conflicts"@ && rem2 == (crate::repo::FormatView {
            provides: rem.provides,
            requires: rem.requires,
            conflicts: None,
            obsoletes: rem.obsoletes,
        }),
        which == 3 ==> rem.provides is None && rem.requires is None && rem.conflicts is None
            && rem.obsoletes == Some(ses) && sname == "rpm:obsoletes"@ && rem2
            == (crate::repo::FormatView {
            provides: rem.provides,
            requires: rem.requires,
            conflicts: rem.conflicts,
            obsoletes: None,
        }),
    ensures
        all_name_chars(sname) && sname.len() > 0,
        sections_text(rem) + "</format>"@ == tag_text(open_shape(sname)) + ((spec_xml_entries(ses)
            + tag_text(close_shape(sname))) + (sections_text(rem2) + "</format>"@)),
{
    lemma_name_facts();
    lemma_frame_lits();
    lemma_open_tag_text(sname);
    lemma_close_tag_text(sname);
    if which == 0 {
        assert(sections_text(rem) + "</format>"@ =~= tag_text(open_shape(sname))
            + ((spec_xml_entries(ses) + tag_text(close_shape(sname))) + (sections_text(rem2)
            + "</format>"@)));
    } else if which == 1 {
        assert(sections_text(rem) + "</format>"@ =~= tag_text(open_shape(sname))
            + ((spec_xml_entries(ses) + tag_text(close_shape(sname))) + (sections_text(rem2)
            + "</format>"@)));
    } else if which == 2 {
        assert(sections_text(rem) + "</format>"@ =~= tag_text(open_shape(sname))
            + ((spec_xml_entries(ses) + tag_text(close_shape(sname))) + (sections_text(rem2)
            + "</format>"@)));
    } else {
        assert(sections_text(rem) + "</format>"@ =~= tag_text(open_shape(sname))
            + ((spec_xml_entries(ses) + tag_text(close_shape(sname))) + (sections_text(rem2)
            + "</format>"@)));
    }
}

/// Reads a `<format>` element: its four known relation lists, skipping
/// anything else. On the canonical text of a format's sections the
/// result is exactly that format.
#[verifier::loop_isolation(false)]
#[verifier::rlimit(100)]
fn parse_format(s: &Vec<char>, pos: usize, Ghost(gf): Ghost<
    Option<crate::repo::FormatView>,
>) -> (r: Result<(Format, usize), ParseError>)
    requires
        pos <= s@.len(),
        gf is Some ==> {
            let f = gf->Some_0;
            &&& opt_wf_entries(f.provides)
            &&& opt_wf_entries(f.requires)
            &&& opt_wf_entries(f.conflicts)
            &&& opt_wf_entries(f.obsoletes)
            &&& text_at(s@, pos as int, sections_text(f) + "</format>"@)
        },
    ensures
        r is Ok ==> pos < r->Ok_0.1 <= s@.len(),
        gf is Some ==> {
            let f = gf->Some_0;
            &&& r is Ok
            &&& r->Ok_0.0@ == f
            &&& r->Ok_0.1 == pos + sections_text(f).len() + ("</format>"@).len()
        },
{
    let ghost canon = gf is Some;
    let ghost f = gf->Some_0;
    let mut provides: Option<Entries> = None;
    let mut requires_list: Option<Entries> = None;
    let mut conflicts: Option<Entries> = None;
    let mut obsoletes: Option<Entries> = None;
    let mut i: usize = pos;
    let ghost mut rem: crate::repo::FormatView = f;
    loop
        invariant
            pos <= i <= s@.len(),
            canon ==> {
                &&& (rem.provides is Some ==> rem.provides == f.provides && rem.requires
                    == f.requires && rem.conflicts == f.conflicts && rem.obsoletes == f.obsoletes)
                &&& (rem.requires is Some ==> rem.requires == f.requires && rem.conflicts
                    == f.conflicts && rem.obsoletes == f.obsoletes)
                &&& (rem.conflicts is Some ==> rem.conflicts == f.conflicts && rem.obsoletes
                    == f.obsoletes)
                &&& (rem.obsoletes is Some ==> rem.obsoletes == f.obsoletes)
                &&& opt_entries_view(provides) == (if rem.provides is Some {
                    None
                } else {
                    f.provides
                })
                &&& opt_entries_view(requires_list) == (if rem.requires is Some {
                    None
                } else {
                    f.requires
                })
                &&& opt_entries_view(conflicts) == (if rem.conflicts is Some {
                    None
                } else {
                    f.conflicts
                })
                &&& opt_entries_view(obsoletes) == (if rem.obsoletes is Some {
                    None
                } else {
                    f.obsoletes
                })
                &&& text_at(s@, i as int, sections_text(rem) + "</format>"@)
                &&& i == pos + sections_text(f).len() - sections_text(rem).len()
            },
        decreases s@.len() - i,
    {
        let ghost p0 = i as int;
        let ghost which: int = if !canon {
            5
        } else if rem.provides is Some {
            0
        } else if rem.requires is Some {
            1
        } else if rem.conflicts is Some {
            2
        } else if rem.obsoletes is Some {
            3
        } else {
            4
        };
        let ghost sname: Seq<char> = if which == 0 {
            "rpm:provides"@
        } else if which == 1 {
            "rpm:requires"@
        } else if which == 2 {
            "rpm:conflicts"@
        } else {
            "rpm:obsoletes"@
        };
        let ghost ses: Seq<crate::repo::EntryView> = if which == 0 {
            rem.provides->Some_0
        } else if which == 1 {
            rem.requires->Some_0
        } else if which == 2 {
            rem.conflicts->Some_0
        } else {
            rem.obsoletes->Some_0
        };
        let ghost rem2: crate::repo::FormatView = if which == 0 {
            crate::repo::FormatView {
                provides: None,
                requires: rem.requires,
                conflicts: rem.conflicts,
                obsoletes: rem.obsoletes,
            }
        } else if which == 1 {
            crate::repo::FormatView {
                provides: rem.provides,
                requires: None,
                conflicts: rem.conflicts,
                obsoletes: rem.obsoletes,
            }
        } else if which == 2 {
            crate::repo::FormatView {
                provides: rem.provides,
                requires: rem.requires,
                conflicts: None,
                obsoletes: rem.obsoletes,
            }
        } else {
            crate::repo::FormatView {
                provides: rem.provides,
                requires: rem.requires,
                conflicts: rem.conflicts,
                obsoletes: None,
            }
        };
        let ghost nt: TagShape = if which == 4 {
            close_shape("format"@)
        } else {
            open_shape(sname)
        };
        let ghost sct = tag_text(close_shape(sname));
        proof {
            if canon {
                lemma_name_facts();
                lemma_frame_lits();
                if which <= 3 {
                    lemma_open_tag_text(sname);
                    lemma_close_tag_text(sname);
                    lemma_sections_step(rem, rem2, which, sname, ses);
                    lemma_text_at_split(
                        s@,
                        p0,
                        tag_text(open_shape(sname)),
                        (spec_xml_entries(ses) + sct) + (sections_text(rem2) + "</format>"@),
                    );
                    lemma_text_at_split(
                        s@,
                        p0 + tag_text(open_shape(sname)).len(),
                        spec_xml_entries(ses) + sct,
                        sections_text(rem2) + "</format>"@,
                    );
                } else {
                    assert(sections_text(rem) + "</format>"@ =~= "</format>"@);
                    lemma_close_tag_text("format"@);
                    assert(text_at(s@, p0, tag_text(close_shape("format"@))));
                }
                lemma_tag_at_misc(s@, p0, nt);
            }
        }
        let j = skip_misc(s, i)?;
        proof {
            if canon {
                assert(j == i);
            }
        }
        let (tag, j2) = parse_tag(
            s,
            j,
            Ghost(
                if canon {
                    Some(nt)
                } else {
                    None
                },
            ),
        )?;
        i = j2;
        let local = local_name(&tag.name);
        proof {
            if canon {
                lemma_name_facts();
            }
        }
        if tag.closing {
            if !chars_eq_str(&local, "format") {
                proof {
                    if canon {
                        assert(false);
                    }
                }
                return Err(ParseError::MalformedXml);
            }
            proof {
                if canon {
                    assert(which == 4);
                    assert(sections_text(rem).len() == 0);
                }
            }
            return Ok(
                (
                    Format {
                        provides,
                        requires: requires_list,
                        conflicts,
                        obsoletes,
                    },
                    i,
                ),
            );
        }
        let is_provides = chars_eq_str(&local, "provides");
        let is_requires = chars_eq_str(&local, "requires");
        let is_conflicts = chars_eq_str(&local, "conflicts");
        let is_obsoletes = chars_eq_str(&local, "obsoletes");
        if is_provides || is_requires || is_conflicts || is_obsoletes {
            let list = if tag.self_closing {
                proof {
                    if canon {
                        assert(false);
                    }
                }
                Entries { entries: Vec::new() }
            } else {
                let (list, j3) = parse_entries(
                    s,
                    i,
                    &local,
                    Ghost(
                        if canon {
                            Some((ses, sname))
                        } else {
                            None
                        },
                    ),
                )?;
                i = j3;
                list
            };
            if is_provides {
                proof {
                    if canon {
                        assert(which == 0);
                    }
                }
                provides = Some(list);
            } else if is_requires {
                proof {
                    if canon {
                        assert(which == 1);
                    }
                }
                requires_list = Some(list);
            } else if is_conflicts {
                proof {
                    if canon {
                        assert(which == 2);
                    }
                }
                conflicts = Some(list);
            } else {
                proof {
                    if canon {
                        assert(which == 3);
                    }
                }
                obsoletes = Some(list);
            }
            proof {
                if canon {
                    rem = rem2;
                }
            }
        } else {
            proof {
                if canon {
                    assert(false);
                }
            }
            if !tag.self_closing {
                i = skip_element(s, i)?;
            }
        }
    }
}

/// Reads one `<package>` element: `<name>`, `<version/>` and `<format>`
/// are required, anything unknown is skipped. On the canonical body text
/// of a package element the result is exactly that package.
#[verifier::loop_isolation(false)]
#[verifier::rlimit(100)]
fn parse_package(s: &Vec<char>, pos: usize, Ghost(gp): Ghost<
    Option<crate::repo::PackageView>,
>) -> (r: Result<(Package, usize), ParseError>)
    requires
        pos <= s@.len(),
        gp is Some ==> wf_package(gp->Some_0) && text_at(
            s@,
            pos as int,
            package_body_text(gp->Some_0),
        ),
    ensures
        r is Ok ==> pos < r->Ok_0.1 <= s@.len(),
        gp is Some ==> {
            let p = gp->Some_0;
            &&& r is Ok
            &&& r->Ok_0.0@ == p
            &&& r->Ok_0.1 == pos + package_body_text(p).len()
        },
{
    let ghost canon = gp is Some;
    let ghost p = gp->Some_0;
    let ghost vt = tag_text(version_shape(p.version));
    let ghost st = sections_text(p.format);
    let mut name_opt: Option<String> = None;
    let mut version_opt: Option<Version> = None;
    let mut format_opt: Option<Format> = None;
    let mut i: usize = pos;
    let ghost mut stage: int = 0;
    loop
        invariant
            pos <= i <= s@.len(),
            canon ==> {
                &&& 0 <= stage <= 3
                &&& (stage == 0 ==> i == pos && name_opt is None && version_opt is None
                    && format_opt is None && text_at(s@, i as int, package_body_text(p)))
                &&& (stage == 1 ==> name_opt is Some && name_opt->Some_0@ == p.name && version_opt
                    is None && format_opt is None && text_at(
                    s@,
                    i as int,
                    vt + ("<format>"@ + (st + ("</format>"@ + "</package>"@))),
                ) && i + vt.len() + ("<format>"@).len() + st.len() + ("</format>"@).len() + (
                "</package>"@).len() == pos + package_body_text(p).len())
                &&& (stage == 2 ==> name_opt is Some && name_opt->Some_0@ == p.name && version_opt
                    is Some && version_opt->Some_0@ == p.version && format_opt is None && text_at(
                    s@,
                    i as int,
                    "<format>"@ + (st + ("</format>"@ + "</package>"@)),
                ) && i + ("<format>"@).len() + st.len() + ("</format>"@).len() + (
                "</package>"@).len() == pos + package_body_text(p).len())
                &&& (stage == 3 ==> name_opt is Some && name_opt->Some_0@ == p.name && version_opt
                    is Some && version_opt->Some_0@ == p.version && format_opt is Some
                    && format_opt->Some_0@ == p.format && text_at(s@, i as int, "</package>"@) && i
                    + ("</package>"@).len() == pos + package_body_text(p).len())
            },
        decreases s@.len() - i,
    {
        let ghost p0 = i as int;
        let ghost nt: TagShape = if stage == 0 {
            open_shape("name"@)
        } else if stage == 1 {
            version_shape(p.version)
        } else if stage == 2 {
            open_shape("format"@)
        } else {
            close_shape("package"@)
        };
        proof {
            if canon {
                lemma_name_facts();
                lemma_frame_lits();
                if stage == 0 {
                    lemma_open_tag_text("name"@);
                    lemma_close_tag_text("name"@);
                    assert(package_body_text(p) =~= tag_text(open_shape("name"@)) + (p.name
                        + (tag_text(close_shape("name"@)) + (vt + ("<format>"@ + (st
                        + ("</format>"@ + "</package>"@)))))));
                    lemma_text_at_split(
                        s@,
                        p0,
                        tag_text(open_shape("name"@)),
                        p.name + (tag_text(close_shape("name"@)) + (vt + ("<format>"@ + (st
                            + ("</format>"@ + "</package>"@))))),
                    );
                } else if stage == 1 {
                    lemma_version_tag_text(p.version);
                    lemma_text_at_split(
                        s@,
                        p0,
                        vt,
                        "<format>"@ + (st + ("</format>"@ + "</package>"@)),
                    );
                } else if stage == 2 {
                    lemma_open_tag_text("format"@);
                    assert(text_at(
                        s@,
                        p0,
                        tag_text(open_shape("format"@)) + (st + ("</format>"@ + "</package>"@)),
                    ));
                    lemma_text_at_split(
                        s@,
                        p0,
                        tag_text(open_shape("format"@)),
                        st + ("</format>"@ + "</package>"@),
                    );
                } else {
                    lemma_close_tag_text("package"@);
                    assert(text_at(s@, p0, tag_text(close_shape("package"@))));
                }
                lemma_tag_at_misc(s@, p0, nt);
            }
        }
        let j = skip_misc(s, i)?;
        proof {
            if canon {
                assert(j == i);
            }
        }
        let (tag, j2) = parse_tag(
            s,
            j,
            Ghost(
                if canon {
                    Some(nt)
                } else {
                    None
                },
            ),
        )?;
        i = j2;
        let local = local_name(&tag.name);
        proof {
            if canon {
                lemma_name_facts();
            }
        }
        if tag.closing {
            if !chars_eq_str(&local, "package") {
                proof {
                    if canon {
                        assert(false);
                    }
                }
                return Err(ParseError::MalformedXml);
            }
            proof {
                if canon {
                    assert(stage == 3);
                }
            }
            let name = match name_opt {
                Some(n) => n,
                None => {
                    return Err(missing("name"));
                },
            };
            let version = match version_opt {
                Some(v) => v,
                None => {
                    return Err(missing("version"));
                },
            };
            let format = match format_opt {
                Some(f) => f,
                None => {
                    return Err(missing("format"));
                },
            };
            proof {
                if canon {
                    assert(p == crate::repo::PackageView {
                        name: p.name,
                        version: p.version,
                        format: p.format,
                    });
                }
            }
            return Ok((Package { name, version, format }, i));
        }
        if chars_eq_str(&local, "name") {
            proof {
                if canon {
                    assert(stage == 0);
                }
            }
            if tag.self_closing {
                proof {
                    if canon {
                        assert(false);
                    }
                }
                name_opt = Some(String::new());
            } else {
                proof {
                    if canon {
                        lemma_text_at_split(
                            s@,
                            i as int,
                            p.name,
                            tag_text(close_shape("name"@)) + (vt + ("<format>"@ + (st
                                + ("</format>"@ + "</package>"@)))),
                        );
                        assert forall|k: int| i <= k < i + p.name.len() implies #[trigger] s@[k]
                            != '<' by {
                            lemma_text_at_index(s@, i as int, p.name, k - i);
                        }
                        lemma_text_at_split(
                            s@,
                            i + p.name.len(),
                            tag_text(close_shape("name"@)),
                            vt + ("<format>"@ + (st + ("</format>"@ + "</package>"@))),
                        );
                        lemma_tag_at_misc(
                            s@,
                            i + p.name.len(),
                            close_shape("name"@),
                        );
                        lemma_find_from_at(s@, '<', i as int, i + p.name.len());
                    }
                }
                let lt = find_char(s, '<', i);
                if lt >= s.len() {
                    proof {
                        if canon {
                            assert(false);
                        }
                    }
                    return Err(ParseError::MalformedXml);
                }
                let text = copy_range(s, i, lt);
                let (ctag, j3) = parse_tag(
                    s,
                    lt,
                    Ghost(
                        if canon {
                            Some(close_shape("name"@))
                        } else {
                            None
                        },
                    ),
                )?;
                if !ctag.closing || !chars_eq_str(&local_name(&ctag.name), "name") {
                    proof {
                        if canon {
                            assert(false);
                        }
                    }
                    return Err(ParseError::MalformedXml);
                }
                name_opt = Some(chars_to_string(&text));
                i = j3;
                proof {
                    if canon {
                        stage = 1;
                    }
                }
            }
        } else if chars_eq_str(&local, "version") {
            proof {
                if canon {
                    assert(stage == 1);
                }
            }
            let version = version_from_attrs(
                &tag.attrs,
                Ghost(
                    if canon {
                        Some(p.version)
                    } else {
                        None
                    },
                ),
            )?;
            version_opt = Some(version);
            proof {
                if canon {
                    stage = 2;
                }
            }
            if !tag.self_closing {
                proof {
                    if canon {
                        assert(false);
                    }
                }
                i = skip_element(s, i)?;
            }
        } else if chars_eq_str(&local, "format") {
            proof {
                if canon {
                    assert(stage == 2);
                }
            }
            if tag.self_closing {
                proof {
                    if canon {
                        assert(false);
                    }
                }
                format_opt = Some(
                    Format { provides: None, requires: None, conflicts: None, obsoletes: None },
                );
            } else {
                proof {
                    if canon {
                        assert(st + ("</format>"@ + "</package>"@) =~= (st + "</format>"@)
                            + "</package>"@);
                        lemma_text_at_split(s@, i as int, st + "</format>"@, "</package>"@);
                    }
                }
                let (format, j3) = parse_format(
                    s,
                    i,
                    Ghost(
                        if canon {
                            Some(p.format)
                        } else {
                            None
                        },
                    ),
                )?;
                format_opt = Some(format);
                i = j3;
                proof {
                    if canon {
                        stage = 3;
                    }
                }
            }
        } else {
            proof {
                if canon {
                    assert(false);
                }
            }
            if !tag.self_closing {
                i = skip_element(s, i)?;
            }
        }
    }
}

/// The canonical text of one optional entry attribute.
pub open spec fn spec_xml_opt(key_eq: Seq<char>, value: Option<Seq<char>>) -> Seq<char> {
    match value {
        Some(v) => key_eq + v + "\""@,
        None => Seq::empty(),
    }
}

/// The canonical text of one `<entry>` record.
pub open spec fn spec_xml_entry(e: crate::repo::EntryView) -> Seq<char> {
    "<rpm:entry name=\""@ + e.name + "\""@ + spec_xml_opt(" flags=\""@, e.flags) + spec_xml_opt(
        " epoch=\""@,
        match e.epoch {
            Some(x) => Some(crate::text::decimal_chars(x as int)),
            None => None,
        },
    ) + spec_xml_opt(" ver=\""@, e.ver) + spec_xml_opt(" rel=\""@, e.rel) + "/>"@
}

pub open spec fn spec_xml_entries(es: Seq<crate::repo::EntryView>) -> Seq<char>
    decreases es.len(),
{
    if es.len() == 0 {
        Seq::empty()
    } else {
        spec_xml_entries(es.drop_last()) + spec_xml_entry(es.last())
    }
}

/// The canonical text of one relation list, or nothing when absent.
pub open spec fn spec_xml_section(
    open_tag: Seq<char>,
    close_tag: Seq<char>,
    es: Option<Seq<crate::repo::EntryView>>,
) -> Seq<char> {
    match es {
        Some(list) => open_tag + spec_xml_entries(list) + close_tag,
        None => Seq::empty(),
    }
}

/// The canonical text of a `<package>` element up to its `<format>`.
pub open spec fn spec_xml_package_head(p: crate::repo::PackageView) -> Seq<char> {
    "<package type=\"rpm\"><name>"@ + p.name + "</name><version epoch=\""@
        + crate::text::decimal_chars(p.version.epoch as int) + "\" ver=\""@ + p.version.ver
        + "\" rel=\""@ + p.version.rel + "\"/><format>"@
}

/// The canonical text of one `<package>` element.
pub open spec fn spec_xml_package(p: crate::repo::PackageView) -> Seq<char> {
    spec_xml_package_head(p) + spec_xml_section(
        "<rpm:provides>"@,
        "</rpm:provides>"@,
        p.format.provides,
    ) + spec_xml_section("<rpm:requires>"@, "</rpm:requires>"@, p.format.requires)
        + spec_xml_section("<rpm:conflicts>"@, "</rpm:conflicts>"@, p.format.conflicts)
        + spec_xml_section("<rpm:obsoletes>"@, "</rpm:obsoletes>"@, p.format.obsoletes)
        + "</format></package>"@
}

pub open spec fn spec_xml_packages(pkgs: Seq<crate::repo::PackageView>) -> Seq<char>
    decreases pkgs.len(),
{
    if pkgs.len() == 0 {
        Seq::empty()
    } else {
        spec_xml_packages(pkgs.drop_last()) + spec_xml_package(pkgs.last())
    }
}

/// The canonical serialization of a package list.
pub open spec fn spec_to_xml(pkgs: Seq<crate::repo::PackageView>) -> Seq<char> {
    "<metadata>"@ + spec_xml_packages(pkgs) + "</metadata>"@
}

/// The document's open tag and package region, split off the whole text.
#[verifier::rlimit(100)]
proof fn lemma_doc_head(s: Seq<char>, gps: Seq<crate::repo::PackageView>)
    requires
        wf_packages(gps),
        s == spec_to_xml(gps),
    ensures
        wf_tag_shape(open_shape("metadata"@)),
        text_at(s, 0, tag_text(open_shape("metadata"@))),
        text_at(
            s,
            tag_text(open_shape("metadata"@)).len() as int,
            spec_xml_packages(gps) + tag_text(close_shape("metadata"@)),
        ),
{
    lemma_name_facts();
    lemma_frame_lits();
    lemma_open_tag_text("metadata"@);
    lemma_close_tag_text("metadata"@);
    assert(s.subrange(0, spec_to_xml(gps).len() as int) =~= s);
    assert(text_at(s, 0, spec_to_xml(gps)));
    assert(spec_to_xml(gps) =~= tag_text(open_shape("metadata"@)) + (spec_xml_packages(gps)
        + tag_text(close_shape("metadata"@))));
    lemma_text_at_split(
        s,
        0,
        tag_text(open_shape("metadata"@)),
        spec_xml_packages(gps) + tag_text(close_shape("metadata"@)),
    );
}

/// One package element peels off the front of the package region.
#[verifier::rlimit(100)]
proof fn lemma_packages_step(
    s: Seq<char>,
    p0: int,
    gps: Seq<crate::repo::PackageView>,
    m: int,
)
    requires
        wf_packages(gps),
        0 <= m < gps.len(),
        text_at(
            s,
            p0,
            spec_xml_packages(gps.skip(m)) + tag_text(close_shape("metadata"@)),
        ),
    ensures
        wf_tag_shape(pkg_open_shape()),
        text_at(s, p0, tag_text(pkg_open_shape())),
        text_at(
            s,
            p0 + tag_text(pkg_open_shape()).len(),
            package_body_text(gps[m]),
        ),
        text_at(
            s,
            p0 + tag_text(pkg_open_shape()).len() + package_body_text(gps[m]).len(),
            spec_xml_packages(gps.skip(m + 1)) + tag_text(close_shape("metadata"@)),
        ),
{
    let mct = tag_text(close_shape("metadata"@));
    lemma_xml_packages_first(gps.skip(m));
    assert(gps.skip(m).first() == gps[m]);
    assert(gps.skip(m).drop_first() =~= gps.skip(m + 1));
    lemma_package_text(gps[m]);
    lemma_pkg_open_text();
    assert(spec_xml_packages(gps.skip(m)) + mct =~= tag_text(pkg_open_shape())
        + (package_body_text(gps[m]) + (spec_xml_packages(gps.skip(m + 1)) + mct)));
    lemma_text_at_split(
        s,
        p0,
        tag_text(pkg_open_shape()),
        package_body_text(gps[m]) + (spec_xml_packages(gps.skip(m + 1)) + mct),
    );
    lemma_text_at_split(
        s,
        p0 + tag_text(pkg_open_shape()).len(),
        package_body_text(gps[m]),
        spec_xml_packages(gps.skip(m + 1)) + mct,
    );
}

/// The character facts of the canonical empty document
/// `<metadata></metadata>`, as the tag scanner's contract needs them.
proof fn lemma_canonical_empty_chars(s: Seq<char>)
    requires
        s == spec_to_xml(Seq::<crate::repo::PackageView>::empty()),
    ensures
        s.len() == 21,
        s[0] == '<',
        s[1] != '?' && s[1] != '!',
        name_run_end(s, 1) == 9,
        s.subrange(1, 9) == "metadata"@,
        s[9] == '>',
        s[10] == '<',
        s[11] == '/',
        s[11] != '?' && s[11] != '!',
        name_run_end(s, 12) == 20,
        s.subrange(12, 20) == "metadata"@,
        s[20] == '>',
        local_of("metadata"@) == "metadata"@,
{
    reveal_strlit("<metadata>");
    reveal_strlit("</metadata>");
    reveal_strlit("metadata");
    assert(spec_xml_packages(Seq::<crate::repo::PackageView>::empty()) =~= Seq::<char>::empty());
    assert(s =~= "<metadata>"@ + "</metadata>"@);
    assert forall|j: int| 1 <= j < 9 implies is_name_char(#[trigger] s[j]) by {
        assert(s[j] == ("<metadata>"@)[j]);
    }
    lemma_name_run_end_at(s, 1, 9);
    assert(s.subrange(1, 9) =~= "metadata"@);
    assert forall|j: int| 12 <= j < 20 implies is_name_char(#[trigger] s[j]) by {
        assert(s[j] == ("</metadata>"@)[j - 10]);
    }
    lemma_name_run_end_at(s, 12, 20);
    assert(s.subrange(12, 20) =~= "metadata"@);
    assert(forall|j: int| 0 <= j < ("metadata"@).len() ==> #[trigger] ("metadata"@)[j] != ':');
    lemma_local_of_no_colon("metadata"@);
}

/// The character facts of the self-closing empty document `<metadata/>`.
proof fn lemma_canonical_sc_chars(s: Seq<char>)
    requires
        s == "<metadata/>"@,
    ensures
        s.len() == 11,
        s[0] == '<',
        s[1] != '?' && s[1] != '!',
        name_run_end(s, 1) == 9,
        s.subrange(1, 9) == "metadata"@,
        s[9] == '/',
        s[10] == '>',
        local_of("metadata"@) == "metadata"@,
{
    reveal_strlit("<metadata/>");
    reveal_strlit("metadata");
    assert forall|j: int| 1 <= j < 9 implies is_name_char(#[trigger] s[j]) by {
        assert(s[j] == ("<metadata/>"@)[j]);
    }
    lemma_name_run_end_at(s, 1, 9);
    assert(s.subrange(1, 9) =~= "metadata"@);
    assert(forall|j: int| 0 <= j < ("metadata"@).len() ==> #[trigger] ("metadata"@)[j] != ':');
    lemma_local_of_no_colon("metadata"@);
}

/// Reads a whole `primary.xml` document: a `<metadata>` root holding
/// `<package>` elements, in document order. Besides well-formedness of
/// what it builds, the contract pins the result on the base canonical
/// inputs: the empty text is rejected, and both serializations of the
/// empty package list parse back to the empty list.
#[verifier::loop_isolation(false)]
#[verifier::rlimit(100)]
pub fn parse_document(s: &Vec<char>) -> (r: Result<Vec<Package>, ParseError>)
    ensures
        s@.len() == 0 ==> r is Err,
        (exists|ps: Seq<crate::repo::PackageView>| wf_packages(ps) && s@ == spec_to_xml(ps)) ==> (r
            is Ok && wf_packages(crate::repo::packages_view(r->Ok_0@)) && s@ == spec_to_xml(
            crate::repo::packages_view(r->Ok_0@),
        )),
        s@ == "<metadata/>"@ ==> (r is Ok && r->Ok_0@ == Seq::<Package>::empty()),
        s@ == spec_to_xml(Seq::<crate::repo::PackageView>::empty()) ==> (r is Ok && r->Ok_0@
            == Seq::<Package>::empty()),
{
    let ghost canon_sc = s@ == "<metadata/>"@;
    let ghost canon_empty = s@ == spec_to_xml(Seq::<crate::repo::PackageView>::empty());
    proof {
        if canon_sc {
            lemma_canonical_sc_chars(s@);
        }
        if canon_empty {
            lemma_canonical_empty_chars(s@);
        }
    }
    let ghost has = exists|ps: Seq<crate::repo::PackageView>|
        wf_packages(ps) && s@ == spec_to_xml(ps);
    let ghost gps: Seq<crate::repo::PackageView> = if has {
        choose|ps: Seq<crate::repo::PackageView>| wf_packages(ps) && s@ == spec_to_xml(ps)
    } else {
        Seq::empty()
    };
    let ghost mct = tag_text(close_shape("metadata"@));
    proof {
        if has {
            lemma_doc_head(s@, gps);
            lemma_tag_at_misc(s@, 0, open_shape("metadata"@));
        }
    }
    let mut packages: Vec<Package> = Vec::new();
    let start = skip_misc(s, 0)?;
    proof {
        if has {
            assert(start == 0);
        }
    }
    let (root, mut i) = parse_tag(
        s,
        start,
        Ghost(
            if has {
                Some(open_shape("metadata"@))
            } else {
                None
            },
        ),
    )?;
    let root_local = local_name(&root.name);
    proof {
        if has {
            lemma_name_facts();
        }
    }
    if root.closing || !chars_eq_str(&root_local, "metadata") {
        proof {
            if has {
                assert(false);
            }
        }
        return Err(ParseError::MalformedXml);
    }
    if root.self_closing {
        proof {
            if has {
                assert(false);
            }
            assert(packages@ =~= Seq::<Package>::empty());
        }
        return Ok(packages);
    }
    let ghost mut m: int = 0;
    proof {
        if has {
            assert(gps.skip(0) =~= gps);
            assert(crate::repo::packages_view(packages@) =~= gps.take(0));
        }
    }
    loop
        invariant
            i <= s@.len(),
            canon_empty ==> i == 10 && packages@.len() == 0,
            has ==> {
                &&& 0 <= m <= gps.len()
                &&& crate::repo::packages_view(packages@) == gps.take(m)
                &&& text_at(s@, i as int, spec_xml_packages(gps.skip(m)) + mct)
            },
        decreases s@.len() - i,
    {
        let ghost p0 = i as int;
        let ghost nt: TagShape = if m < gps.len() {
            pkg_open_shape()
        } else {
            close_shape("metadata"@)
        };
        proof {
            if has {
                lemma_name_facts();
                lemma_frame_lits();
                lemma_close_tag_text("metadata"@);
                if m < gps.len() {
                    lemma_packages_step(s@, p0, gps, m);
                    lemma_pkg_open_text();
                } else {
                    assert(gps.skip(m) =~= Seq::<crate::repo::PackageView>::empty());
                    assert(spec_xml_packages(gps.skip(m)) + mct =~= mct);
                    assert(text_at(s@, p0, mct));
                }
                lemma_tag_at_misc(s@, p0, nt);
            }
        }
        let j = skip_misc(s, i)?;
        proof {
            if has {
                assert(j == i);
            }
        }
        let (tag, j2) = parse_tag(
            s,
            j,
            Ghost(
                if has {
                    Some(nt)
                } else {
                    None
                },
            ),
        )?;
        i = j2;
        let local = local_name(&tag.name);
        proof {
            if has {
                lemma_name_facts();
            }
        }
        if tag.closing {
            if !chars_eq_str(&local, "metadata") {
                proof {
                    if has {
                        assert(false);
                    }
                }
                return Err(ParseError::MalformedXml);
            }
            proof {
                if canon_empty {
                    assert(packages@ =~= Seq::<Package>::empty());
                }
                if has {
                    assert(m == gps.len());
                    assert(gps.take(m) =~= gps);
                }
            }
            return Ok(packages);
        }
        if chars_eq_str(&local, "package") {
            proof {
                if has {
                    assert(m < gps.len());
                }
            }
            if tag.self_closing {
                proof {
                    if has {
                        assert(false);
                    }
                }
                return Err(missing("name"));
            }
            let (package, j3) = parse_package(
                s,
                i,
                Ghost(
                    if has {
                        Some(gps[m])
                    } else {
                        None
                    },
                ),
            )?;
            packages.push(package);
            i = j3;
            proof {
                if has {
                    assert(gps.take(m + 1) =~= gps.take(m).push(gps[m]));
                    assert(crate::repo::packages_view(packages@) =~= gps.take(m + 1));
                    m = m + 1;
                }
            }
        } else {
            proof {
                if has {
                    assert(false);
                }
            }
            if !tag.self_closing {
                i = skip_element(s, i)?;
            }
        }
    }
}

} // verus!
