//! Inline XML elements (`<tag>text</tag>` on one line) and their text.
use vstd::prelude::*;

use crate::entities::{entity_ref, EntityTable};
use crate::text::{chars_of, contains_char, matches_at, substring};

verus! {

broadcast use vstd::string::group_string_axioms;

/// `<tag>`.
pub open spec fn open_tag(tag: Seq<char>) -> Seq<char> {
    seq!['<'] + tag + seq!['>']
}

/// `</tag>`.
pub open spec fn close_tag(tag: Seq<char>) -> Seq<char> {
    seq!['<', '/'] + tag + seq!['>']
}

/// `<tag>text</tag>`.
pub open spec fn element(tag: Seq<char>, text: Seq<char>) -> Seq<char> {
    open_tag(tag) + text + close_tag(tag)
}

/// Whether `line` is `<tag>`, some text, then `</tag>`.
pub open spec fn is_element(line: Seq<char>, tag: Seq<char>) -> bool {
    &&& open_tag(tag).len() + close_tag(tag).len() <= line.len()
    &&& open_tag(tag).is_prefix_of(line)
    &&& line.skip(line.len() - close_tag(tag).len()) == close_tag(tag)
}

/// The text between `<tag>` and `</tag>`.
pub open spec fn element_text(line: Seq<char>, tag: Seq<char>) -> Seq<char> {
    line.subrange(open_tag(tag).len() as int, line.len() - close_tag(tag).len())
}

/// A character that UTF-8 writes in one byte.
pub open spec fn is_ascii_char(c: char) -> bool {
    (c as u32) < 128
}

/// Whether `strip_xml` can take `line` apart: it is an element of `tag`, and
/// where the line holds an `&`, the text has at least two characters and
/// its first and last are ASCII (the text without them is cut by byte).
pub open spec fn strippable(line: Seq<char>, tag: Seq<char>) -> bool {
    let text = element_text(line, tag);
    &&& is_element(line, tag)
    &&& line.contains('&') ==> {
        &&& text.len() >= 2
        &&& is_ascii_char(text[0])
        &&& is_ascii_char(text.last())
    }
}

/// The value of an inline element: its text, or, where the line holds an
/// `&` and the text without its first and last characters names an entity,
/// that entity's value.
pub open spec fn element_value(
    line: Seq<char>,
    tag: Seq<char>,
    entities: Map<Seq<char>, Seq<char>>,
) -> Seq<char> {
    let text = element_text(line, tag);
    let name = text.subrange(1, text.len() - 1);
    if line.contains('&') && entities.contains_key(name) {
        entities[name]
    } else {
        text
    }
}

/// `<tag>` as characters.
fn open_tag_chars(t: &Vec<char>) -> (o: Vec<char>)
    ensures
        o@ == open_tag(t@),
{
    let mut o = vec!['<'];
    let mut k: usize = 0;
    while k < t.len()
        invariant
            k <= t@.len(),
            o@ == seq!['<'] + t@.take(k as int),
        decreases t@.len() - k,
    {
        o.push(t[k]);
        assert(t@.take(k + 1) =~= t@.take(k as int).push(t@[k as int]));
        k = k + 1;
    }
    o.push('>');
    assert(t@.take(t@.len() as int) =~= t@);
    o
}

/// `</tag>` as characters.
fn close_tag_chars(t: &Vec<char>) -> (c: Vec<char>)
    ensures
        c@ == close_tag(t@),
{
    let mut c = vec!['<', '/'];
    let mut k: usize = 0;
    while k < t.len()
        invariant
            k <= t@.len(),
            c@ == seq!['<', '/'] + t@.take(k as int),
        decreases t@.len() - k,
    {
        c.push(t[k]);
        assert(t@.take(k + 1) =~= t@.take(k as int).push(t@[k as int]));
        k = k + 1;
    }
    c.push('>');
    assert(t@.take(t@.len() as int) =~= t@);
    c
}

/// Whether `strip_xml(line, tag, ..)` is defined (see `strippable`).
pub fn can_strip_xml(line: &str, tag: &str) -> (b: bool)
    ensures
        b == strippable(line@, tag@),
{
    let v = chars_of(line);
    let t = chars_of(tag);
    let o = open_tag_chars(&t);
    let c = close_tag_chars(&t);
    let n = v.len();
    if o.len() > n || c.len() > n - o.len() {
        return false;
    }
    if !matches_at(&v, 0, &o) {
        return false;
    }
    let at = n - c.len();
    if !matches_at(&v, at, &c) {
        assert(v@.subrange(at as int, n as int) =~= v@.skip(at as int));
        return false;
    }
    assert(v@.subrange(at as int, n as int) =~= v@.skip(at as int));
    assert(v@.subrange(0, o@.len() as int) == o@);
    if !contains_char(&v, '&') {
        return true;
    }
    let lo = o.len();
    if at - lo < 2 {
        return false;
    }
    let first = v[lo];
    let last = v[at - 1];
    (first as u32) < 128 && (last as u32) < 128
}

/// Strips the tags from an inline element `<tag>text</tag>` and gives its
/// value, expanding the text where it names an entity (such as `&n;`).
pub fn strip_xml(line: &str, tag: &str, map: &EntityTable) -> (r: String)
    requires
        strippable(line@, tag@),
    ensures
        r@ == element_value(line@, tag@, map@),
{
    let v = chars_of(line);
    let tl = tag.unicode_len();
    let n = v.len();
    let lo = tl + 2;
    let hi = n - (tl + 3);
    let val = substring(line, lo, hi);
    if contains_char(&v, '&') {
        let key = substring(line, lo + 1, hi - 1);
        assert(key@ =~= val@.subrange(1, val@.len() - 1));
        match map.get(key.as_str()) {
            Some(value) => value.clone(),
            None => val,
        }
    } else {
        val
    }
}

// ---------------------------------------------------------------------------
// Laws
// ---------------------------------------------------------------------------

proof fn lemma_element_parts(tag: Seq<char>, text: Seq<char>)
    ensures
        is_element(element(tag, text), tag),
        element_text(element(tag, text), tag) == text,
{
    let line = element(tag, text);
    let o = open_tag(tag);
    let c = close_tag(tag);
    assert(line.subrange(0, o.len() as int) =~= o);
    assert(line.skip(line.len() - c.len()) =~= c);
    assert(line.subrange(o.len() as int, line.len() - c.len()) =~= text);
}

/// Stripping an element written without `&` gives back its text.
pub proof fn law_strip_element(tag: Seq<char>, text: Seq<char>, m: Map<Seq<char>, Seq<char>>)
    requires
        !tag.contains('&'),
        !text.contains('&'),
    ensures
        strippable(element(tag, text), tag),
        element_value(element(tag, text), tag, m) == text,
{
    lemma_element_parts(tag, text);
    let line = element(tag, text);
    if line.contains('&') {
        let i = choose|i: int| 0 <= i < line.len() && line[i] == '&';
        let ol = open_tag(tag).len();
        if i == 0 || i == ol - 1 || i == line.len() - 1 || i == line.len() - close_tag(tag).len()
            || i == line.len() - close_tag(tag).len() + 1 {
        } else if i < ol {
            assert(tag[i - 1] == line[i]);
        } else if i < ol + text.len() {
            assert(text[i - ol] == line[i]);
        } else {
            assert(tag[i - ol - text.len() - 2] == line[i]);
        }
    }
}

/// Stripping an element whose text is a reference `&name;` to a defined
/// entity gives that entity's value; to an undefined one, the reference.
pub proof fn law_strip_entity_ref(tag: Seq<char>, name: Seq<char>, m: Map<Seq<char>, Seq<char>>)
    ensures
        strippable(element(tag, entity_ref(name)), tag),
        element_value(element(tag, entity_ref(name)), tag, m) == if m.contains_key(name) {
            m[name]
        } else {
            entity_ref(name)
        },
{
    let text = entity_ref(name);
    lemma_element_parts(tag, text);
    let line = element(tag, text);
    assert(line[open_tag(tag).len() as int] == '&');
    assert(text.subrange(1, text.len() - 1) =~= name);
    assert(('&' as u32) < 128);
    assert((';' as u32) < 128);
}

/// Any element whose text has at least two characters, the first and last
/// of them ASCII, can be stripped, whatever else the text holds (such as an
/// escaped `&amp;`). Its value is the text itself unless the line holds an
/// `&` and the text without its first and last characters names an entity;
/// where the text holds an `&` and so names an entity, the value is that
/// entity's value.
pub proof fn law_strip_any_text(tag: Seq<char>, text: Seq<char>, m: Map<Seq<char>, Seq<char>>)
    requires
        text.len() >= 2,
        is_ascii_char(text[0]),
        is_ascii_char(text.last()),
    ensures
        strippable(element(tag, text), tag),
        !m.contains_key(text.subrange(1, text.len() - 1)) ==> element_value(element(tag, text), tag, m)
            == text,
        text.contains('&') && m.contains_key(text.subrange(1, text.len() - 1)) ==> element_value(
            element(tag, text),
            tag,
            m,
        ) == m[text.subrange(1, text.len() - 1)],
{
    lemma_element_parts(tag, text);
    let line = element(tag, text);
    if text.contains('&') {
        let k = choose|k: int| 0 <= k < text.len() && text[k] == '&';
        assert(line[open_tag(tag).len() + k] == '&');
    }
}

/// An element is its opening tag `<tag>`, its text and its closing tag
/// `</tag>`, character for character.
pub proof fn law_element_text(tag: Seq<char>, text: Seq<char>)
    ensures
        element(tag, text) == seq!['<'] + tag + seq!['>'] + text + seq!['<', '/'] + tag + seq!['>'],
        element_text(element(tag, text), tag) == text,
        is_element(element(tag, text), tag),
{
    lemma_element_parts(tag, text);
    assert(element(tag, text) =~= seq!['<'] + tag + seq!['>'] + text + seq!['<', '/'] + tag + seq!['>']);
}

} // verus!
