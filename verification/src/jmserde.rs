//! The pared-down dictionary model that a whole-document XML parse fills, and
//! the preprocessing that expands a file's entities so that such a parse
//! can read it.
use vstd::prelude::*;

use crate::entities::{collect_entities, distinct_names, entity_ref, header, EntityTable, MalformedEntity};
use crate::text::{
    chars_of, contains_char, law_replace_single, law_replace_without_first_char, replace_all, replaced,
    views,
};
use crate::xml::{close_tag, element, open_tag};

verus! {

broadcast use vstd::string::group_string_axioms;

/// A whole dictionary: its entries in file order.
#[derive(Debug)]
pub struct JMdict {
    pub entry: Vec<Entry>,
}

/// One entry: its sequence number, readings and senses.
#[derive(Debug)]
pub struct Entry {
    pub ent_seq: i32,
    pub r_ele: Vec<Reading>,
    pub sense: Vec<Sense>,
}

/// A reading element.
#[derive(Debug)]
pub struct Reading {
    pub reb: String,
}

/// A sense: parts of speech, an optional cross-reference and glosses.
#[derive(Debug)]
pub struct Sense {
    pub pos: Vec<String>,
    pub x_ref: Option<String>,
    pub gloss: Vec<String>,
}

/// `s` after each definition in turn has had its references replaced by its
/// value.
pub open spec fn replace_each(s: Seq<char>, defs: Seq<(Seq<char>, Seq<char>)>) -> Seq<char>
    decreases defs.len(),
{
    if defs.len() == 0 {
        s
    } else {
        replace_each(replaced(s, entity_ref(defs[0].0), defs[0].1), defs.drop_first())
    }
}

/// A line with its entity references expanded: a line without `&` stays as
/// it is; otherwise every definition is applied in table order.
pub open spec fn expanded(line: Seq<char>, defs: Seq<(Seq<char>, Seq<char>)>) -> Seq<char> {
    if line.contains('&') {
        replace_each(line, defs)
    } else {
        line
    }
}

/// Expands the entity references (`&name;`) of one line by the values in
/// `table`, taking the definitions in table order (the order in which names
/// were first defined).
pub fn expand_entities(line: &str, table: &EntityTable) -> (r: String)
    ensures
        r@ == expanded(line@, table.pairs()),
{
    let v = chars_of(line);
    if !contains_char(&v, '&') {
        return String::from_str(line);
    }
    let ghost defs = table.pairs();
    let n = table.len();
    let mut cur = String::from_str(line);
    let mut k: usize = 0;
    assert(defs.skip(0) =~= defs);
    while k < n
        invariant
            k <= n,
            n == defs.len(),
            defs == table.pairs(),
            replace_each(line@, defs) == replace_each(cur@, defs.skip(k as int)),
        decreases n - k,
    {
        let (name, value) = table.def_at(k);
        let mut pat = String::from_str("&");
        pat.append(name.as_str());
        pat.append(";");
        proof {
            reveal_strlit("&");
            reveal_strlit(";");
            assert(pat@ =~= entity_ref(defs[k as int].0));
            assert(defs.skip(k as int).drop_first() =~= defs.skip(k + 1));
        }
        cur = replace_all(cur.as_str(), pat.as_str(), value.as_str());
        k = k + 1;
    }
    cur
}

/// The lines of a file after preprocessing: `<JMdict>` and then each line
/// after the head with its entities expanded.
pub open spec fn preprocessed(lines: Seq<Seq<char>>) -> Result<Seq<Seq<char>>, int> {
    match header(lines) {
        Err(i) => Err(i),
        Ok((defs, b)) => Ok(
            seq!["<JMdict>"@] + lines.skip(b).map_values(|l: Seq<char>| expanded(l, defs)),
        ),
    }
}

/// Preprocesses the lines of a JMdict file: reads the entity definitions at
/// its head and gives `<JMdict>` followed by the rest of the lines with
/// their entity references expanded.
pub fn preprocess_lines(lines: &Vec<String>) -> (r: Result<Vec<String>, MalformedEntity>)
    ensures
        match r {
            Ok(out) => preprocessed(views(lines@)) == Ok::<Seq<Seq<char>>, int>(views(out@)),
            Err(e) => preprocessed(views(lines@)) == Err::<Seq<Seq<char>>, int>(e.line as int),
        },
{
    let ghost ls = views(lines@);
    match collect_entities(lines) {
        Err(e) => Err(e),
        Ok((table, b)) => {
            let ghost defs = table.pairs();
            let mut out: Vec<String> = Vec::new();
            out.push(String::from_str("<JMdict>"));
            let n = lines.len();
            proof {
                assert(b <= n) by {
                    lemma_header_bound(ls, 0, Seq::empty());
                }
            }
            let mut i = b;
            while i < n
                invariant
                    b <= i <= n,
                    n == lines@.len(),
                    ls == views(lines@),
                    defs == table.pairs(),
                    views(out@) == seq!["<JMdict>"@] + ls.subrange(b as int, i as int).map_values(
                        |l: Seq<char>| expanded(l, defs),
                    ),
                decreases n - i,
            {
                let x = expand_entities(lines[i].as_str(), &table);
                let ghost before = out@;
                out.push(x);
                assert(views(out@) =~= views(before).push(x@));
                assert(ls.subrange(b as int, i + 1) =~= ls.subrange(b as int, i as int).push(
                    ls[i as int],
                ));
                assert(views(out@) =~= seq!["<JMdict>"@] + ls.subrange(b as int, i + 1).map_values(
                    |l: Seq<char>| expanded(l, defs),
                ));
                i = i + 1;
            }
            assert(ls.subrange(b as int, n as int) =~= ls.skip(b as int));
            Ok(out)
        },
    }
}

/// The scan of the head stops at or before the end of the lines.
proof fn lemma_header_bound(lines: Seq<Seq<char>>, i: int, p: Seq<(Seq<char>, Seq<char>)>)
    ensures
        crate::entities::header_from(lines, i, p) matches Ok((_, b)) ==> 0 <= b <= lines.len(),
    decreases lines.len() - i,
{
    if 0 <= i < lines.len() {
        lemma_header_bound(lines, i + 1, p);
        match crate::entities::entity_def(lines[i]) {
            Some((name, value)) => {
                lemma_header_bound(lines, i + 1, crate::entities::pairs_insert(p, name, value));
            },
            None => {},
        }
    }
}

// ---------------------------------------------------------------------------
// Laws
// ---------------------------------------------------------------------------

proof fn lemma_replaced_other(a: Seq<char>, q: Seq<char>, b: Seq<char>, p: Seq<char>, r: Seq<char>)
    requires
        p.len() > 0,
        p[0] == '&',
        q.len() > 0,
        q[0] == '&',
        !q.drop_first().contains('&'),
        !a.contains('&'),
        !b.contains('&'),
        !p.is_prefix_of(q + b),
    ensures
        replaced(a + q + b, p, r) == a + q + b,
    decreases a.len(),
{
    let s = a + q + b;
    if s.len() >= p.len() {
        if a.len() == 0 {
            assert(s =~= q + b);
            assert(s.take(p.len() as int) != p) by {
                if s.take(p.len() as int) == p {
                    assert(p =~= (q + b).subrange(0, p.len() as int));
                }
            }
            let t = q.drop_first() + b;
            assert(s.drop_first() =~= t);
            assert(!t.contains('&')) by {
                if t.contains('&') {
                    let k = choose|k: int| 0 <= k < t.len() && t[k] == '&';
                    if k < q.drop_first().len() {
                        assert(q.drop_first()[k] == '&');
                    } else {
                        assert(b[k - q.drop_first().len()] == '&');
                    }
                }
            }
            law_replace_without_first_char(t, p, r);
            assert(seq![s[0]] + t =~= s);
        } else {
            assert(s[0] == a[0]);
            assert(a[0] != '&');
            assert(s.take(p.len() as int)[0] == a[0]);
            assert(!a.drop_first().contains('&')) by {
                if a.drop_first().contains('&') {
                    let k = choose|k: int| 0 <= k < a.drop_first().len() && a.drop_first()[k] == '&';
                    assert(a[k + 1] == '&');
                }
            }
            assert(s.drop_first() =~= a.drop_first() + q + b);
            lemma_replaced_other(a.drop_first(), q, b, p, r);
            assert(seq![a[0]] + (a.drop_first() + q + b) =~= s);
        }
    }
}

proof fn lemma_replace_each_no_amp(s: Seq<char>, defs: Seq<(Seq<char>, Seq<char>)>)
    requires
        !s.contains('&'),
    ensures
        replace_each(s, defs) == s,
    decreases defs.len(),
{
    if defs.len() > 0 {
        law_replace_without_first_char(s, entity_ref(defs[0].0), defs[0].1);
        lemma_replace_each_no_amp(s, defs.drop_first());
    }
}

/// A reference to a name is not the start of a reference to another name
/// followed by more text, where no name holds `;`.
proof fn lemma_ref_not_prefix(o: Seq<char>, name: Seq<char>, b: Seq<char>)
    requires
        o != name,
        !o.contains(';'),
        !name.contains(';'),
    ensures
        !entity_ref(o).is_prefix_of(entity_ref(name) + b),
{
    let p = entity_ref(o);
    let t = entity_ref(name) + b;
    if p.is_prefix_of(t) {
        let lo = o.len() as int;
        let ln = name.len() as int;
        assert(t.subrange(0, p.len() as int) == p);
        if lo < ln {
            assert(p[lo + 1] == ';');
            assert(t[lo + 1] == name[lo]);
        } else if lo == ln {
            assert forall|k: int| 0 <= k < lo implies o[k] == name[k] by {
                assert(p[k + 1] == o[k]);
                assert(t[k + 1] == name[k]);
            }
            assert(o =~= name);
        } else {
            assert(p[ln + 1] == o[ln]);
            assert(t[ln + 1] == ';');
        }
    }
}

proof fn lemma_no_amp_parts(tag: Seq<char>, v: Seq<char>)
    requires
        !tag.contains('&'),
        !v.contains('&'),
    ensures
        !open_tag(tag).contains('&'),
        !close_tag(tag).contains('&'),
        !element(tag, v).contains('&'),
{
    let o = open_tag(tag);
    let c = close_tag(tag);
    let e = element(tag, v);
    if o.contains('&') {
        let k = choose|k: int| 0 <= k < o.len() && o[k] == '&';
        assert(tag[k - 1] == '&');
    }
    if c.contains('&') {
        let k = choose|k: int| 0 <= k < c.len() && c[k] == '&';
        assert(tag[k - 2] == '&');
    }
    if e.contains('&') {
        let k = choose|k: int| 0 <= k < e.len() && e[k] == '&';
        if k < o.len() {
            assert(o[k] == '&');
        } else if k < o.len() + v.len() {
            assert(v[k - o.len()] == '&');
        } else {
            assert(c[k - o.len() - v.len()] == '&');
        }
    }
}

proof fn lemma_expand_defined(
    defs: Seq<(Seq<char>, Seq<char>)>,
    i: int,
    tag: Seq<char>,
    name: Seq<char>,
    v: Seq<char>,
)
    requires
        distinct_names(defs),
        0 <= i < defs.len(),
        defs[i] == (name, v),
        forall|k: int| 0 <= k < defs.len() ==> !(#[trigger] defs[k]).0.contains(';'),
        !name.contains('&'),
        !v.contains('&'),
        !tag.contains('&'),
    ensures
        replace_each(element(tag, entity_ref(name)), defs) == element(tag, v),
    decreases defs.len(),
{
    let a = open_tag(tag);
    let b = close_tag(tag);
    let q = entity_ref(name);
    lemma_no_amp_parts(tag, v);
    assert(element(tag, entity_ref(name)) == a + q + b);
    assert(q.drop_first() =~= name + seq![';']);
    assert(!q.drop_first().contains('&')) by {
        if q.drop_first().contains('&') {
            let k = choose|k: int| 0 <= k < q.drop_first().len() && q.drop_first()[k] == '&';
            if k < name.len() {
                assert(name[k] == '&');
            }
        }
    }
    let rest = defs.drop_first();
    if i == 0 {
        assert(!a.contains(q[0]) && !b.contains(q[0]));
        law_replace_single(a, q, b, v);
        assert(a + v + b == element(tag, v));
        lemma_replace_each_no_amp(element(tag, v), rest);
    } else {
        let o = defs[0].0;
        assert(o != name);
        assert(!o.contains(';'));
        assert(!name.contains(';')) by {
            assert(!defs[i].0.contains(';'));
        }
        lemma_ref_not_prefix(o, name, b);
        lemma_replaced_other(a, q, b, entity_ref(o), defs[0].1);
        assert(distinct_names(rest)) by {
            assert forall|x: int, y: int| 0 <= x < y < rest.len() implies rest[x].0 != rest[y].0 by {
                assert(rest[x] == defs[x + 1] && rest[y] == defs[y + 1]);
            }
        }
        assert forall|k: int| 0 <= k < rest.len() implies !(#[trigger] rest[k]).0.contains(';') by {
            assert(rest[k] == defs[k + 1]);
        }
        assert(rest[i - 1] == defs[i]);
        lemma_expand_defined(rest, i - 1, tag, name, v);
    }
}

/// Every defined entity is expanded: in a table of distinct names without
/// `&` or `;`, a line `<tag>&name;</tag>` whose name is defined as `v`
/// (without `&`) becomes `<tag>v</tag>`, whichever definition it is.
pub proof fn law_expand_defined(defs: Seq<(Seq<char>, Seq<char>)>, i: int, tag: Seq<char>)
    requires
        distinct_names(defs),
        0 <= i < defs.len(),
        forall|k: int|
            0 <= k < defs.len() ==> !(#[trigger] defs[k]).0.contains('&') && !defs[k].0.contains(';'),
        !defs[i].1.contains('&'),
        !tag.contains('&'),
    ensures
        expanded(element(tag, entity_ref(defs[i].0)), defs) == element(tag, defs[i].1),
{
    let name = defs[i].0;
    let line = element(tag, entity_ref(name));
    assert(line[open_tag(tag).len() as int] == '&');
    assert(!name.contains('&')) by {
        assert(!defs[i].0.contains('&'));
    }
    lemma_expand_defined(defs, i, tag, name, defs[i].1);
}

/// Preprocessing gives `<JMdict>` and then one line for each line after the
/// head, in order: a line without `&` as it is, and a line with `&` with the
/// references of every definition of the head expanded; a head that cannot
/// be read fails at the same line.
pub proof fn law_preprocess_lines(lines: Seq<Seq<char>>)
    ensures
        match header(lines) {
            Err(j) => preprocessed(lines) == Err::<Seq<Seq<char>>, int>(j),
            Ok((defs, b)) => preprocessed(lines) matches Ok(out) && {
                &&& 0 <= b <= lines.len()
                &&& out.len() == lines.len() - b + 1
                &&& out[0] == "<JMdict>"@
                &&& forall|k: int|
                    0 <= k < lines.len() - b ==> (!lines[b + k].contains('&') ==> #[trigger] out[k + 1]
                        == lines[b + k]) && out[k + 1] == expanded(lines[b + k], defs)
            },
        },
{
    lemma_header_bound(lines, 0, Seq::empty());
}

} // verus!
