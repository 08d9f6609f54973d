//! XML entity definitions (`<!ENTITY name "value">`) from the head of a
//! JMdict file: the table they fill, the parse of one definition line, and
//! the scan of the file's head.
use vstd::prelude::*;

use crate::text::{chars_of, find_char, first_index_of, lemma_first_index_of, starts_with_lit, eq_lit, substring, views};

verus! {

broadcast use vstd::string::group_string_axioms;

/// A reference to the entity `name`: `&name;`.
pub open spec fn entity_ref(name: Seq<char>) -> Seq<char> {
    seq!['&'] + name + seq![';']
}

// ---------------------------------------------------------------------------
// The table
// ---------------------------------------------------------------------------

/// The index of the last pair whose name is `k`, or -1 where there is none.
pub open spec fn last_index_of_name(p: Seq<(Seq<char>, Seq<char>)>, k: Seq<char>) -> int
    decreases p.len(),
{
    if p.len() == 0 {
        -1
    } else if p.last().0 == k {
        p.len() - 1
    } else {
        last_index_of_name(p.drop_last(), k)
    }
}

/// The map that a sequence of definitions denotes: a later definition of a
/// name overrides an earlier one.
pub open spec fn pairs_map(p: Seq<(Seq<char>, Seq<char>)>) -> Map<Seq<char>, Seq<char>>
    decreases p.len(),
{
    if p.len() == 0 {
        Map::empty()
    } else {
        pairs_map(p.drop_last()).insert(p.last().0, p.last().1)
    }
}

/// The definitions after `name` is defined as `value`: an existing
/// definition of `name` takes the new value in place; otherwise the new
/// definition comes last.
pub open spec fn pairs_insert(
    p: Seq<(Seq<char>, Seq<char>)>,
    name: Seq<char>,
    value: Seq<char>,
) -> Seq<(Seq<char>, Seq<char>)> {
    let i = last_index_of_name(p, name);
    if i < 0 {
        p.push((name, value))
    } else {
        p.update(i, (name, value))
    }
}

/// Whether no name is defined twice.
pub open spec fn distinct_names(p: Seq<(Seq<char>, Seq<char>)>) -> bool {
    forall|i: int, j: int| 0 <= i < j < p.len() ==> p[i].0 != p[j].0
}

/// `last_index_of_name` is the last index with that name.
pub proof fn lemma_last_index_of_name(p: Seq<(Seq<char>, Seq<char>)>, k: Seq<char>)
    ensures
        -1 <= last_index_of_name(p, k) < p.len(),
        last_index_of_name(p, k) >= 0 ==> p[last_index_of_name(p, k)].0 == k,
        forall|j: int| last_index_of_name(p, k) < j < p.len() ==> p[j].0 != k,
    decreases p.len(),
{
    if p.len() > 0 && p.last().0 != k {
        lemma_last_index_of_name(p.drop_last(), k);
        assert forall|j: int| last_index_of_name(p, k) < j < p.len() implies p[j].0 != k by {
            if j < p.len() - 1 {
                assert(p[j] == p.drop_last()[j]);
            }
        }
    }
}

/// The map of definitions gives, for each name, the value of its last
/// definition, and holds no other name.
pub proof fn lemma_pairs_map(p: Seq<(Seq<char>, Seq<char>)>, k: Seq<char>)
    ensures
        pairs_map(p).contains_key(k) <==> last_index_of_name(p, k) >= 0,
        last_index_of_name(p, k) >= 0 ==> pairs_map(p)[k] == p[last_index_of_name(p, k)].1,
    decreases p.len(),
{
    if p.len() > 0 && p.last().0 != k {
        lemma_pairs_map(p.drop_last(), k);
        lemma_last_index_of_name(p.drop_last(), k);
    }
}

proof fn lemma_last_index_same_names(
    p: Seq<(Seq<char>, Seq<char>)>,
    q: Seq<(Seq<char>, Seq<char>)>,
    k: Seq<char>,
)
    requires
        p.len() == q.len(),
        forall|j: int| 0 <= j < p.len() ==> p[j].0 == q[j].0,
    ensures
        last_index_of_name(p, k) == last_index_of_name(q, k),
    decreases p.len(),
{
    if p.len() > 0 {
        assert(p.last().0 == q.last().0);
        lemma_last_index_same_names(p.drop_last(), q.drop_last(), k);
    }
}

/// Defining `name` in the sequence defines it in the map.
pub proof fn lemma_pairs_insert(p: Seq<(Seq<char>, Seq<char>)>, name: Seq<char>, value: Seq<char>)
    ensures
        pairs_map(pairs_insert(p, name, value)) == pairs_map(p).insert(name, value),
        distinct_names(p) ==> distinct_names(pairs_insert(p, name, value)),
{
    let i = last_index_of_name(p, name);
    let q = pairs_insert(p, name, value);
    lemma_last_index_of_name(p, name);
    if i < 0 {
        assert(q.drop_last() =~= p);
        assert(distinct_names(p) ==> distinct_names(q)) by {
            if distinct_names(p) {
                assert forall|a: int, b: int| 0 <= a < b < q.len() implies q[a].0 != q[b].0 by {
                    if b == q.len() - 1 {
                        assert(q[a] == p[a]);
                    } else {
                        assert(q[a] == p[a] && q[b] == p[b]);
                    }
                }
            }
        }
    } else {
        assert forall|j: int| 0 <= j < p.len() implies p[j].0 == q[j].0 by {}
        assert forall|k: Seq<char>|
            #![trigger pairs_map(q).contains_key(k)]
            #![trigger pairs_map(q)[k]]
            true implies (pairs_map(q).contains_key(k) == pairs_map(p).insert(name, value).contains_key(k)
                && (pairs_map(q).contains_key(k) ==> pairs_map(q)[k] == pairs_map(p).insert(
                name,
                value,
            )[k])) by {
            lemma_last_index_same_names(p, q, k);
            lemma_pairs_map(p, k);
            lemma_pairs_map(q, k);
            lemma_last_index_of_name(p, k);
        }
        assert(pairs_map(q) =~= pairs_map(p).insert(name, value));
    }
}

/// Entity definitions by name, in the order in which names were first
/// defined. It stands where a `HashMap<String, String>` would: a vector of
/// pairs whose contents, order and map view (`pairs`, `@`) the contracts can
/// state exactly, with distinct names as its invariant.
#[derive(Debug)]
pub struct EntityTable {
    defs: Vec<(String, String)>,
}

/// The character views of a sequence of definitions.
pub open spec fn def_views(v: Seq<(String, String)>) -> Seq<(Seq<char>, Seq<char>)> {
    v.map_values(|d: (String, String)| (d.0@, d.1@))
}

impl EntityTable {
    /// The definitions, in table order.
    pub closed spec fn pairs(&self) -> Seq<(Seq<char>, Seq<char>)> {
        def_views(self.defs@)
    }

    /// No name is defined twice, as in a map.
    #[verifier::type_invariant]
    spec fn names_are_distinct(self) -> bool {
        distinct_names(def_views(self.defs@))
    }

    /// An empty table.
    pub fn new() -> (t: EntityTable)
        ensures
            t.pairs() == Seq::<(Seq<char>, Seq<char>)>::empty(),
            t@ == Map::<Seq<char>, Seq<char>>::empty(),
            distinct_names(t.pairs()),
    {
        let t = EntityTable { defs: Vec::new() };
        assert(t.pairs() =~= Seq::<(Seq<char>, Seq<char>)>::empty());
        assert(t@ =~= Map::<Seq<char>, Seq<char>>::empty());
        t
    }

    /// The number of names defined.
    pub fn len(&self) -> (n: usize)
        ensures
            n == self.pairs().len(),
    {
        self.defs.len()
    }

    /// The index of the last definition of `name`, if any.
    fn find(&self, name: &String) -> (r: Option<usize>)
        ensures
            match r {
                Some(i) => i == last_index_of_name(self.pairs(), name@),
                None => last_index_of_name(self.pairs(), name@) < 0,
            },
    {
        let ghost p = self.pairs();
        let mut i = self.defs.len();
        while i > 0
            invariant
                i <= self.defs@.len(),
                p == self.pairs(),
                p.len() == self.defs@.len(),
                forall|j: int| i <= j < p.len() ==> p[j].0 != name@,
            decreases i,
        {
            if self.defs[i - 1].0 == *name {
                proof {
                    assert(p[i - 1].0 == name@);
                    lemma_last_index_of_name(p, name@);
                    let l = last_index_of_name(p, name@);
                    assert(l >= i - 1);
                }
                return Some(i - 1);
            }
            i = i - 1;
        }
        proof {
            lemma_last_index_of_name(p, name@);
        }
        None
    }

    /// Defines `name` as `value`, replacing any earlier value of `name`, as
    /// `HashMap::insert` does.
    pub fn insert(&mut self, name: String, value: String)
        ensures
            final(self).pairs() == pairs_insert(old(self).pairs(), name@, value@),
            final(self)@ == old(self)@.insert(name@, value@),
            distinct_names(final(self).pairs()),
    {
        proof {
            use_type_invariant(&*self);
        }
        let ghost p = self.pairs();
        proof {
            lemma_pairs_insert(p, name@, value@);
        }
        proof {
            lemma_last_index_of_name(p, name@);
        }
        let found = self.find(&name);
        let mut defs: Vec<(String, String)> = Vec::new();
        std::mem::swap(&mut defs, &mut self.defs);
        match found {
            Some(i) => {
                defs.set(i, (name, value));
            },
            None => {
                defs.push((name, value));
            },
        }
        assert(def_views(defs@) =~= pairs_insert(p, name@, value@));
        self.defs = defs;
        proof {
            use_type_invariant(&*self);
        }
    }

    /// The value of `name`, if it is defined, as `HashMap::get`.
    pub fn get(&self, name: &str) -> (r: Option<&String>)
        ensures
            match r {
                Some(v) => self@.contains_key(name@) && v@ == self@[name@],
                None => !self@.contains_key(name@),
            },
    {
        let key = String::from_str(name);
        proof {
            lemma_pairs_map(self.pairs(), name@);
            lemma_last_index_of_name(self.pairs(), name@);
        }
        match self.find(&key) {
            Some(i) => {
                assert(self.pairs()[i as int].1 == self.defs@[i as int].1@);
                Some(&self.defs[i].1)
            },
            None => None,
        }
    }

    /// The name and value of the definition at position `i`.
    pub fn def_at(&self, i: usize) -> (r: (&String, &String))
        requires
            i < self.pairs().len(),
        ensures
            (r.0@, r.1@) == self.pairs()[i as int],
    {
        (&self.defs[i].0, &self.defs[i].1)
    }
}

impl View for EntityTable {
    type V = Map<Seq<char>, Seq<char>>;

    open spec fn view(&self) -> Map<Seq<char>, Seq<char>> {
        pairs_map(self.pairs())
    }
}

// ---------------------------------------------------------------------------
// One definition line
// ---------------------------------------------------------------------------

/// `s` without its leading `c`s (`str::trim_start_matches` with one char).
pub open spec fn drop_leading(s: Seq<char>, c: char) -> Seq<char>
    decreases s.len(),
{
    if s.len() > 0 && s[0] == c {
        drop_leading(s.drop_first(), c)
    } else {
        s
    }
}

/// `s` without its trailing repetitions of the pair `a b`
/// (`str::trim_end_matches` with a two-character pattern).
pub open spec fn drop_trailing_pair(s: Seq<char>, a: char, b: char) -> Seq<char>
    decreases s.len(),
{
    if s.len() >= 2 && s[s.len() - 2] == a && s[s.len() - 1] == b {
        drop_trailing_pair(s.take(s.len() - 2), a, b)
    } else {
        s
    }
}

/// The name and value of an entity definition line: the line is split at
/// its first two spaces; the name is the second piece, the value the third
/// without its leading `"` and its trailing `">`. A line with fewer than two
/// spaces defines nothing.
pub open spec fn entity_def(line: Seq<char>) -> Option<(Seq<char>, Seq<char>)> {
    let i = first_index_of(line, ' ');
    if i >= line.len() {
        None
    } else {
        let rest = line.skip(i + 1);
        let j = first_index_of(rest, ' ');
        if j >= rest.len() {
            None
        } else {
            Some((rest.take(j), drop_trailing_pair(drop_leading(rest.skip(j + 1), '"'), '"', '>')))
        }
    }
}

/// The first index at or after `from` that does not hold `c`.
fn skip_char(v: &Vec<char>, from: usize, c: char) -> (lo: usize)
    requires
        from <= v@.len(),
    ensures
        from <= lo <= v@.len(),
        drop_leading(v@.skip(from as int), c) == v@.skip(lo as int),
{
    let n = v.len();
    let mut lo = from;
    while lo < n && v[lo] == c
        invariant
            from <= lo <= n,
            n == v@.len(),
            drop_leading(v@.skip(from as int), c) == drop_leading(v@.skip(lo as int), c),
        decreases n - lo,
    {
        assert(v@.skip(lo as int).drop_first() =~= v@.skip(lo + 1));
        lo = lo + 1;
    }
    lo
}

/// The end of `lo..` once its trailing repetitions of `a b` are cut off.
fn cut_trailing_pair(v: &Vec<char>, lo: usize, a: char, b: char) -> (hi: usize)
    requires
        lo <= v@.len(),
    ensures
        lo <= hi <= v@.len(),
        drop_trailing_pair(v@.skip(lo as int), a, b) == v@.subrange(lo as int, hi as int),
{
    let n = v.len();
    let ghost kept = v@.skip(lo as int);
    let mut hi = n;
    assert(kept.take(kept.len() as int) =~= kept);
    while hi - lo >= 2 && v[hi - 2] == a && v[hi - 1] == b
        invariant
            lo <= hi <= n,
            n == v@.len(),
            kept == v@.skip(lo as int),
            drop_trailing_pair(kept, a, b) == drop_trailing_pair(kept.take(hi - lo), a, b),
        decreases hi,
    {
        assert(kept.take(hi - lo).take(hi - lo - 2) =~= kept.take(hi - lo - 2));
        hi = hi - 2;
    }
    assert(kept.take(hi - lo) =~= v@.subrange(lo as int, hi as int));
    hi
}

/// Reads the name and value from an entity definition line such as
/// `<!ENTITY n "noun (common) (futsuumeishi)">`.
pub fn parse_entity_line(line: &str) -> (r: Option<(String, String)>)
    ensures
        match r {
            Some((name, value)) => entity_def(line@) == Some((name@, value@)),
            None => entity_def(line@) is None,
        },
{
    let v = chars_of(line);
    let n = v.len();
    let i = find_char(&v, ' ', 0);
    assert(v@.skip(0) =~= line@);
    if i >= n {
        return None;
    }
    let ghost rest = line@.skip(i + 1);
    let j = find_char(&v, ' ', i + 1);
    if j >= n {
        return None;
    }
    proof {
        lemma_first_index_of(rest, ' ');
    }
    let name = substring(line, i + 1, j);
    assert(name@ =~= rest.take(j - i - 1));
    assert(rest.skip(j - i - 1 + 1) =~= line@.skip(j + 1));
    let lo = skip_char(&v, j + 1, '"');
    let hi = cut_trailing_pair(&v, lo, '"', '>');
    let value = substring(line, lo, hi);
    Some((name, value))
}

// ---------------------------------------------------------------------------
// The head of the file
// ---------------------------------------------------------------------------

/// A definition line that cannot be read: its index among the lines.
#[derive(Debug)]
pub struct MalformedEntity {
    pub line: usize,
}

/// The scan of the file's head from line `i` with the definitions `p`
/// collected so far. It stops after the line `<JMdict>` (or at the end) and
/// gives the definitions and the index of the first line after the head; a
/// line that starts with `<!ENTITY` adds its definition and any other line is
/// passed over. A definition line that defines nothing stops it with that
/// line's index.
pub open spec fn header_from(
    lines: Seq<Seq<char>>,
    i: int,
    p: Seq<(Seq<char>, Seq<char>)>,
) -> Result<(Seq<(Seq<char>, Seq<char>)>, int), int>
    decreases lines.len() - i,
{
    if i < 0 || i >= lines.len() {
        Ok((p, lines.len() as int))
    } else if lines[i] == "<JMdict>"@ {
        Ok((p, i + 1))
    } else if !"<!ENTITY"@.is_prefix_of(lines[i]) {
        header_from(lines, i + 1, p)
    } else {
        match entity_def(lines[i]) {
            None => Err(i),
            Some((name, value)) => header_from(lines, i + 1, pairs_insert(p, name, value)),
        }
    }
}

/// The scan of the whole head.
pub open spec fn header(lines: Seq<Seq<char>>) -> Result<(Seq<(Seq<char>, Seq<char>)>, int), int> {
    header_from(lines, 0, Seq::empty())
}

/// Reads the entity definitions at the head of a JMdict file, up to and
/// including the `<JMdict>` line. Gives the table and the index of the first
/// line after the head.
pub fn collect_entities(lines: &Vec<String>) -> (r: Result<(EntityTable, usize), MalformedEntity>)
    ensures
        match r {
            Ok((t, b)) => header(views(lines@)) == Ok::<_, int>((t.pairs(), b as int)),
            Err(e) => header(views(lines@)) == Err::<(Seq<(Seq<char>, Seq<char>)>, int), int>(
                e.line as int,
            ),
        },
{
    let ghost ls = views(lines@);
    let mut table = EntityTable::new();
    let n = lines.len();
    let mut i: usize = 0;
    while i < n
        invariant
            i <= n,
            n == lines@.len(),
            ls == views(lines@),
            header(ls) == header_from(ls, i as int, table.pairs()),
        decreases n - i,
    {
        let v = chars_of(lines[i].as_str());
        assert(ls[i as int] == lines@[i as int]@);
        if eq_lit(&v, "<JMdict>") {
            return Ok((table, i + 1));
        }
        if starts_with_lit(&v, "<!ENTITY") {
            match parse_entity_line(lines[i].as_str()) {
                None => {
                    return Err(MalformedEntity { line: i });
                },
                Some((name, value)) => {
                    table.insert(name, value);
                },
            }
        }
        i = i + 1;
    }
    Ok((table, n))
}

// ---------------------------------------------------------------------------
// Laws
// ---------------------------------------------------------------------------

/// The definition line `<!ENTITY name "value">`.
pub open spec fn entity_line(name: Seq<char>, value: Seq<char>) -> Seq<char> {
    "<!ENTITY"@ + seq![' '] + name + seq![' ', '"'] + value + seq!['"', '>']
}

/// A definition that its line gives back: the name has no space, and the
/// value is not empty, does not start with `"` and does not end with `">`.
pub open spec fn writable_def(name: Seq<char>, value: Seq<char>) -> bool {
    &&& !name.contains(' ')
    &&& value.len() > 0
    &&& value[0] != '"'
    &&& !(value.len() >= 2 && value[value.len() - 2] == '"' && value[value.len() - 1] == '>')
}

/// Reading a definition line gives back its name and value.
pub proof fn law_entity_line(name: Seq<char>, value: Seq<char>)
    requires
        writable_def(name, value),
    ensures
        "<!ENTITY"@.is_prefix_of(entity_line(name, value)),
        entity_line(name, value) != "<JMdict>"@,
        entity_def(entity_line(name, value)) == Some((name, value)),
{
    reveal_strlit("<!ENTITY");
    reveal_strlit("<JMdict>");
    let line = entity_line(name, value);
    let head = "<!ENTITY"@;
    assert(head.len() == 8);
    assert(line.subrange(0, 8) =~= head);
    assert(line[1] == '!');
    assert("<JMdict>"@[1] == 'J');
    assert forall|k: int| 0 <= k < 8 implies line[k] != ' ' by {
        assert(line[k] == head[k]);
    }
    assert(line[8] == ' ');
    crate::text::lemma_first_index_of_unique(line, ' ', 8);
    let rest = line.skip(9);
    assert(rest =~= name + seq![' ', '"'] + value + seq!['"', '>']);
    assert forall|k: int| 0 <= k < name.len() implies rest[k] != ' ' by {
        assert(rest[k] == name[k]);
    }
    assert(rest[name.len() as int] == ' ');
    crate::text::lemma_first_index_of_unique(rest, ' ', name.len() as int);
    assert(rest.take(name.len() as int) =~= name);
    let quoted = rest.skip(name.len() as int + 1);
    assert(quoted =~= seq!['"'] + value + seq!['"', '>']);
    assert(quoted.drop_first() =~= value + seq!['"', '>']);
    assert((value + seq!['"', '>'])[0] == value[0]);
    let closed = value + seq!['"', '>'];
    assert(drop_leading(closed, '"') == closed);
    assert(drop_leading(quoted, '"') == closed);
    assert(closed.take(closed.len() - 2) =~= value);
    assert(closed[closed.len() - 2] == '"');
    assert(closed[closed.len() - 1] == '>');
    assert(drop_trailing_pair(value, '"', '>') == value);
    assert(drop_trailing_pair(closed, '"', '>') == value);
}

/// Defining each of `defs` in turn, starting from `p`.
pub open spec fn insert_all(
    p: Seq<(Seq<char>, Seq<char>)>,
    defs: Seq<(Seq<char>, Seq<char>)>,
) -> Seq<(Seq<char>, Seq<char>)>
    decreases defs.len(),
{
    if defs.len() == 0 {
        p
    } else {
        insert_all(pairs_insert(p, defs[0].0, defs[0].1), defs.drop_first())
    }
}

/// The definition lines of `defs`.
pub open spec fn entity_lines(defs: Seq<(Seq<char>, Seq<char>)>) -> Seq<Seq<char>> {
    defs.map_values(|d: (Seq<char>, Seq<char>)| entity_line(d.0, d.1))
}

proof fn lemma_header_reads(
    lines: Seq<Seq<char>>,
    i: int,
    p: Seq<(Seq<char>, Seq<char>)>,
    defs: Seq<(Seq<char>, Seq<char>)>,
)
    requires
        0 <= i,
        i + defs.len() < lines.len(),
        lines.subrange(i, i + defs.len()) == entity_lines(defs),
        lines[i + defs.len()] == "<JMdict>"@,
        forall|k: int| 0 <= k < defs.len() ==> writable_def(#[trigger] defs[k].0, defs[k].1),
    ensures
        header_from(lines, i, p) == Ok::<_, int>((insert_all(p, defs), i + defs.len() + 1)),
    decreases defs.len(),
{
    if defs.len() > 0 {
        assert(lines[i] == lines.subrange(i, i + defs.len())[0]);
        assert(lines[i] == entity_line(defs[0].0, defs[0].1));
        assert(writable_def(defs[0].0, defs[0].1));
        law_entity_line(defs[0].0, defs[0].1);
        let rest = defs.drop_first();
        assert(lines.subrange(i + 1, i + 1 + rest.len()) =~= entity_lines(rest)) by {
            assert forall|k: int| 0 <= k < rest.len() implies lines.subrange(
                i + 1,
                i + 1 + rest.len(),
            )[k] == entity_lines(rest)[k] by {
                assert(lines.subrange(i + 1, i + 1 + rest.len())[k] == lines.subrange(
                    i,
                    i + defs.len(),
                )[k + 1]);
            }
        }
        assert forall|k: int| 0 <= k < rest.len() implies writable_def(
            #[trigger] rest[k].0,
            rest[k].1,
        ) by {
            assert(rest[k] == defs[k + 1]);
        }
        lemma_header_reads(lines, i + 1, pairs_insert(p, defs[0].0, defs[0].1), rest);
    }
}

/// A head made of definition lines and then `<JMdict>` is read back as
/// those definitions, made in order; the body starts on the line after.
pub proof fn law_header_reads_definitions(
    defs: Seq<(Seq<char>, Seq<char>)>,
    body: Seq<Seq<char>>,
)
    requires
        forall|k: int| 0 <= k < defs.len() ==> writable_def(#[trigger] defs[k].0, defs[k].1),
    ensures
        header(entity_lines(defs) + seq!["<JMdict>"@] + body) == Ok::<_, int>(
            (insert_all(Seq::empty(), defs), defs.len() as int + 1),
        ),
{
    let lines = entity_lines(defs) + seq!["<JMdict>"@] + body;
    assert(lines.subrange(0, defs.len() as int) =~= entity_lines(defs));
    assert(lines[defs.len() as int] == "<JMdict>"@);
    lemma_header_reads(lines, 0, Seq::empty(), defs);
}

/// In the head, a line that is neither `<JMdict>` nor a definition (a
/// comment, the DOCTYPE, `]>`, a blank line) is passed over: the scan goes
/// on from the next line with the same definitions.
pub proof fn law_header_passes_over(lines: Seq<Seq<char>>, i: int, p: Seq<(Seq<char>, Seq<char>)>)
    requires
        0 <= i < lines.len(),
        lines[i] != "<JMdict>"@,
        !"<!ENTITY"@.is_prefix_of(lines[i]),
    ensures
        header_from(lines, i, p) == header_from(lines, i + 1, p),
{
}

/// The scan of the head fails only at a definition line that defines
/// nothing: a line that starts with `<!ENTITY` and has fewer than two
/// spaces, before any `<JMdict>` line.
pub proof fn law_header_fails_only_on_bad_definition(
    lines: Seq<Seq<char>>,
    i: int,
    p: Seq<(Seq<char>, Seq<char>)>,
)
    requires
        0 <= i,
    ensures
        header_from(lines, i, p) matches Err(j) ==> {
            &&& i <= j < lines.len()
            &&& "<!ENTITY"@.is_prefix_of(lines[j])
            &&& entity_def(lines[j]) is None
            &&& forall|k: int| i <= k <= j ==> lines[k] != "<JMdict>"@
        },
    decreases lines.len() - i,
{
    if i < lines.len() && lines[i] != "<JMdict>"@ {
        match entity_def(lines[i]) {
            Some((name, value)) => {
                law_header_fails_only_on_bad_definition(lines, i + 1, pairs_insert(p, name, value));
            },
            None => {},
        }
        law_header_fails_only_on_bad_definition(lines, i + 1, p);
    }
}

/// A line defines something exactly when it has at least two spaces.
pub proof fn law_entity_def_needs_two_spaces(line: Seq<char>)
    ensures
        entity_def(line) is Some <==> exists|a: int, b: int|
            0 <= a < b < line.len() && #[trigger] line[a] == ' ' && #[trigger] line[b] == ' ',
{
    crate::text::lemma_first_index_of(line, ' ');
    let i = first_index_of(line, ' ');
    if i < line.len() {
        let rest = line.skip(i + 1);
        crate::text::lemma_first_index_of(rest, ' ');
        let j = first_index_of(rest, ' ');
        if j < rest.len() {
            assert(line[i] == ' ');
            assert(line[i + 1 + j] == rest[j]);
        } else {
            assert forall|a: int, b: int| 0 <= a < b < line.len() && #[trigger] line[a] == ' '
                implies #[trigger] line[b] != ' ' by {
                assert(a >= i);
                assert(line[b] == rest[b - i - 1]);
            }
        }
    }
}

proof fn lemma_drop_leading(s: Seq<char>, c: char)
    ensures
        drop_leading(s, c).len() == 0 || drop_leading(s, c)[0] != c,
        drop_leading(s, c).len() <= s.len(),
        drop_leading(s, c) == s.skip(s.len() - drop_leading(s, c).len()),
        forall|k: int| 0 <= k < s.len() - drop_leading(s, c).len() ==> #[trigger] s[k] == c,
    decreases s.len(),
{
    if s.len() > 0 && s[0] == c {
        lemma_drop_leading(s.drop_first(), c);
        let r = drop_leading(s, c);
        assert(s.drop_first().skip(s.drop_first().len() - r.len()) =~= s.skip(s.len() - r.len()));
        assert forall|k: int| 0 <= k < s.len() - r.len() implies #[trigger] s[k] == c by {
            if k > 0 {
                assert(s[k] == s.drop_first()[k - 1]);
            }
        }
    } else {
        assert(s.skip(0) =~= s);
    }
}

proof fn lemma_drop_trailing(s: Seq<char>, a: char, b: char)
    ensures
        !({
            let r = drop_trailing_pair(s, a, b);
            r.len() >= 2 && r[r.len() - 2] == a && r[r.len() - 1] == b
        }),
        drop_trailing_pair(s, a, b).len() <= s.len(),
        drop_trailing_pair(s, a, b) == s.take(drop_trailing_pair(s, a, b).len() as int),
    decreases s.len(),
{
    if s.len() >= 2 && s[s.len() - 2] == a && s[s.len() - 1] == b {
        let t = s.take(s.len() - 2);
        lemma_drop_trailing(t, a, b);
        let r = drop_trailing_pair(s, a, b);
        assert(t.take(r.len() as int) =~= s.take(r.len() as int));
    } else {
        assert(s.take(s.len() as int) =~= s);
    }
}

/// What a definition line gives: the name is the text between its first
/// two spaces, and the value is the rest of the line after the second space
/// with every leading `"` and every trailing `">` taken off, so that it
/// neither starts with `"` nor ends with `">`.
pub proof fn law_entity_def_parts(line: Seq<char>)
    ensures
        entity_def(line) matches Some((name, value)) ==> {
            &&& !name.contains(' ')
            &&& value.len() == 0 || value[0] != '"'
            &&& !(value.len() >= 2 && value[value.len() - 2] == '"' && value[value.len() - 1] == '>')
            &&& exists|a: int, b: int|
                0 <= a < b < line.len() && line[a] == ' ' && line[b] == ' ' && line.subrange(a + 1, b)
                    == name && (forall|k: int| 0 <= k < a ==> #[trigger] line[k] != ' ') && (forall|
                    k: int,
                | a < k < b ==> #[trigger] line[k] != ' ')
        },
{
    crate::text::lemma_first_index_of(line, ' ');
    let i = first_index_of(line, ' ');
    if i < line.len() {
        let rest = line.skip(i + 1);
        crate::text::lemma_first_index_of(rest, ' ');
        let j = first_index_of(rest, ' ');
        if j < rest.len() {
            let name = rest.take(j);
            let x = rest.skip(j + 1);
            lemma_drop_leading(x, '"');
            let l = drop_leading(x, '"');
            lemma_drop_trailing(l, '"', '>');
            let v = drop_trailing_pair(l, '"', '>');
            if v.len() > 0 {
                assert(v[0] == l[0]);
            }
            if name.contains(' ') {
                let k = choose|k: int| 0 <= k < name.len() && name[k] == ' ';
                assert(rest[k] == name[k]);
            }
            let b = i + 1 + j;
            assert(line[b] == rest[j]);
            assert(line.subrange(i + 1, b) =~= name);
            assert forall|k: int| i < k < b implies #[trigger] line[k] != ' ' by {
                assert(line[k] == rest[k - i - 1]);
            }
        }
    }
}

} // verus!
