//! The line-by-line reader of a JMdict body: a state machine that turns the
//! lines after the file's head into entries.
use vstd::prelude::*;

use crate::entities::EntityTable;
use crate::jmdict::{
    entry_views, empty_entry, empty_kanji, empty_reading, empty_sense, kanji_views, reading_views, sense_views,
    Entry, EntryV, Kanji, KanjiV, Reading, ReadingV, Sense, SenseV,
};
use crate::text::{chars_of, eq_lit, parse_i64, spec_parse_i64, starts_with_lit, trim, trimmed, views};
use crate::xml::{can_strip_xml, element_value, strip_xml, strippable};

verus! {

broadcast use vstd::string::group_string_axioms;

/// Where the reader stands between two lines.
#[derive(Debug)]
pub enum ReadState {
    /// Between entries: the next line opens an entry or closes the file.
    Between,
    /// Inside an entry.
    InEntry(Entry),
    /// Inside a kanji element of an entry.
    InKanji(Entry, Kanji),
    /// Inside a reading element of an entry.
    InReading(Entry, Reading),
    /// Inside a sense of an entry.
    InSense(Entry, Sense),
    /// After `</JMdict>`.
    Done,
}

/// The contents of a `ReadState`.
pub enum ReadStateV {
    Between,
    InEntry(EntryV),
    InKanji(EntryV, KanjiV),
    InReading(EntryV, ReadingV),
    InSense(EntryV, SenseV),
    Done,
}

impl View for ReadState {
    type V = ReadStateV;

    open spec fn view(&self) -> ReadStateV {
        match self {
            ReadState::Between => ReadStateV::Between,
            ReadState::InEntry(e) => ReadStateV::InEntry(e@),
            ReadState::InKanji(e, k) => ReadStateV::InKanji(e@, k@),
            ReadState::InReading(e, r) => ReadStateV::InReading(e@, r@),
            ReadState::InSense(e, s) => ReadStateV::InSense(e@, s@),
            ReadState::Done => ReadStateV::Done,
        }
    }
}

impl ReadState {
    /// Whether the reader has passed `</JMdict>`.
    pub fn is_done(&self) -> (b: bool)
        ensures
            b == (self@ is Done),
    {
        match self {
            ReadState::Done => true,
            _ => false,
        }
    }
}

/// Why a body cannot be read.
#[derive(Debug, PartialEq, Eq)]
pub enum ReadError {
    /// Between entries, a line other than `<entry>` or `</JMdict>`.
    UnexpectedLine,
    /// The lines end before `</JMdict>`.
    UnexpectedEnd,
    /// A line that opens an inline element is not one that can be stripped.
    MalformedElement,
    /// The text of `<ent_seq>` is not an `i64`.
    InvalidEntSeq,
}

/// A failure of the whole read: the index of the line and why.
#[derive(Debug, PartialEq, Eq)]
pub struct ReadFailure {
    pub line: usize,
    pub error: ReadError,
}

/// `e` with a new sequence number.
pub open spec fn with_ent_seq(e: EntryV, n: i64) -> EntryV {
    EntryV { ent_seq: n, k_ele: e.k_ele, r_ele: e.r_ele, sense: e.sense }
}

/// `e` with one more kanji element.
pub open spec fn with_kanji(e: EntryV, k: KanjiV) -> EntryV {
    EntryV { ent_seq: e.ent_seq, k_ele: e.k_ele.push(k), r_ele: e.r_ele, sense: e.sense }
}

/// `e` with one more reading element.
pub open spec fn with_reading(e: EntryV, r: ReadingV) -> EntryV {
    EntryV { ent_seq: e.ent_seq, k_ele: e.k_ele, r_ele: e.r_ele.push(r), sense: e.sense }
}

/// `e` with one more sense.
pub open spec fn with_sense(e: EntryV, s: SenseV) -> EntryV {
    EntryV { ent_seq: e.ent_seq, k_ele: e.k_ele, r_ele: e.r_ele, sense: e.sense.push(s) }
}

/// `k` with a new `keb`.
pub open spec fn with_keb(k: KanjiV, keb: Seq<char>) -> KanjiV {
    KanjiV { keb: keb, ke_inf: k.ke_inf, ke_pri: k.ke_pri }
}

/// `r` with a new `reb`.
pub open spec fn with_reb(r: ReadingV, reb: Seq<char>) -> ReadingV {
    ReadingV {
        reb: reb,
        r_inf: r.r_inf,
        re_pri: r.re_pri,
        re_restr: r.re_restr,
        re_nokanji: r.re_nokanji,
    }
}

/// `s` with one more part of speech, gloss, cross-reference or note, by the
/// element's tag; any other tag leaves it as it is.
pub open spec fn sense_with(s: SenseV, tag: Seq<char>, v: Seq<char>) -> SenseV {
    if tag == "pos"@ {
        SenseV { pos: s.pos.push(v), ..s }
    } else if tag == "gloss"@ {
        SenseV { gloss: s.gloss.push(v), ..s }
    } else if tag == "x_ref"@ {
        SenseV { x_ref: s.x_ref.push(v), ..s }
    } else if tag == "misc"@ {
        SenseV { misc: s.misc.push(v), ..s }
    } else {
        s
    }
}

/// The value of an inline element of `tag` on `line`, where it can be read.
pub open spec fn field(line: Seq<char>, tag: Seq<char>, m: Map<Seq<char>, Seq<char>>) -> Result<
    Seq<char>,
    ReadError,
> {
    if strippable(line, tag) {
        Ok(element_value(line, tag, m))
    } else {
        Err(ReadError::MalformedElement)
    }
}

/// The line of a sense that the reader keeps, by its opening tag.
pub open spec fn sense_tag(line: Seq<char>) -> Option<Seq<char>> {
    if "<pos>"@.is_prefix_of(line) {
        Some("pos"@)
    } else if "<gloss>"@.is_prefix_of(line) {
        Some("gloss"@)
    } else if "<x_ref>"@.is_prefix_of(line) {
        Some("x_ref"@)
    } else if "<misc>"@.is_prefix_of(line) {
        Some("misc"@)
    } else {
        None
    }
}

/// A step between entries.
pub open spec fn between_step(line: Seq<char>) -> Result<(ReadStateV, Option<EntryV>), ReadError> {
    if line == "<entry>"@ {
        Ok((ReadStateV::InEntry(empty_entry()), None))
    } else if line == "</JMdict>"@ {
        Ok((ReadStateV::Done, None))
    } else {
        Err(ReadError::UnexpectedLine)
    }
}

/// A step inside an entry.
pub open spec fn entry_step(e: EntryV, line: Seq<char>, m: Map<Seq<char>, Seq<char>>) -> Result<
    (ReadStateV, Option<EntryV>),
    ReadError,
> {
    if "<ent_seq>"@.is_prefix_of(line) {
        match field(line, "ent_seq"@, m) {
            Err(err) => Err(err),
            Ok(text) => match spec_parse_i64(text) {
                None => Err(ReadError::InvalidEntSeq),
                Some(n) => Ok((ReadStateV::InEntry(with_ent_seq(e, n)), None)),
            },
        }
    } else if "<k_ele>"@.is_prefix_of(line) {
        Ok((ReadStateV::InKanji(e, empty_kanji()), None))
    } else if "<r_ele>"@.is_prefix_of(line) {
        Ok((ReadStateV::InReading(e, empty_reading()), None))
    } else if line == "<sense>"@ {
        Ok((ReadStateV::InSense(e, empty_sense()), None))
    } else if line == "</entry>"@ {
        Ok((ReadStateV::Between, Some(e)))
    } else {
        Ok((ReadStateV::InEntry(e), None))
    }
}

/// A step inside a kanji element.
pub open spec fn kanji_step(
    e: EntryV,
    k: KanjiV,
    line: Seq<char>,
    m: Map<Seq<char>, Seq<char>>,
) -> Result<(ReadStateV, Option<EntryV>), ReadError> {
    if "<keb>"@.is_prefix_of(line) {
        match field(line, "keb"@, m) {
            Err(err) => Err(err),
            Ok(keb) => Ok((ReadStateV::InKanji(e, with_keb(k, keb)), None)),
        }
    } else if line == "</k_ele>"@ {
        Ok((ReadStateV::InEntry(with_kanji(e, k)), None))
    } else {
        Ok((ReadStateV::InKanji(e, k), None))
    }
}

/// A step inside a reading element.
pub open spec fn reading_step(
    e: EntryV,
    r: ReadingV,
    line: Seq<char>,
    m: Map<Seq<char>, Seq<char>>,
) -> Result<(ReadStateV, Option<EntryV>), ReadError> {
    if "<reb>"@.is_prefix_of(line) {
        match field(line, "reb"@, m) {
            Err(err) => Err(err),
            Ok(reb) => Ok((ReadStateV::InReading(e, with_reb(r, reb)), None)),
        }
    } else if "<re_pri>"@.is_prefix_of(line) || "<re_inf>"@.is_prefix_of(line) {
        Ok((ReadStateV::InReading(e, r), None))
    } else if line == "</r_ele>"@ {
        Ok((ReadStateV::InEntry(with_reading(e, r)), None))
    } else {
        Ok((ReadStateV::InReading(e, r), None))
    }
}

/// A step inside a sense.
pub open spec fn sense_step(
    e: EntryV,
    s: SenseV,
    line: Seq<char>,
    m: Map<Seq<char>, Seq<char>>,
) -> Result<(ReadStateV, Option<EntryV>), ReadError> {
    match sense_tag(line) {
        Some(tag) => match field(line, tag, m) {
            Err(err) => Err(err),
            Ok(v) => Ok((ReadStateV::InSense(e, sense_with(s, tag, v)), None)),
        },
        None => {
            if line == "</sense>"@ {
                Ok((ReadStateV::InEntry(with_sense(e, s)), None))
            } else {
                Ok((ReadStateV::InSense(e, s), None))
            }
        },
    }
}

/// One step of the reader on one line, which is trimmed first: the next
/// state and the entry that the line completes, if any. After `</JMdict>`
/// lines change nothing.
pub open spec fn spec_step(st: ReadStateV, raw: Seq<char>, m: Map<Seq<char>, Seq<char>>) -> Result<
    (ReadStateV, Option<EntryV>),
    ReadError,
> {
    let line = trimmed(raw);
    match st {
        ReadStateV::Between => between_step(line),
        ReadStateV::InEntry(e) => entry_step(e, line, m),
        ReadStateV::InKanji(e, k) => kanji_step(e, k, line, m),
        ReadStateV::InReading(e, r) => reading_step(e, r, line, m),
        ReadStateV::InSense(e, s) => sense_step(e, s, line, m),
        ReadStateV::Done => Ok((ReadStateV::Done, None)),
    }
}

/// The view of an optional entry.
pub open spec fn opt_view(o: Option<Entry>) -> Option<EntryV> {
    match o {
        Some(e) => Some(e@),
        None => None,
    }
}

/// The view of what a step gives back.
pub open spec fn step_view(r: Result<(ReadState, Option<Entry>), ReadError>) -> Result<
    (ReadStateV, Option<EntryV>),
    ReadError,
> {
    match r {
        Ok((st, out)) => Ok(
            (
                st@,
                match out {
                    Some(e) => Some(e@),
                    None => None,
                },
            ),
        ),
        Err(e) => Err(e),
    }
}

/// The value of the inline element of `tag` on `line`, or why it cannot be
/// read.
fn read_field(line: &str, tag: &str, m: &EntityTable) -> (r: Result<String, ReadError>)
    ensures
        match r {
            Ok(v) => field(line@, tag@, m@) == Ok::<Seq<char>, ReadError>(v@),
            Err(e) => field(line@, tag@, m@) == Err::<Seq<char>, ReadError>(e),
        },
{
    if can_strip_xml(line, tag) {
        Ok(strip_xml(line, tag, m))
    } else {
        Err(ReadError::MalformedElement)
    }
}

proof fn lemma_push_views(v: Seq<String>, s: String)
    ensures
        views(v.push(s)) == views(v).push(s@),
{
    assert(views(v.push(s)) =~= views(v).push(s@));
}

/// Adds the value of a sense line to the list that its tag names.
fn add_to_sense(s: &mut Sense, tag: &str, v: String)
    ensures
        final(s)@ == sense_with(old(s)@, tag@, v@),
{
    let t = chars_of(tag);
    proof {
        lemma_push_views(old(s).pos@, v);
        lemma_push_views(old(s).gloss@, v);
        lemma_push_views(old(s).x_ref@, v);
        lemma_push_views(old(s).misc@, v);
    }
    if eq_lit(&t, "pos") {
        s.pos.push(v);
    } else if eq_lit(&t, "gloss") {
        s.gloss.push(v);
    } else if eq_lit(&t, "x_ref") {
        s.x_ref.push(v);
    } else if eq_lit(&t, "misc") {
        s.misc.push(v);
    }
}

/// The tag of a sense line that the reader keeps.
fn sense_tag_of(v: &Vec<char>) -> (r: Option<&'static str>)
    ensures
        match r {
            Some(t) => sense_tag(v@) == Some(t@),
            None => sense_tag(v@) is None,
        },
{
    if starts_with_lit(v, "<pos>") {
        Some("pos")
    } else if starts_with_lit(v, "<gloss>") {
        Some("gloss")
    } else if starts_with_lit(v, "<x_ref>") {
        Some("x_ref")
    } else if starts_with_lit(v, "<misc>") {
        Some("misc")
    } else {
        None
    }
}

/// The step inside an entry, on a trimmed line.
fn step_entry(e: Entry, line: &str, v: &Vec<char>, m: &EntityTable) -> (r: Result<
    (ReadState, Option<Entry>),
    ReadError,
>)
    requires
        v@ == line@,
    ensures
        step_view(r) == entry_step(e@, line@, m@),
{
    let mut e = e;
    if starts_with_lit(v, "<ent_seq>") {
        match read_field(line, "ent_seq", m) {
            Err(err) => Err(err),
            Ok(text) => {
                let tv = chars_of(text.as_str());
                match parse_i64(&tv) {
                    None => Err(ReadError::InvalidEntSeq),
                    Some(n) => {
                        e.ent_seq = n;
                        Ok((ReadState::InEntry(e), None))
                    },
                }
            },
        }
    } else if starts_with_lit(v, "<k_ele>") {
        Ok((ReadState::InKanji(e, Kanji::default()), None))
    } else if starts_with_lit(v, "<r_ele>") {
        Ok((ReadState::InReading(e, Reading::default()), None))
    } else if eq_lit(v, "<sense>") {
        Ok((ReadState::InSense(e, Sense::default()), None))
    } else if eq_lit(v, "</entry>") {
        Ok((ReadState::Between, Some(e)))
    } else {
        Ok((ReadState::InEntry(e), None))
    }
}

/// The step inside a kanji element, on a trimmed line.
fn step_kanji(e: Entry, k: Kanji, line: &str, v: &Vec<char>, m: &EntityTable) -> (r: Result<
    (ReadState, Option<Entry>),
    ReadError,
>)
    requires
        v@ == line@,
    ensures
        step_view(r) == kanji_step(e@, k@, line@, m@),
{
    let mut e = e;
    let mut k = k;
    if starts_with_lit(v, "<keb>") {
        match read_field(line, "keb", m) {
            Err(err) => Err(err),
            Ok(keb) => {
                k.keb = keb;
                Ok((ReadState::InKanji(e, k), None))
            },
        }
    } else if eq_lit(v, "</k_ele>") {
        let ghost before = e.k_ele@;
        e.k_ele.push(k);
        assert(kanji_views(e.k_ele@) =~= kanji_views(before).push(k@));
        Ok((ReadState::InEntry(e), None))
    } else {
        Ok((ReadState::InKanji(e, k), None))
    }
}

/// The step inside a reading element, on a trimmed line.
fn step_reading(e: Entry, r: Reading, line: &str, v: &Vec<char>, m: &EntityTable) -> (res: Result<
    (ReadState, Option<Entry>),
    ReadError,
>)
    requires
        v@ == line@,
    ensures
        step_view(res) == reading_step(e@, r@, line@, m@),
{
    let mut e = e;
    let mut r = r;
    if starts_with_lit(v, "<reb>") {
        match read_field(line, "reb", m) {
            Err(err) => Err(err),
            Ok(reb) => {
                r.reb = reb;
                Ok((ReadState::InReading(e, r), None))
            },
        }
    } else if starts_with_lit(v, "<re_pri>") || starts_with_lit(v, "<re_inf>") {
        Ok((ReadState::InReading(e, r), None))
    } else if eq_lit(v, "</r_ele>") {
        let ghost before = e.r_ele@;
        e.r_ele.push(r);
        assert(reading_views(e.r_ele@) =~= reading_views(before).push(r@));
        Ok((ReadState::InEntry(e), None))
    } else {
        Ok((ReadState::InReading(e, r), None))
    }
}

/// The step inside a sense, on a trimmed line.
fn step_sense(e: Entry, s: Sense, line: &str, v: &Vec<char>, m: &EntityTable) -> (r: Result<
    (ReadState, Option<Entry>),
    ReadError,
>)
    requires
        v@ == line@,
    ensures
        step_view(r) == sense_step(e@, s@, line@, m@),
{
    let mut e = e;
    let mut s = s;
    match sense_tag_of(v) {
        Some(tag) => match read_field(line, tag, m) {
            Err(err) => Err(err),
            Ok(text) => {
                add_to_sense(&mut s, tag, text);
                Ok((ReadState::InSense(e, s), None))
            },
        },
        None => {
            if eq_lit(v, "</sense>") {
                let ghost before = e.sense@;
                e.sense.push(s);
                assert(sense_views(e.sense@) =~= sense_views(before).push(s@));
                Ok((ReadState::InEntry(e), None))
            } else {
                Ok((ReadState::InSense(e, s), None))
            }
        },
    }
}

/// Reads one line of a JMdict body: trims it and moves the reader on,
/// giving the entry that the line closes, if any.
pub fn step(state: ReadState, raw: &str, entities: &EntityTable) -> (r: Result<
    (ReadState, Option<Entry>),
    ReadError,
>)
    ensures
        step_view(r) == spec_step(state@, raw@, entities@),
{
    let line = trim(raw);
    let v = chars_of(line);
    match state {
        ReadState::Between => {
            if eq_lit(&v, "<entry>") {
                Ok((ReadState::InEntry(Entry::default()), None))
            } else if eq_lit(&v, "</JMdict>") {
                Ok((ReadState::Done, None))
            } else {
                Err(ReadError::UnexpectedLine)
            }
        },
        ReadState::InEntry(e) => step_entry(e, line, &v, entities),
        ReadState::InKanji(e, k) => step_kanji(e, k, line, &v, entities),
        ReadState::InReading(e, r) => step_reading(e, r, line, &v, entities),
        ReadState::InSense(e, s) => step_sense(e, s, line, &v, entities),
        ReadState::Done => Ok((ReadState::Done, None)),
    }
}

/// The entry that a step completes, as a sequence of zero or one entries.
pub open spec fn completed(out: Option<EntryV>) -> Seq<EntryV> {
    match out {
        Some(e) => seq![e],
        None => Seq::empty(),
    }
}

/// The reader run over `lines` from index `i` in state `st`: the entries it
/// completes up to `</JMdict>`, or the index of the line where it fails and
/// why. Running out of lines before `</JMdict>` fails at `lines.len()`.
pub open spec fn run_from(
    st: ReadStateV,
    lines: Seq<Seq<char>>,
    i: int,
    m: Map<Seq<char>, Seq<char>>,
) -> Result<Seq<EntryV>, (int, ReadError)>
    decreases lines.len() - i,
{
    if st is Done {
        Ok(Seq::empty())
    } else if i < 0 || i >= lines.len() {
        Err((lines.len() as int, ReadError::UnexpectedEnd))
    } else {
        match spec_step(st, lines[i], m) {
            Err(e) => Err((i, e)),
            Ok((next, out)) => match run_from(next, lines, i + 1, m) {
                Ok(rest) => Ok(completed(out) + rest),
                Err(f) => Err(f),
            },
        }
    }
}

/// The body of a JMdict file read from line `start`.
pub open spec fn read_body(lines: Seq<Seq<char>>, start: int, m: Map<Seq<char>, Seq<char>>) -> Result<
    Seq<EntryV>,
    (int, ReadError),
> {
    run_from(ReadStateV::Between, lines, start, m)
}

/// `acc` before what a run gives, where it gives entries.
pub open spec fn after(acc: Seq<EntryV>, r: Result<Seq<EntryV>, (int, ReadError)>) -> Result<
    Seq<EntryV>,
    (int, ReadError),
> {
    match r {
        Ok(rest) => Ok(acc + rest),
        Err(f) => Err(f),
    }
}

/// Reads the entries of a JMdict body from line `start` up to `</JMdict>`,
/// expanding entities from `entities`.
pub fn read_entries(lines: &Vec<String>, start: usize, entities: &EntityTable) -> (r: Result<
    Vec<Entry>,
    ReadFailure,
>)
    ensures
        match r {
            Ok(es) => read_body(views(lines@), start as int, entities@) == Ok::<
                Seq<EntryV>,
                (int, ReadError),
            >(entry_views(es@)),
            Err(f) => read_body(views(lines@), start as int, entities@) == Err::<
                Seq<EntryV>,
                (int, ReadError),
            >((f.line as int, f.error)),
        },
{
    let ghost ls = views(lines@);
    let ghost m = entities@;
    let n = lines.len();
    let mut out: Vec<Entry> = Vec::new();
    let mut st = ReadState::Between;
    let mut i = start;
    assert(entry_views(out@) =~= Seq::<EntryV>::empty());
    assert(after(Seq::empty(), read_body(ls, start as int, m)) =~~= read_body(ls, start as int, m));
    while i < n && !st.is_done()
        invariant
            n == lines@.len(),
            ls == views(lines@),
            m == entities@,
            start <= i,
            read_body(ls, start as int, m) == after(entry_views(out@), run_from(st@, ls, i as int, m)),
        decreases n - i,
    {
        assert(ls[i as int] == lines@[i as int]@);
        let r = step(st, lines[i].as_str(), entities);
        match r {
            Err(e) => {
                return Err(ReadFailure { line: i, error: e });
            },
            Ok((next, done)) => {
                let ghost before = entry_views(out@);
                let ghost done_v = opt_view(done);
                match done {
                    Some(e) => {
                        out.push(e);
                    },
                    None => {},
                }
                assert(entry_views(out@) =~= before + completed(done_v));
                assert(after(before, run_from(st@, ls, i as int, m)) =~~= after(
                    entry_views(out@),
                    run_from(next@, ls, i + 1, m),
                )) by {
                    match run_from(next@, ls, i + 1, m) {
                        Ok(rest) => {
                            assert(before + (completed(done_v) + rest) =~= (before + completed(
                                done_v,
                            )) + rest);
                        },
                        Err(f) => {},
                    }
                }
                st = next;
            },
        }
        i = i + 1;
    }
    if st.is_done() {
        assert(after(entry_views(out@), Ok(Seq::empty())) =~~= Ok::<
            Seq<EntryV>,
            (int, ReadError),
        >(entry_views(out@)));
        Ok(out)
    } else {
        Err(ReadFailure { line: n, error: ReadError::UnexpectedEnd })
    }
}

} // verus!
