//! Laws of the whole read: where it stops, and which lines cannot change
//! what reaches the database.
use vstd::prelude::*;

use crate::jmdict::{EntryV, KanjiV, ReadingV, SenseV};
use crate::reader::{
    after, completed, read_body, run_from, sense_tag, spec_step, ReadError, ReadStateV,
};
use crate::roundtrip::{lemma_compose, run_block};
use crate::store::{entry_rows, gloss_rows, kanji_rows, reading_rows, sense_rows, StatementV};
use crate::text::trimmed;
use crate::xml::strippable;

verus! {

// ---------------------------------------------------------------------------
// Where a read stops
// ---------------------------------------------------------------------------

/// A step never runs out of lines, and it only reaches the end of the file
/// from between entries, on a `</JMdict>` line.
proof fn lemma_step_facts(st: ReadStateV, line: Seq<char>, m: Map<Seq<char>, Seq<char>>)
    requires
        !(st is Done),
    ensures
        spec_step(st, line, m) matches Err(e) ==> e != ReadError::UnexpectedEnd,
        spec_step(st, line, m) matches Ok((next, _)) ==> (next is Done ==> st is Between
            && trimmed(line) == "</JMdict>"@),
{
}

proof fn lemma_stop(st: ReadStateV, lines: Seq<Seq<char>>, i: int, m: Map<Seq<char>, Seq<char>>)
    requires
        0 <= i <= lines.len(),
    ensures
        match run_from(st, lines, i, m) {
            Ok(es) => st is Done || exists|k: int|
                i <= k < lines.len() && trimmed(lines[k]) == "</JMdict>"@ && run_from(
                    st,
                    #[trigger] lines.take(k + 1),
                    i,
                    m,
                ) == Ok::<Seq<EntryV>, (int, ReadError)>(es),
            Err((j, e)) => i <= j <= lines.len() && (j == lines.len() <==> e
                == ReadError::UnexpectedEnd) && (j < lines.len() ==> run_from(
                st,
                lines.take(j + 1),
                i,
                m,
            ) == Err::<Seq<EntryV>, (int, ReadError)>((j, e))),
        },
    decreases lines.len() - i,
{
    if !(st is Done) && i < lines.len() {
        lemma_step_facts(st, lines[i], m);
        match spec_step(st, lines[i], m) {
            Err(e) => {
                let t = lines.take(i + 1);
                assert(t[i] == lines[i]);
            },
            Ok((next, out)) => {
                lemma_stop(next, lines, i + 1, m);
                match run_from(next, lines, i + 1, m) {
                    Ok(rest) => {
                        if next is Done {
                            let t = lines.take(i + 1);
                            assert(t[i] == lines[i]);
                            assert(t.len() == i + 1);
                            assert(run_from(next, t, i + 1, m) == Ok::<
                                Seq<EntryV>,
                                (int, ReadError),
                            >(Seq::empty()));
                            assert(rest == Seq::<EntryV>::empty());
                            assert(run_from(st, t, i, m) == Ok::<Seq<EntryV>, (int, ReadError)>(
                                completed(out) + rest,
                            ));
                        } else {
                            let k = choose|k: int|
                                i + 1 <= k < lines.len() && trimmed(lines[k]) == "</JMdict>"@
                                    && run_from(next, #[trigger] lines.take(k + 1), i + 1, m)
                                    == Ok::<Seq<EntryV>, (int, ReadError)>(rest);
                            let t = lines.take(k + 1);
                            assert(t[i] == lines[i]);
                            assert(run_from(st, t, i, m) == Ok::<Seq<EntryV>, (int, ReadError)>(
                                completed(out) + rest,
                            ));
                        }
                    },
                    Err((j, e)) => {
                        if j < lines.len() {
                            let t = lines.take(j + 1);
                            assert(t[i] == lines[i]);
                        }
                    },
                }
            },
        }
    }
}

/// A read stops where the body ends: with entries, at a `</JMdict>` line,
/// and the lines after that line are never read; or with a failure at the
/// index of a line, where nothing after that line was read, or at the end of
/// the lines, where they ran out before `</JMdict>`. So a whole read takes
/// each line at most once and always comes to an end.
pub proof fn law_read_stops(lines: Seq<Seq<char>>, start: int, m: Map<Seq<char>, Seq<char>>)
    requires
        0 <= start <= lines.len(),
    ensures
        match read_body(lines, start, m) {
            Ok(es) => exists|k: int|
                start <= k < lines.len() && trimmed(lines[k]) == "</JMdict>"@ && read_body(
                    #[trigger] lines.take(k + 1),
                    start,
                    m,
                ) == Ok::<Seq<EntryV>, (int, ReadError)>(es),
            Err((j, e)) => start <= j <= lines.len() && (j == lines.len() <==> e
                == ReadError::UnexpectedEnd) && (j < lines.len() ==> read_body(
                lines.take(j + 1),
                start,
                m,
            ) == Err::<Seq<EntryV>, (int, ReadError)>((j, e))),
        },
{
    lemma_stop(ReadStateV::Between, lines, start, m);
}

// ---------------------------------------------------------------------------
// What reaches the database
// ---------------------------------------------------------------------------

/// The parts of an entry that its rows are made of: its sequence number,
/// the writing of each kanji element, the reading of each reading element
/// and the glosses of each sense.
pub struct EntryKey {
    pub ent_seq: i64,
    pub kebs: Seq<Seq<char>>,
    pub rebs: Seq<Seq<char>>,
    pub glosses: Seq<Seq<Seq<char>>>,
}

/// The writings of kanji elements.
pub open spec fn kebs(ks: Seq<KanjiV>) -> Seq<Seq<char>> {
    ks.map_values(|k: KanjiV| k.keb)
}

/// The readings of reading elements.
pub open spec fn rebs(rs: Seq<ReadingV>) -> Seq<Seq<char>> {
    rs.map_values(|r: ReadingV| r.reb)
}

/// The glosses of senses.
pub open spec fn glosses(ss: Seq<SenseV>) -> Seq<Seq<Seq<char>>> {
    ss.map_values(|s: SenseV| s.gloss)
}

/// The parts of `e` that its rows are made of.
pub open spec fn entry_key(e: EntryV) -> EntryKey {
    EntryKey { ent_seq: e.ent_seq, kebs: kebs(e.k_ele), rebs: rebs(e.r_ele), glosses: glosses(e.sense) }
}

/// The parts of a reader state that can reach the database.
pub enum StateKey {
    Between,
    InEntry(EntryKey),
    InKanji(EntryKey, Seq<char>),
    InReading(EntryKey, Seq<char>),
    InSense(EntryKey, Seq<Seq<char>>),
    Done,
}

/// The parts of `st` that can reach the database.
pub open spec fn state_key(st: ReadStateV) -> StateKey {
    match st {
        ReadStateV::Between => StateKey::Between,
        ReadStateV::InEntry(e) => StateKey::InEntry(entry_key(e)),
        ReadStateV::InKanji(e, k) => StateKey::InKanji(entry_key(e), k.keb),
        ReadStateV::InReading(e, r) => StateKey::InReading(entry_key(e), r.reb),
        ReadStateV::InSense(e, s) => StateKey::InSense(entry_key(e), s.gloss),
        ReadStateV::Done => StateKey::Done,
    }
}

/// The rows that store each entry in turn.
pub open spec fn all_rows(es: Seq<EntryV>) -> Seq<StatementV>
    decreases es.len(),
{
    if es.len() == 0 {
        Seq::empty()
    } else {
        all_rows(es.drop_last()) + entry_rows(es.last())
    }
}

/// Two reads that store the same rows, or that fail in the same way.
pub open spec fn same_rows(
    r1: Result<Seq<EntryV>, (int, ReadError)>,
    r2: Result<Seq<EntryV>, (int, ReadError)>,
) -> bool {
    match (r1, r2) {
        (Ok(a), Ok(b)) => all_rows(a) == all_rows(b),
        (Err((_, e1)), Err((_, e2))) => e1 == e2,
        _ => false,
    }
}

/// A line that, read in state `st`, changes nothing that reaches the
/// database: inside an entry, a line that opens none of its parts; inside a
/// kanji element, any line but its writing and its end (such as `<ke_pri>`);
/// inside a reading element, any line but its reading and its end (such as
/// `<re_pri>`, `<re_inf>`, `<re_restr>`, `<re_nokanji/>`); inside a sense, a
/// readable `<pos>`, `<x_ref>` or `<misc>` line, or any line that the reader
/// passes over (such as `<s_inf>`, `<field>`, `<dial>`, `<lsource>` or a
/// `<gloss g_type=..>`) but the sense's end.
pub open spec fn ignorable(st: ReadStateV, raw: Seq<char>) -> bool {
    let line = trimmed(raw);
    match st {
        ReadStateV::InEntry(_) => {
            &&& !"<ent_seq>"@.is_prefix_of(line)
            &&& !"<k_ele>"@.is_prefix_of(line)
            &&& !"<r_ele>"@.is_prefix_of(line)
            &&& line != "<sense>"@
            &&& line != "</entry>"@
        },
        ReadStateV::InKanji(_, _) => !"<keb>"@.is_prefix_of(line) && line != "</k_ele>"@,
        ReadStateV::InReading(_, _) => !"<reb>"@.is_prefix_of(line) && line != "</r_ele>"@,
        ReadStateV::InSense(_, _) => match sense_tag(line) {
            Some(tag) => tag != "gloss"@ && strippable(line, tag),
            None => line != "</sense>"@,
        },
        _ => false,
    }
}

proof fn lemma_map_push<A, B>(s: Seq<A>, x: A, f: spec_fn(A) -> B)
    ensures
        s.push(x).map_values(f) == s.map_values(f).push(f(x)),
{
    assert(s.push(x).map_values(f) =~= s.map_values(f).push(f(x)));
}

/// An ignorable line completes no entry and keeps what can reach the
/// database.
proof fn lemma_ignorable(st: ReadStateV, raw: Seq<char>, m: Map<Seq<char>, Seq<char>>)
    requires
        ignorable(st, raw),
    ensures
        spec_step(st, raw, m) matches Ok((next, out)) && out is None && state_key(next)
            == state_key(st),
{
}

/// Equal keys, step by step.
proof fn lemma_step_key(s1: ReadStateV, s2: ReadStateV, line: Seq<char>, m: Map<Seq<char>, Seq<char>>)
    requires
        state_key(s1) == state_key(s2),
    ensures
        match (spec_step(s1, line, m), spec_step(s2, line, m)) {
            (Ok((n1, o1)), Ok((n2, o2))) => state_key(n1) == state_key(n2) && match (o1, o2) {
                (None, None) => true,
                (Some(a), Some(b)) => entry_key(a) == entry_key(b),
                _ => false,
            },
            (Err(e1), Err(e2)) => e1 == e2,
            _ => false,
        },
{
    match (s1, s2) {
        (ReadStateV::InKanji(e1, k1), ReadStateV::InKanji(e2, k2)) => {
            lemma_map_push(e1.k_ele, k1, |k: KanjiV| k.keb);
            lemma_map_push(e2.k_ele, k2, |k: KanjiV| k.keb);
        },
        (ReadStateV::InReading(e1, r1), ReadStateV::InReading(e2, r2)) => {
            lemma_map_push(e1.r_ele, r1, |r: ReadingV| r.reb);
            lemma_map_push(e2.r_ele, r2, |r: ReadingV| r.reb);
        },
        (ReadStateV::InSense(e1, x1), ReadStateV::InSense(e2, x2)) => {
            lemma_map_push(e1.sense, x1, |s: SenseV| s.gloss);
            lemma_map_push(e2.sense, x2, |s: SenseV| s.gloss);
        },
        _ => {},
    }
}

/// Entries with equal keys, one for one.
pub open spec fn keys_match(a: Seq<EntryV>, b: Seq<EntryV>) -> bool {
    a.len() == b.len() && forall|k: int| 0 <= k < a.len() ==> entry_key(#[trigger] a[k]) == entry_key(b[k])
}

/// Two runs that give entries with equal keys, or fail alike.
spec fn outcome_match(
    r1: Result<Seq<EntryV>, (int, ReadError)>,
    r2: Result<Seq<EntryV>, (int, ReadError)>,
) -> bool {
    match (r1, r2) {
        (Ok(a), Ok(b)) => keys_match(a, b),
        (Err(x), Err(y)) => x == y,
        _ => false,
    }
}

proof fn lemma_run_key(
    s1: ReadStateV,
    s2: ReadStateV,
    lines: Seq<Seq<char>>,
    i: int,
    m: Map<Seq<char>, Seq<char>>,
)
    requires
        state_key(s1) == state_key(s2),
    ensures
        outcome_match(run_from(s1, lines, i, m), run_from(s2, lines, i, m)),
    decreases lines.len() - i,
{
    if !(s1 is Done) && 0 <= i < lines.len() {
        lemma_step_key(s1, s2, lines[i], m);
        match (spec_step(s1, lines[i], m), spec_step(s2, lines[i], m)) {
            (Ok((n1, o1)), Ok((n2, o2))) => {
                lemma_run_key(n1, n2, lines, i + 1, m);
                match (run_from(n1, lines, i + 1, m), run_from(n2, lines, i + 1, m)) {
                    (Ok(a), Ok(b)) => {
                        let x = completed(o1) + a;
                        let y = completed(o2) + b;
                        assert forall|k: int| 0 <= k < x.len() implies entry_key(#[trigger] x[k])
                            == entry_key(y[k]) by {
                            if k >= completed(o1).len() {
                                assert(x[k] == a[k - completed(o1).len()]);
                                assert(y[k] == b[k - completed(o2).len()]);
                            }
                        }
                    },
                    _ => {},
                }
            },
            _ => {},
        }
    }
}

/// The run that reads the same lines from one place later.
spec fn shifted(r: Result<Seq<EntryV>, (int, ReadError)>, d: int) -> Result<
    Seq<EntryV>,
    (int, ReadError),
> {
    match r {
        Ok(x) => Ok(x),
        Err((p, e)) => Err((p + d, e)),
    }
}

proof fn lemma_run_shift(
    st: ReadStateV,
    a: Seq<Seq<char>>,
    i: int,
    b: Seq<Seq<char>>,
    j: int,
    m: Map<Seq<char>, Seq<char>>,
)
    requires
        0 <= i <= a.len(),
        0 <= j <= b.len(),
        a.skip(i) == b.skip(j),
    ensures
        run_from(st, a, i, m) == shifted(run_from(st, b, j, m), i - j),
    decreases a.len() - i,
{
    assert(a.skip(i).len() == a.len() - i && b.skip(j).len() == b.len() - j);
    if !(st is Done) && i < a.len() {
        assert(a.skip(i).len() == b.skip(j).len());
        assert(a[i] == a.skip(i)[0] && b[j] == b.skip(j)[0]);
        match spec_step(st, a[i], m) {
            Ok((next, _)) => {
                assert(a.skip(i + 1) =~= a.skip(i).drop_first());
                assert(b.skip(j + 1) =~= b.skip(j).drop_first());
                lemma_run_shift(next, a, i + 1, b, j + 1, m);
            },
            Err(_) => {},
        }
    }
}

proof fn lemma_all_rows_concat(a: Seq<EntryV>, b: Seq<EntryV>)
    ensures
        all_rows(a + b) == all_rows(a) + all_rows(b),
    decreases b.len(),
{
    if b.len() == 0 {
        assert(a + b =~= a);
        assert(all_rows(a) + Seq::<StatementV>::empty() =~= all_rows(a));
    } else {
        assert((a + b).drop_last() =~= a + b.drop_last());
        assert((a + b).last() == b.last());
        lemma_all_rows_concat(a, b.drop_last());
        assert(all_rows(a) + all_rows(b.drop_last()) + entry_rows(b.last()) =~= all_rows(a) + (
        all_rows(b.drop_last()) + entry_rows(b.last())));
    }
}

proof fn lemma_rebs_rows(n: i64, a: Seq<ReadingV>, b: Seq<ReadingV>)
    requires
        rebs(a) == rebs(b),
    ensures
        reading_rows(n, a) == reading_rows(n, b),
    decreases a.len(),
{
    assert(a.len() == rebs(a).len() && b.len() == rebs(b).len());
    if a.len() > 0 {
        assert(rebs(a.drop_last()) =~= rebs(b.drop_last())) by {
            assert forall|k: int| 0 <= k < a.len() - 1 implies rebs(a.drop_last())[k] == rebs(
                b.drop_last(),
            )[k] by {
                assert(rebs(a)[k] == rebs(b)[k]);
            }
        }
        assert(rebs(a)[a.len() - 1] == rebs(b)[a.len() - 1]);
        lemma_rebs_rows(n, a.drop_last(), b.drop_last());
    }
}

proof fn lemma_kebs_rows(n: i64, a: Seq<KanjiV>, b: Seq<KanjiV>)
    requires
        kebs(a) == kebs(b),
    ensures
        kanji_rows(n, a) == kanji_rows(n, b),
    decreases a.len(),
{
    assert(a.len() == kebs(a).len() && b.len() == kebs(b).len());
    if a.len() > 0 {
        assert(kebs(a.drop_last()) =~= kebs(b.drop_last())) by {
            assert forall|k: int| 0 <= k < a.len() - 1 implies kebs(a.drop_last())[k] == kebs(
                b.drop_last(),
            )[k] by {
                assert(kebs(a)[k] == kebs(b)[k]);
            }
        }
        assert(kebs(a)[a.len() - 1] == kebs(b)[a.len() - 1]);
        lemma_kebs_rows(n, a.drop_last(), b.drop_last());
    }
}

proof fn lemma_glosses_rows(n: i64, a: Seq<SenseV>, b: Seq<SenseV>)
    requires
        glosses(a) == glosses(b),
    ensures
        sense_rows(n, a) == sense_rows(n, b),
    decreases a.len(),
{
    assert(a.len() == glosses(a).len() && b.len() == glosses(b).len());
    if a.len() > 0 {
        assert(glosses(a.drop_last()) =~= glosses(b.drop_last())) by {
            assert forall|k: int| 0 <= k < a.len() - 1 implies glosses(a.drop_last())[k]
                == glosses(b.drop_last())[k] by {
                assert(glosses(a)[k] == glosses(b)[k]);
            }
        }
        assert(glosses(a)[a.len() - 1] == glosses(b)[a.len() - 1]);
        lemma_glosses_rows(n, a.drop_last(), b.drop_last());
    }
}

/// The rows of an entry are made of its key alone.
proof fn lemma_key_rows(x: EntryV, y: EntryV)
    requires
        entry_key(x) == entry_key(y),
    ensures
        entry_rows(x) == entry_rows(y),
{
    lemma_rebs_rows(x.ent_seq, x.r_ele, y.r_ele);
    lemma_kebs_rows(x.ent_seq, x.k_ele, y.k_ele);
    lemma_glosses_rows(x.ent_seq, x.sense, y.sense);
}

proof fn lemma_keys_rows(a: Seq<EntryV>, b: Seq<EntryV>)
    requires
        keys_match(a, b),
    ensures
        all_rows(a) == all_rows(b),
    decreases a.len(),
{
    if a.len() > 0 {
        assert(keys_match(a.drop_last(), b.drop_last())) by {
            assert forall|k: int| 0 <= k < a.len() - 1 implies entry_key(
                #[trigger] a.drop_last()[k],
            ) == entry_key(b.drop_last()[k]) by {
                assert(entry_key(a[k]) == entry_key(b[k]));
            }
        }
        lemma_keys_rows(a.drop_last(), b.drop_last());
        assert(entry_key(a[a.len() - 1]) == entry_key(b[a.len() - 1]));
        lemma_key_rows(a.last(), b.last());
    }
}

/// Adding a line that is ignorable where it stands (see `ignorable`) to a
/// body changes neither whether it reads nor the rows that store what it
/// reads: the read with the line stores the same rows as the read without
/// it, or both fail in the same way. Applied once per line, this holds for
/// any number of such lines.
pub proof fn law_ignored_line_keeps_rows(
    lines: Seq<Seq<char>>,
    start: int,
    i: int,
    x: Seq<char>,
    m: Map<Seq<char>, Seq<char>>,
)
    requires
        0 <= start <= i <= lines.len(),
        run_block(ReadStateV::Between, lines.subrange(start, i), m) matches Some((st, _)) && ignorable(
            st,
            x,
        ),
    ensures
        same_rows(
            read_body(lines.take(i) + seq![x] + lines.skip(i), start, m),
            read_body(lines, start, m),
        ),
{
    let lines2 = lines.take(i) + seq![x] + lines.skip(i);
    let (st, os) = run_block(ReadStateV::Between, lines.subrange(start, i), m).unwrap();
    assert(lines2.subrange(start, i) =~= lines.subrange(start, i));
    lemma_compose(ReadStateV::Between, lines, start, i - start, m);
    lemma_compose(ReadStateV::Between, lines2, start, i - start, m);
    lemma_ignorable(st, x, m);
    let (next, out) = spec_step(st, x, m).unwrap();
    assert(lines2[i] == x);
    assert(lines2.skip(i + 1) =~= lines.skip(i));
    lemma_run_shift(next, lines2, i + 1, lines, i, m);
    lemma_run_key(next, st, lines, i, m);
    match (run_from(next, lines, i, m), run_from(st, lines, i, m)) {
        (Ok(a), Ok(b)) => {
            assert(run_from(st, lines2, i, m) == Ok::<Seq<EntryV>, (int, ReadError)>(
                Seq::<EntryV>::empty() + a,
            ));
            assert(Seq::<EntryV>::empty() + a =~= a);
            lemma_keys_rows(a, b);
            lemma_all_rows_concat(os, a);
            lemma_all_rows_concat(os, b);
        },
        _ => {},
    }
}

/// Whether the line at `p` is ignorable in the state that the reader,
/// started at `start`, has reached when it comes to that line.
pub open spec fn ignorable_at(lines: Seq<Seq<char>>, start: int, p: int, m: Map<Seq<char>, Seq<char>>) -> bool {
    &&& start <= p < lines.len()
    &&& run_block(ReadStateV::Between, lines.subrange(start, p), m) matches Some((st, _)) && ignorable(
        st,
        lines[p],
    )
}

/// `lines` without the line at `p`.
pub open spec fn without_line(lines: Seq<Seq<char>>, p: int) -> Seq<Seq<char>> {
    lines.take(p) + lines.skip(p + 1)
}

/// `lines` without the lines at the increasing positions `added`.
pub open spec fn without_lines(lines: Seq<Seq<char>>, added: Seq<int>) -> Seq<Seq<char>>
    decreases added.len(),
{
    if added.len() == 0 {
        lines
    } else {
        without_lines(without_line(lines, added.last()), added.drop_last())
    }
}

proof fn lemma_same_rows_trans(
    a: Result<Seq<EntryV>, (int, ReadError)>,
    b: Result<Seq<EntryV>, (int, ReadError)>,
    c: Result<Seq<EntryV>, (int, ReadError)>,
)
    requires
        same_rows(a, b),
        same_rows(b, c),
    ensures
        same_rows(a, c),
{
}

/// A body with any number of added lines, each ignorable in the state where
/// it stands (`ignorable_at`), reads like the body without them: both store
/// the same rows, or both fail in the same way. `added` lists the positions
/// of the added lines, in increasing order.
pub proof fn law_ignored_lines_keep_rows(
    full: Seq<Seq<char>>,
    start: int,
    added: Seq<int>,
    m: Map<Seq<char>, Seq<char>>,
)
    requires
        0 <= start <= full.len(),
        forall|a: int, b: int| 0 <= a < b < added.len() ==> added[a] < added[b],
        forall|k: int| 0 <= k < added.len() ==> ignorable_at(full, start, #[trigger] added[k], m),
    ensures
        same_rows(read_body(full, start, m), read_body(without_lines(full, added), start, m)),
    decreases added.len(),
{
    if added.len() == 0 {
        match read_body(full, start, m) {
            Ok(a) => {},
            Err(_) => {},
        }
    } else {
        let p = added.last();
        assert(ignorable_at(full, start, added[added.len() - 1], m));
        let rest = without_line(full, p);
        let front = added.drop_last();
        assert forall|k: int| 0 <= k < front.len() implies ignorable_at(rest, start, #[trigger] front[k], m) by {
            let q = front[k];
            assert(q == added[k]);
            assert(ignorable_at(full, start, added[k], m));
            assert(q < p);
            assert(rest.subrange(start, q) =~= full.subrange(start, q));
            assert(rest[q] == full[q]);
        }
        assert forall|a: int, b: int| 0 <= a < b < front.len() implies front[a] < front[b] by {
            assert(front[a] == added[a] && front[b] == added[b]);
        }
        law_ignored_lines_keep_rows(rest, start, front, m);
        assert(rest.subrange(start, p) =~= full.subrange(start, p));
        assert(rest.take(p) + seq![full[p]] + rest.skip(p) =~= full);
        law_ignored_line_keeps_rows(rest, start, p, full[p], m);
        lemma_same_rows_trans(
            read_body(full, start, m),
            read_body(rest, start, m),
            read_body(without_lines(rest, front), start, m),
        );
    }
}

} // verus!
