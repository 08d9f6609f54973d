//! What storing an entry writes to the dictionary database: the rows, in
//! the order in which they are inserted.
use vstd::prelude::*;

use crate::jmdict::{Entry, EntryV, KanjiV, ReadingV, SenseV};
use crate::text::views;

verus! {

/// One row to insert into the dictionary database.
#[derive(Debug, PartialEq, Eq)]
pub enum Statement {
    /// A row of `entries`: the entry's sequence number.
    InsertEntry(i64),
    /// A row of `japanese_readings`, unless the reading is there already.
    InsertReading(String),
    /// A row of `entries_readings`: entry and reading.
    LinkReading(i64, String),
    /// A row of `kanji`, unless the kanji writing is there already.
    InsertKanji(String),
    /// A row of `entries_kanji`: entry and kanji writing.
    LinkKanji(i64, String),
    /// A row of `sense` for the entry; it becomes the current sense.
    InsertSense(i64),
    /// A row of `eng`, unless the gloss is there already.
    InsertGloss(String),
    /// A row of `sense_eng`: the current sense and the gloss.
    LinkSenseGloss(String),
}

/// The contents of a `Statement`.
pub enum StatementV {
    InsertEntry(i64),
    InsertReading(Seq<char>),
    LinkReading(i64, Seq<char>),
    InsertKanji(Seq<char>),
    LinkKanji(i64, Seq<char>),
    InsertSense(i64),
    InsertGloss(Seq<char>),
    LinkSenseGloss(Seq<char>),
}

impl View for Statement {
    type V = StatementV;

    open spec fn view(&self) -> StatementV {
        match self {
            Statement::InsertEntry(n) => StatementV::InsertEntry(*n),
            Statement::InsertReading(s) => StatementV::InsertReading(s@),
            Statement::LinkReading(n, s) => StatementV::LinkReading(*n, s@),
            Statement::InsertKanji(s) => StatementV::InsertKanji(s@),
            Statement::LinkKanji(n, s) => StatementV::LinkKanji(*n, s@),
            Statement::InsertSense(n) => StatementV::InsertSense(*n),
            Statement::InsertGloss(s) => StatementV::InsertGloss(s@),
            Statement::LinkSenseGloss(s) => StatementV::LinkSenseGloss(s@),
        }
    }
}

/// The views of a sequence of statements.
pub open spec fn statement_views(v: Seq<Statement>) -> Seq<StatementV> {
    v.map_values(|s: Statement| s@)
}

/// For each reading: the reading, then its link to the entry.
pub open spec fn reading_rows(ent_seq: i64, rs: Seq<ReadingV>) -> Seq<StatementV>
    decreases rs.len(),
{
    if rs.len() == 0 {
        Seq::empty()
    } else {
        reading_rows(ent_seq, rs.drop_last()) + seq![
            StatementV::InsertReading(rs.last().reb),
            StatementV::LinkReading(ent_seq, rs.last().reb),
        ]
    }
}

/// For each kanji element: the writing, then its link to the entry.
pub open spec fn kanji_rows(ent_seq: i64, ks: Seq<KanjiV>) -> Seq<StatementV>
    decreases ks.len(),
{
    if ks.len() == 0 {
        Seq::empty()
    } else {
        kanji_rows(ent_seq, ks.drop_last()) + seq![
            StatementV::InsertKanji(ks.last().keb),
            StatementV::LinkKanji(ent_seq, ks.last().keb),
        ]
    }
}

/// For each gloss: the gloss, then its link to the current sense.
pub open spec fn gloss_rows(gs: Seq<Seq<char>>) -> Seq<StatementV>
    decreases gs.len(),
{
    if gs.len() == 0 {
        Seq::empty()
    } else {
        gloss_rows(gs.drop_last()) + seq![
            StatementV::InsertGloss(gs.last()),
            StatementV::LinkSenseGloss(gs.last()),
        ]
    }
}

/// For each sense: the sense, then the rows of its glosses.
pub open spec fn sense_rows(ent_seq: i64, ss: Seq<SenseV>) -> Seq<StatementV>
    decreases ss.len(),
{
    if ss.len() == 0 {
        Seq::empty()
    } else {
        sense_rows(ent_seq, ss.drop_last()) + seq![StatementV::InsertSense(ent_seq)] + gloss_rows(
            ss.last().gloss,
        )
    }
}

/// The rows that store an entry: the entry, its readings, its kanji
/// elements, then its senses with their glosses.
pub open spec fn entry_rows(e: EntryV) -> Seq<StatementV> {
    seq![StatementV::InsertEntry(e.ent_seq)] + reading_rows(e.ent_seq, e.r_ele) + kanji_rows(
        e.ent_seq,
        e.k_ele,
    ) + sense_rows(e.ent_seq, e.sense)
}

/// The glosses of one sense, appended to `out`.
fn push_gloss_rows(out: &mut Vec<Statement>, gloss: &Vec<String>)
    ensures
        statement_views(final(out)@) == statement_views(old(out)@) + gloss_rows(views(gloss@)),
{
    let ghost start = statement_views(out@);
    let mut i: usize = 0;
    assert(views(gloss@).take(0) =~= Seq::<Seq<char>>::empty());
    assert(start + gloss_rows(Seq::empty()) =~= start);
    while i < gloss.len()
        invariant
            i <= gloss@.len(),
            statement_views(out@) == start + gloss_rows(views(gloss@).take(i as int)),
        decreases gloss@.len() - i,
    {
        let ghost before = out@;
        let g = &gloss[i];
        out.push(Statement::InsertGloss(g.clone()));
        out.push(Statement::LinkSenseGloss(g.clone()));
        proof {
            assert(statement_views(out@) =~= statement_views(before) + seq![
                StatementV::InsertGloss(g@),
                StatementV::LinkSenseGloss(g@),
            ]);
            let t = views(gloss@).take(i + 1);
            assert(t.drop_last() =~= views(gloss@).take(i as int));
            assert(t.last() == g@);
            assert(statement_views(out@) =~= start + gloss_rows(t));
        }
        i = i + 1;
    }
    assert(views(gloss@).take(gloss@.len() as int) =~= views(gloss@));
}

/// The rows that store `entry`, in the order in which they are inserted.
pub fn insert_statements(entry: &Entry) -> (out: Vec<Statement>)
    ensures
        statement_views(out@) == entry_rows(entry@),
{
    let n = entry.ent_seq;
    let mut out: Vec<Statement> = Vec::new();
    out.push(Statement::InsertEntry(n));
    assert(statement_views(out@) =~= seq![StatementV::InsertEntry(n)]);
    let ghost base = statement_views(out@);
    let ghost rs = entry@.r_ele;
    let mut i: usize = 0;
    assert(rs.take(0) =~= Seq::<ReadingV>::empty());
    assert(base + reading_rows(n, Seq::empty()) =~= base);
    while i < entry.r_ele.len()
        invariant
            i <= entry.r_ele@.len(),
            n == entry.ent_seq,
            rs == entry@.r_ele,
            statement_views(out@) == base + reading_rows(n, rs.take(i as int)),
        decreases entry.r_ele@.len() - i,
    {
        let ghost before = out@;
        let reb = &entry.r_ele[i].reb;
        out.push(Statement::InsertReading(reb.clone()));
        out.push(Statement::LinkReading(n, reb.clone()));
        proof {
            assert(statement_views(out@) =~= statement_views(before) + seq![
                StatementV::InsertReading(reb@),
                StatementV::LinkReading(n, reb@),
            ]);
            let t = rs.take(i + 1);
            assert(t.drop_last() =~= rs.take(i as int));
            assert(t.last() == entry.r_ele@[i as int]@);
            assert(statement_views(out@) =~= base + reading_rows(n, t));
        }
        i = i + 1;
    }
    assert(rs.take(rs.len() as int) =~= rs);
    let ghost base2 = statement_views(out@);
    let ghost ks = entry@.k_ele;
    let mut j: usize = 0;
    assert(ks.take(0) =~= Seq::<KanjiV>::empty());
    assert(base2 + kanji_rows(n, Seq::empty()) =~= base2);
    while j < entry.k_ele.len()
        invariant
            j <= entry.k_ele@.len(),
            n == entry.ent_seq,
            ks == entry@.k_ele,
            statement_views(out@) == base2 + kanji_rows(n, ks.take(j as int)),
        decreases entry.k_ele@.len() - j,
    {
        let ghost before = out@;
        let keb = &entry.k_ele[j].keb;
        out.push(Statement::InsertKanji(keb.clone()));
        out.push(Statement::LinkKanji(n, keb.clone()));
        proof {
            assert(statement_views(out@) =~= statement_views(before) + seq![
                StatementV::InsertKanji(keb@),
                StatementV::LinkKanji(n, keb@),
            ]);
            let t = ks.take(j + 1);
            assert(t.drop_last() =~= ks.take(j as int));
            assert(t.last() == entry.k_ele@[j as int]@);
            assert(statement_views(out@) =~= base2 + kanji_rows(n, t));
        }
        j = j + 1;
    }
    assert(ks.take(ks.len() as int) =~= ks);
    let ghost base3 = statement_views(out@);
    let ghost ss = entry@.sense;
    let mut k: usize = 0;
    assert(ss.take(0) =~= Seq::<SenseV>::empty());
    assert(base3 + sense_rows(n, Seq::empty()) =~= base3);
    while k < entry.sense.len()
        invariant
            k <= entry.sense@.len(),
            n == entry.ent_seq,
            ss == entry@.sense,
            statement_views(out@) == base3 + sense_rows(n, ss.take(k as int)),
        decreases entry.sense@.len() - k,
    {
        let ghost before = statement_views(out@);
        out.push(Statement::InsertSense(n));
        assert(statement_views(out@) =~= before + seq![StatementV::InsertSense(n)]);
        push_gloss_rows(&mut out, &entry.sense[k].gloss);
        proof {
            let t = ss.take(k + 1);
            assert(t.drop_last() =~= ss.take(k as int));
            assert(t.last() == entry.sense@[k as int]@);
            assert(statement_views(out@) =~= base3 + sense_rows(n, t));
        }
        k = k + 1;
    }
    assert(ss.take(ss.len() as int) =~= ss);
    assert(statement_views(out@) =~= entry_rows(entry@));
    out
}

// ---------------------------------------------------------------------------
// Laws
// ---------------------------------------------------------------------------

/// Whether a sense row comes before index `j`.
pub open spec fn sense_before(rows: Seq<StatementV>, j: int) -> bool {
    exists|i: int| 0 <= i < j && (#[trigger] rows[i]) is InsertSense
}

/// Row `j` refers only to rows inserted before it, and to the entry `n`:
/// a link follows the insert of what it links, a gloss link comes after
/// some sense, and only the first row inserts the entry.
pub open spec fn refers_back(rows: Seq<StatementV>, j: int, n: i64) -> bool {
    match rows[j] {
        StatementV::InsertEntry(x) => j == 0 && x == n,
        StatementV::LinkReading(x, r) => x == n && j >= 1 && rows[j - 1] == StatementV::InsertReading(r),
        StatementV::LinkKanji(x, k) => x == n && j >= 1 && rows[j - 1] == StatementV::InsertKanji(k),
        StatementV::InsertSense(x) => x == n,
        StatementV::LinkSenseGloss(g) => j >= 1 && rows[j - 1] == StatementV::InsertGloss(g)
            && sense_before(rows, j),
        _ => true,
    }
}

/// Every row refers back.
pub open spec fn all_refer_back(rows: Seq<StatementV>, n: i64) -> bool {
    forall|j: int| 0 <= j < rows.len() ==> refers_back(rows, j, n)
}

/// Rows after the first: they refer back and none inserts the entry.
spec fn tail_ok(rows: Seq<StatementV>, n: i64) -> bool {
    forall|j: int|
        0 <= j < rows.len() ==> refers_back(rows, j, n) && !(#[trigger] rows[j] is InsertEntry)
}

/// Gloss rows: glosses and their links, each link right after its gloss.
spec fn gloss_ok(rows: Seq<StatementV>) -> bool {
    forall|j: int|
        0 <= j < rows.len() ==> match #[trigger] rows[j] {
            StatementV::InsertGloss(_) => true,
            StatementV::LinkSenseGloss(g) => j >= 1 && rows[j - 1] == StatementV::InsertGloss(g),
            _ => false,
        }
}

proof fn lemma_tail_concat(a: Seq<StatementV>, b: Seq<StatementV>, n: i64)
    requires
        tail_ok(a, n),
        tail_ok(b, n),
    ensures
        tail_ok(a + b, n),
{
    let c = a + b;
    assert forall|j: int| 0 <= j < c.len() implies refers_back(c, j, n) && !(#[trigger] c[j] is InsertEntry) by {
        if j < a.len() {
            assert(c[j] == a[j]);
            assert(refers_back(a, j, n));
            if j >= 1 {
                assert(c[j - 1] == a[j - 1]);
            }
            if a[j] is LinkSenseGloss {
                let i = choose|i: int| 0 <= i < j && (#[trigger] a[i]) is InsertSense;
                assert(c[i] == a[i]);
            }
        } else {
            let k = j - a.len();
            assert(c[j] == b[k]);
            assert(refers_back(b, k, n));
            if k >= 1 {
                assert(c[j - 1] == b[k - 1]);
            }
            if b[k] is LinkSenseGloss {
                let i = choose|i: int| 0 <= i < k && (#[trigger] b[i]) is InsertSense;
                assert(c[i + a.len()] == b[i]);
            }
        }
    }
}

proof fn lemma_gloss_rows(gs: Seq<Seq<char>>)
    ensures
        gloss_ok(gloss_rows(gs)),
    decreases gs.len(),
{
    if gs.len() > 0 {
        lemma_gloss_rows(gs.drop_last());
        let a = gloss_rows(gs.drop_last());
        let c = gloss_rows(gs);
        assert forall|j: int| 0 <= j < c.len() implies match #[trigger] c[j] {
            StatementV::InsertGloss(_) => true,
            StatementV::LinkSenseGloss(g) => j >= 1 && c[j - 1] == StatementV::InsertGloss(g),
            _ => false,
        } by {
            if j < a.len() {
                assert(c[j] == a[j]);
                if j >= 1 {
                    assert(c[j - 1] == a[j - 1]);
                }
            }
        }
    }
}

proof fn lemma_one_sense(n: i64, gs: Seq<Seq<char>>)
    ensures
        tail_ok(seq![StatementV::InsertSense(n)] + gloss_rows(gs), n),
{
    lemma_gloss_rows(gs);
    let g = gloss_rows(gs);
    let c = seq![StatementV::InsertSense(n)] + g;
    assert(c[0] is InsertSense);
    assert forall|j: int| 0 <= j < c.len() implies refers_back(c, j, n) && !(#[trigger] c[j] is InsertEntry) by {
        if j >= 1 {
            assert(c[j] == g[j - 1]);
            if j >= 2 {
                assert(c[j - 1] == g[j - 2]);
            }
            if c[j] is LinkSenseGloss {
                assert(sense_before(c, j));
            }
        }
    }
}

proof fn lemma_sense_rows(n: i64, ss: Seq<SenseV>)
    ensures
        tail_ok(sense_rows(n, ss), n),
    decreases ss.len(),
{
    if ss.len() > 0 {
        lemma_sense_rows(n, ss.drop_last());
        lemma_one_sense(n, ss.last().gloss);
        lemma_tail_concat(
            sense_rows(n, ss.drop_last()),
            seq![StatementV::InsertSense(n)] + gloss_rows(ss.last().gloss),
            n,
        );
        assert(sense_rows(n, ss) =~= sense_rows(n, ss.drop_last()) + (seq![StatementV::InsertSense(n)]
            + gloss_rows(ss.last().gloss)));
    }
}

proof fn lemma_reading_rows(n: i64, rs: Seq<ReadingV>)
    ensures
        tail_ok(reading_rows(n, rs), n),
    decreases rs.len(),
{
    if rs.len() > 0 {
        lemma_reading_rows(n, rs.drop_last());
        let pair = seq![
            StatementV::InsertReading(rs.last().reb),
            StatementV::LinkReading(n, rs.last().reb),
        ];
        assert(tail_ok(pair, n)) by {
            assert forall|j: int| 0 <= j < pair.len() implies refers_back(pair, j, n) && !(
            #[trigger] pair[j] is InsertEntry) by {}
        }
        lemma_tail_concat(reading_rows(n, rs.drop_last()), pair, n);
    }
}

proof fn lemma_kanji_rows(n: i64, ks: Seq<KanjiV>)
    ensures
        tail_ok(kanji_rows(n, ks), n),
    decreases ks.len(),
{
    if ks.len() > 0 {
        lemma_kanji_rows(n, ks.drop_last());
        let pair = seq![
            StatementV::InsertKanji(ks.last().keb),
            StatementV::LinkKanji(n, ks.last().keb),
        ];
        assert(tail_ok(pair, n)) by {
            assert forall|j: int| 0 <= j < pair.len() implies refers_back(pair, j, n) && !(
            #[trigger] pair[j] is InsertEntry) by {}
        }
        lemma_tail_concat(kanji_rows(n, ks.drop_last()), pair, n);
    }
}

/// The rows that store an entry can be inserted in order with every
/// reference in place: the entry row comes first, each link row right after
/// the row that it links, and each gloss link after a sense row; every row
/// names the entry's own sequence number.
pub proof fn law_rows_refer_back(e: EntryV)
    ensures
        entry_rows(e)[0] == StatementV::InsertEntry(e.ent_seq),
        all_refer_back(entry_rows(e), e.ent_seq),
{
    let n = e.ent_seq;
    lemma_reading_rows(n, e.r_ele);
    lemma_kanji_rows(n, e.k_ele);
    lemma_sense_rows(n, e.sense);
    lemma_tail_concat(reading_rows(n, e.r_ele), kanji_rows(n, e.k_ele), n);
    lemma_tail_concat(reading_rows(n, e.r_ele) + kanji_rows(n, e.k_ele), sense_rows(n, e.sense), n);
    let rest = reading_rows(n, e.r_ele) + kanji_rows(n, e.k_ele) + sense_rows(n, e.sense);
    let rows = entry_rows(e);
    assert(rows =~= seq![StatementV::InsertEntry(n)] + rest);
    assert forall|j: int| 0 <= j < rows.len() implies refers_back(rows, j, n) by {
        if j >= 1 {
            assert(rows[j] == rest[j - 1]);
            assert(refers_back(rest, j - 1, n));
            assert(!(rest[j - 1] is InsertEntry));
            if j >= 2 {
                assert(rows[j - 1] == rest[j - 2]);
            }
            if rest[j - 1] is LinkSenseGloss {
                let i = choose|i: int| 0 <= i < j - 1 && (#[trigger] rest[i]) is InsertSense;
                assert(rows[i + 1] == rest[i]);
            }
        }
    }
}

/// The number of rows that the first `i` senses take: each takes one row
/// for itself and two for each of its glosses.
pub open spec fn sense_offset(ss: Seq<SenseV>, i: int) -> int
    decreases i,
{
    if i <= 0 {
        0
    } else {
        sense_offset(ss, i - 1) + 1 + 2 * ss[i - 1].gloss.len()
    }
}

proof fn lemma_sense_offset_prefix(ss: Seq<SenseV>, t: Seq<SenseV>, i: int)
    requires
        0 <= i <= t.len(),
        t.len() <= ss.len(),
        forall|j: int| 0 <= j < t.len() ==> t[j] == ss[j],
    ensures
        sense_offset(t, i) == sense_offset(ss, i),
        sense_offset(ss, i) >= i,
    decreases i,
{
    if i > 0 {
        lemma_sense_offset_prefix(ss, t, i - 1);
        assert(t[i - 1] == ss[i - 1]);
    }
}

proof fn lemma_sense_offset_mono(ss: Seq<SenseV>, i: int, j: int)
    requires
        0 <= i <= j,
    ensures
        sense_offset(ss, i) + (j - i) <= sense_offset(ss, j),
    decreases j,
{
    if j > i {
        lemma_sense_offset_mono(ss, i, j - 1);
    }
}

proof fn lemma_reading_rows_layout(n: i64, rs: Seq<ReadingV>)
    ensures
        reading_rows(n, rs).len() == 2 * rs.len(),
        forall|j: int|
            0 <= j < rs.len() ==> reading_rows(n, rs)[2 * j] == StatementV::InsertReading(
                (#[trigger] rs[j]).reb,
            ) && reading_rows(n, rs)[2 * j + 1] == StatementV::LinkReading(n, rs[j].reb),
    decreases rs.len(),
{
    if rs.len() > 0 {
        let f = rs.drop_last();
        lemma_reading_rows_layout(n, f);
        assert forall|j: int| 0 <= j < rs.len() implies reading_rows(n, rs)[2 * j]
            == StatementV::InsertReading((#[trigger] rs[j]).reb) && reading_rows(n, rs)[2 * j + 1]
            == StatementV::LinkReading(n, rs[j].reb) by {
            if j < f.len() {
                assert(f[j] == rs[j]);
            }
        }
    }
}

proof fn lemma_kanji_rows_layout(n: i64, ks: Seq<KanjiV>)
    ensures
        kanji_rows(n, ks).len() == 2 * ks.len(),
        forall|j: int|
            0 <= j < ks.len() ==> kanji_rows(n, ks)[2 * j] == StatementV::InsertKanji(
                (#[trigger] ks[j]).keb,
            ) && kanji_rows(n, ks)[2 * j + 1] == StatementV::LinkKanji(n, ks[j].keb),
    decreases ks.len(),
{
    if ks.len() > 0 {
        let f = ks.drop_last();
        lemma_kanji_rows_layout(n, f);
        assert forall|j: int| 0 <= j < ks.len() implies kanji_rows(n, ks)[2 * j]
            == StatementV::InsertKanji((#[trigger] ks[j]).keb) && kanji_rows(n, ks)[2 * j + 1]
            == StatementV::LinkKanji(n, ks[j].keb) by {
            if j < f.len() {
                assert(f[j] == ks[j]);
            }
        }
    }
}

proof fn lemma_gloss_rows_layout(gs: Seq<Seq<char>>)
    ensures
        gloss_rows(gs).len() == 2 * gs.len(),
        forall|j: int|
            0 <= j < gs.len() ==> gloss_rows(gs)[2 * j] == StatementV::InsertGloss(#[trigger] gs[j])
                && gloss_rows(gs)[2 * j + 1] == StatementV::LinkSenseGloss(gs[j]),
    decreases gs.len(),
{
    if gs.len() > 0 {
        let f = gs.drop_last();
        lemma_gloss_rows_layout(f);
        assert forall|j: int| 0 <= j < gs.len() implies gloss_rows(gs)[2 * j]
            == StatementV::InsertGloss(#[trigger] gs[j]) && gloss_rows(gs)[2 * j + 1]
            == StatementV::LinkSenseGloss(gs[j]) by {
            if j < f.len() {
                assert(f[j] == gs[j]);
            }
        }
    }
}

proof fn lemma_sense_offset_step(ss: Seq<SenseV>, i: int)
    requires
        0 <= i,
    ensures
        sense_offset(ss, i + 1) == sense_offset(ss, i) + 1 + 2 * ss[i].gloss.len(),
{
}

#[verifier::rlimit(50)]
proof fn lemma_sense_rows_layout(n: i64, ss: Seq<SenseV>)
    ensures
        sense_rows(n, ss).len() == sense_offset(ss, ss.len() as int),
        forall|i: int|
            0 <= i < ss.len() ==> sense_rows(n, ss)[#[trigger] sense_offset(ss, i)]
                == StatementV::InsertSense(n),
        forall|i: int, g: int|
            #![trigger ss[i].gloss[g]]
            0 <= i < ss.len() && 0 <= g < ss[i].gloss.len() ==> sense_rows(n, ss)[sense_offset(ss, i)
                + 1 + 2 * g] == StatementV::InsertGloss(ss[i].gloss[g]) && sense_rows(n, ss)[sense_offset(
                ss,
                i,
            ) + 2 + 2 * g] == StatementV::LinkSenseGloss(ss[i].gloss[g]),
    decreases ss.len(),
{
    if ss.len() > 0 {
        let f = ss.drop_last();
        let last = ss.last();
        let li = f.len() as int;
        lemma_sense_rows_layout(n, f);
        lemma_gloss_rows_layout(last.gloss);
        assert forall|i: int| 0 <= i <= f.len() implies #[trigger] sense_offset(f, i) == sense_offset(
            ss,
            i,
        ) by {
            lemma_sense_offset_prefix(ss, f, i);
        }
        let fo = sense_offset(ss, li);
        lemma_sense_offset_step(ss, li);
        let a = sense_rows(n, f);
        let gl = gloss_rows(last.gloss);
        let rows = sense_rows(n, ss);
        assert(a.len() == fo);
        assert(rows == a + seq![StatementV::InsertSense(n)] + gl);
        assert(rows.len() == sense_offset(ss, ss.len() as int));
        assert forall|i: int| 0 <= i < ss.len() implies rows[#[trigger] sense_offset(ss, i)]
            == StatementV::InsertSense(n) by {
            if i < li {
                lemma_sense_offset_mono(ss, i + 1, li);
                lemma_sense_offset_step(ss, i);
                lemma_sense_offset_prefix(ss, ss, i);
                assert(sense_offset(f, i) == sense_offset(ss, i));
                assert(a[sense_offset(f, i)] == StatementV::InsertSense(n));
                assert(rows[sense_offset(ss, i)] == a[sense_offset(ss, i)]);
            } else {
                assert(rows[fo] == StatementV::InsertSense(n));
            }
        }
        assert forall|i: int, g: int|
            #![trigger ss[i].gloss[g]]
            0 <= i < ss.len() && 0 <= g < ss[i].gloss.len() implies rows[sense_offset(ss, i) + 1 + 2
                * g] == StatementV::InsertGloss(ss[i].gloss[g]) && rows[sense_offset(ss, i) + 2 + 2
                * g] == StatementV::LinkSenseGloss(ss[i].gloss[g]) by {
            if i < li {
                lemma_sense_offset_mono(ss, i + 1, li);
                lemma_sense_offset_step(ss, i);
                lemma_sense_offset_prefix(ss, ss, i);
                assert(f[i] == ss[i]);
                assert(f[i].gloss[g] == ss[i].gloss[g]);
                assert(sense_offset(f, i) == sense_offset(ss, i));
                assert(rows[sense_offset(ss, i) + 1 + 2 * g] == a[sense_offset(f, i) + 1 + 2 * g]);
                assert(rows[sense_offset(ss, i) + 2 + 2 * g] == a[sense_offset(f, i) + 2 + 2 * g]);
            } else {
                assert(ss[i] == last);
                assert(last.gloss[g] == ss[i].gloss[g]);
                assert(rows[fo + 1 + 2 * g] == gl[2 * g]);
                assert(rows[fo + 2 + 2 * g] == gl[2 * g + 1]);
            }
        }
    }
}

/// The rows of an entry, row by row: the entry; then, for each reading in
/// order, the reading and its link; then, for each kanji element in order,
/// the writing and its link; then, for each sense in order, the sense and,
/// for each of its glosses in order, the gloss and its link. No other row.
pub proof fn law_rows_layout(e: EntryV)
    ensures
        entry_rows(e).len() == 1 + 2 * e.r_ele.len() + 2 * e.k_ele.len() + sense_offset(
            e.sense,
            e.sense.len() as int,
        ),
        entry_rows(e)[0] == StatementV::InsertEntry(e.ent_seq),
        forall|j: int|
            0 <= j < e.r_ele.len() ==> entry_rows(e)[1 + 2 * j] == StatementV::InsertReading(
                (#[trigger] e.r_ele[j]).reb,
            ) && entry_rows(e)[2 + 2 * j] == StatementV::LinkReading(e.ent_seq, e.r_ele[j].reb),
        forall|j: int|
            0 <= j < e.k_ele.len() ==> entry_rows(e)[1 + 2 * e.r_ele.len() + 2 * j]
                == StatementV::InsertKanji((#[trigger] e.k_ele[j]).keb) && entry_rows(e)[2 + 2
                * e.r_ele.len() + 2 * j] == StatementV::LinkKanji(e.ent_seq, e.k_ele[j].keb),
        forall|i: int|
            0 <= i < e.sense.len() ==> entry_rows(e)[1 + 2 * e.r_ele.len() + 2 * e.k_ele.len()
                + #[trigger] sense_offset(e.sense, i)] == StatementV::InsertSense(e.ent_seq),
        forall|i: int, g: int|
            #![trigger e.sense[i].gloss[g]]
            0 <= i < e.sense.len() && 0 <= g < e.sense[i].gloss.len() ==> entry_rows(e)[1 + 2
                * e.r_ele.len() + 2 * e.k_ele.len() + sense_offset(e.sense, i) + 1 + 2 * g]
                == StatementV::InsertGloss(e.sense[i].gloss[g]) && entry_rows(e)[2 + 2 * e.r_ele.len()
                + 2 * e.k_ele.len() + sense_offset(e.sense, i) + 1 + 2 * g]
                == StatementV::LinkSenseGloss(e.sense[i].gloss[g]),
{
    let n = e.ent_seq;
    lemma_reading_rows_layout(n, e.r_ele);
    lemma_kanji_rows_layout(n, e.k_ele);
    lemma_sense_rows_layout(n, e.sense);
    let r = reading_rows(n, e.r_ele);
    let k = kanji_rows(n, e.k_ele);
    let ss = sense_rows(n, e.sense);
    let rows = entry_rows(e);
    assert(rows == seq![StatementV::InsertEntry(n)] + r + k + ss);
    let b = 1 + 2 * e.r_ele.len() + 2 * e.k_ele.len();
    assert forall|j: int| 0 <= j < e.r_ele.len() implies rows[1 + 2 * j] == StatementV::InsertReading(
        (#[trigger] e.r_ele[j]).reb,
    ) && rows[2 + 2 * j] == StatementV::LinkReading(n, e.r_ele[j].reb) by {
        assert(rows[1 + 2 * j] == r[2 * j]);
        assert(rows[2 + 2 * j] == r[2 * j + 1]);
    }
    assert forall|j: int| 0 <= j < e.k_ele.len() implies rows[1 + 2 * e.r_ele.len() + 2 * j]
        == StatementV::InsertKanji((#[trigger] e.k_ele[j]).keb) && rows[2 + 2 * e.r_ele.len() + 2
        * j] == StatementV::LinkKanji(n, e.k_ele[j].keb) by {
        assert(rows[1 + 2 * e.r_ele.len() + 2 * j] == k[2 * j]);
        assert(rows[2 + 2 * e.r_ele.len() + 2 * j] == k[2 * j + 1]);
    }
    assert forall|i: int| 0 <= i < e.sense.len() implies rows[b + #[trigger] sense_offset(e.sense, i)]
        == StatementV::InsertSense(n) by {
        lemma_sense_offset_mono(e.sense, i + 1, e.sense.len() as int);
        lemma_sense_offset_step(e.sense, i);
        lemma_sense_offset_prefix(e.sense, e.sense, i);
        assert(rows[b + sense_offset(e.sense, i)] == ss[sense_offset(e.sense, i)]);
    }
    assert forall|i: int, g: int|
        #![trigger e.sense[i].gloss[g]]
        0 <= i < e.sense.len() && 0 <= g < e.sense[i].gloss.len() implies rows[b + sense_offset(
            e.sense,
            i,
        ) + 1 + 2 * g] == StatementV::InsertGloss(e.sense[i].gloss[g]) && rows[b + 1 + sense_offset(
            e.sense,
            i,
        ) + 1 + 2 * g] == StatementV::LinkSenseGloss(e.sense[i].gloss[g]) by {
        lemma_sense_offset_mono(e.sense, i + 1, e.sense.len() as int);
        lemma_sense_offset_step(e.sense, i);
        lemma_sense_offset_prefix(e.sense, e.sense, i);
        assert(rows[b + sense_offset(e.sense, i) + 1 + 2 * g] == ss[sense_offset(e.sense, i) + 1 + 2 * g]);
        assert(rows[b + 1 + sense_offset(e.sense, i) + 1 + 2 * g] == ss[sense_offset(e.sense, i) + 2 + 2
            * g]);
    }
}

} // verus!
