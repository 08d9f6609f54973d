//! What the reader gives back of a written document: entries written out as
//! JMdict lines are read back as the same entries.
use vstd::prelude::*;

use crate::entities::{entity_lines, header, insert_all, law_header_reads_definitions, writable_def};
use crate::jmdict::{
    empty_entry, empty_kanji, empty_reading, empty_sense, EntryV, KanjiV, ReadingV, SenseV,
};
use crate::reader::{
    after, completed, read_body, run_from, sense_with, spec_step, with_ent_seq, with_kanji,
    with_keb, with_reading, with_reb, with_sense, ReadError, ReadStateV,
};
use crate::text::{
    digit_char, i64_text, is_ws, law_parse_i64_text, law_trim_keeps_trimmed, decimal, trimmed,
};
use crate::xml::{element, law_strip_element, open_tag};

verus! {

// ---------------------------------------------------------------------------
// Writing entries as lines
// ---------------------------------------------------------------------------

/// One inline element per value.
pub open spec fn elements(tag: Seq<char>, vs: Seq<Seq<char>>) -> Seq<Seq<char>>
    decreases vs.len(),
{
    if vs.len() == 0 {
        Seq::empty()
    } else {
        elements(tag, vs.drop_last()) + seq![element(tag, vs.last())]
    }
}

/// The lines of a kanji element.
pub open spec fn kanji_lines(k: KanjiV) -> Seq<Seq<char>> {
    seq!["<k_ele>"@, element("keb"@, k.keb), "</k_ele>"@]
}

/// The lines of a reading element.
pub open spec fn reading_lines(r: ReadingV) -> Seq<Seq<char>> {
    seq!["<r_ele>"@, element("reb"@, r.reb), "</r_ele>"@]
}

/// The lines of a sense: its parts of speech, glosses, cross-references and
/// notes.
pub open spec fn sense_lines(s: SenseV) -> Seq<Seq<char>> {
    seq!["<sense>"@] + elements("pos"@, s.pos) + elements("gloss"@, s.gloss) + elements(
        "x_ref"@,
        s.x_ref,
    ) + elements("misc"@, s.misc) + seq!["</sense>"@]
}

/// The lines of each kanji element in turn.
pub open spec fn kanji_block(ks: Seq<KanjiV>) -> Seq<Seq<char>>
    decreases ks.len(),
{
    if ks.len() == 0 {
        Seq::empty()
    } else {
        kanji_block(ks.drop_last()) + kanji_lines(ks.last())
    }
}

/// The lines of each reading element in turn.
pub open spec fn reading_block(rs: Seq<ReadingV>) -> Seq<Seq<char>>
    decreases rs.len(),
{
    if rs.len() == 0 {
        Seq::empty()
    } else {
        reading_block(rs.drop_last()) + reading_lines(rs.last())
    }
}

/// The lines of each sense in turn.
pub open spec fn sense_block(ss: Seq<SenseV>) -> Seq<Seq<char>>
    decreases ss.len(),
{
    if ss.len() == 0 {
        Seq::empty()
    } else {
        sense_block(ss.drop_last()) + sense_lines(ss.last())
    }
}

/// The lines of an entry.
pub open spec fn entry_lines(e: EntryV) -> Seq<Seq<char>> {
    seq!["<entry>"@, element("ent_seq"@, i64_text(e.ent_seq))] + kanji_block(e.k_ele)
        + reading_block(e.r_ele) + sense_block(e.sense) + seq!["</entry>"@]
}

/// The lines of each entry in turn, then `</JMdict>`.
pub open spec fn body_lines(es: Seq<EntryV>) -> Seq<Seq<char>> {
    entries_block(es) + seq!["</JMdict>"@]
}

/// The lines of each entry in turn.
pub open spec fn entries_block(es: Seq<EntryV>) -> Seq<Seq<char>>
    decreases es.len(),
{
    if es.len() == 0 {
        Seq::empty()
    } else {
        entries_block(es.drop_last()) + entry_lines(es.last())
    }
}

// ---------------------------------------------------------------------------
// What the reader keeps
// ---------------------------------------------------------------------------

/// Text without `&`, which the reader keeps as it is.
pub open spec fn plain(t: Seq<char>) -> bool {
    !t.contains('&')
}

/// Texts without `&`.
pub open spec fn all_plain(ts: Seq<Seq<char>>) -> bool {
    forall|i: int| 0 <= i < ts.len() ==> plain(#[trigger] ts[i])
}

/// A kanji element of which the reader keeps everything: a plain writing
/// and nothing else.
pub open spec fn readable_kanji(k: KanjiV) -> bool {
    &&& plain(k.keb)
    &&& k.ke_inf.len() == 0
    &&& k.ke_pri.len() == 0
}

/// A reading element of which the reader keeps everything.
pub open spec fn readable_reading(r: ReadingV) -> bool {
    &&& plain(r.reb)
    &&& r.r_inf.len() == 0
    &&& r.re_pri.len() == 0
    &&& r.re_restr.len() == 0
    &&& r.re_nokanji.len() == 0
}

/// A sense of which the reader keeps everything: plain parts of speech,
/// glosses, cross-references and notes, and nothing else.
pub open spec fn readable_sense(s: SenseV) -> bool {
    &&& all_plain(s.pos)
    &&& all_plain(s.gloss)
    &&& all_plain(s.x_ref)
    &&& all_plain(s.misc)
    &&& s.stagk.len() == 0
    &&& s.stagr.len() == 0
    &&& s.ant.len() == 0
    &&& s.field.len() == 0
    &&& s.s_inf.len() == 0
    &&& s.lsource.len() == 0
    &&& s.dial.len() == 0
    &&& s.example.len() == 0
}

/// An entry of which the reader keeps everything.
pub open spec fn readable_entry(e: EntryV) -> bool {
    &&& forall|i: int| 0 <= i < e.k_ele.len() ==> readable_kanji(#[trigger] e.k_ele[i])
    &&& forall|i: int| 0 <= i < e.r_ele.len() ==> readable_reading(#[trigger] e.r_ele[i])
    &&& forall|i: int| 0 <= i < e.sense.len() ==> readable_sense(#[trigger] e.sense[i])
}

// ---------------------------------------------------------------------------
// Running the reader over a block of lines
// ---------------------------------------------------------------------------

/// The reader run over all of `block` from `st`, without passing
/// `</JMdict>` before the block's end: the state it ends in and the entries
/// it completes, or nothing where it fails.
pub open spec fn run_block(st: ReadStateV, block: Seq<Seq<char>>, m: Map<Seq<char>, Seq<char>>) -> Option<
    (ReadStateV, Seq<EntryV>),
>
    decreases block.len(),
{
    if block.len() == 0 {
        Some((st, Seq::empty()))
    } else if st is Done {
        None
    } else {
        match spec_step(st, block[0], m) {
            Err(_) => None,
            Ok((next, out)) => match run_block(next, block.drop_first(), m) {
                Some((fin, outs)) => Some((fin, completed(out) + outs)),
                None => None,
            },
        }
    }
}

/// Running over a block that succeeds, then on from its end, is running
/// from its start.
pub proof fn lemma_compose(
    st: ReadStateV,
    lines: Seq<Seq<char>>,
    i: int,
    k: int,
    m: Map<Seq<char>, Seq<char>>,
)
    requires
        0 <= i,
        0 <= k,
        i + k <= lines.len(),
        run_block(st, lines.subrange(i, i + k), m) is Some,
    ensures
        ({
            let (fin, outs) = run_block(st, lines.subrange(i, i + k), m).unwrap();
            run_from(st, lines, i, m) == after(outs, run_from(fin, lines, i + k, m))
        }),
    decreases k,
{
    let block = lines.subrange(i, i + k);
    if k == 0 {
        match run_from(st, lines, i, m) {
            Ok(r) => {
                assert(Seq::<EntryV>::empty() + r =~= r);
            },
            Err(_) => {},
        }
    } else {
        assert(block[0] == lines[i]);
        assert(block.drop_first() =~= lines.subrange(i + 1, i + k));
        let (next, out) = spec_step(st, lines[i], m).unwrap();
        lemma_compose(next, lines, i + 1, k - 1, m);
        let (fin, outs) = run_block(next, lines.subrange(i + 1, i + k), m).unwrap();
        match run_from(fin, lines, i + k, m) {
            Ok(r) => {
                assert(completed(out) + (outs + r) =~= (completed(out) + outs) + r);
            },
            Err(_) => {},
        }
    }
}

proof fn lemma_concat(
    st: ReadStateV,
    a: Seq<Seq<char>>,
    b: Seq<Seq<char>>,
    m: Map<Seq<char>, Seq<char>>,
)
    ensures
        run_block(st, a + b, m) == match run_block(st, a, m) {
            Some((s1, o1)) => match run_block(s1, b, m) {
                Some((s2, o2)) => Some((s2, o1 + o2)),
                None => None,
            },
            None => None,
        },
    decreases a.len(),
{
    if a.len() == 0 {
        assert(a + b =~= b);
        match run_block(st, b, m) {
            Some((s2, o2)) => {
                assert(Seq::<EntryV>::empty() + o2 =~= o2);
            },
            None => {},
        }
    } else {
        assert((a + b)[0] == a[0]);
        assert((a + b).drop_first() =~= a.drop_first() + b);
        if !(st is Done) {
            match spec_step(st, a[0], m) {
                Ok((next, out)) => {
                    lemma_concat(next, a.drop_first(), b, m);
                    match run_block(next, a.drop_first(), m) {
                        Some((s1, o1)) => match run_block(s1, b, m) {
                            Some((s2, o2)) => {
                                assert(completed(out) + (o1 + o2) =~= (completed(out) + o1) + o2);
                            },
                            None => {},
                        },
                        None => {},
                    }
                },
                Err(_) => {},
            }
        }
    }
}

/// A run over two blocks that each succeed.
proof fn lemma_concat_ok(
    st: ReadStateV,
    a: Seq<Seq<char>>,
    b: Seq<Seq<char>>,
    m: Map<Seq<char>, Seq<char>>,
    s1: ReadStateV,
    o1: Seq<EntryV>,
    s2: ReadStateV,
    o2: Seq<EntryV>,
)
    requires
        run_block(st, a, m) == Some((s1, o1)),
        run_block(s1, b, m) == Some((s2, o2)),
    ensures
        run_block(st, a + b, m) == Some((s2, o1 + o2)),
{
    lemma_concat(st, a, b, m);
}

/// A run over one line.
proof fn lemma_one(st: ReadStateV, line: Seq<char>, m: Map<Seq<char>, Seq<char>>)
    requires
        !(st is Done),
        spec_step(st, line, m) is Ok,
    ensures
        run_block(st, seq![line], m) == Some(
            (spec_step(st, line, m).unwrap().0, completed(spec_step(st, line, m).unwrap().1)),
        ),
{
    let (next, out) = spec_step(st, line, m).unwrap();
    assert(seq![line].drop_first() =~= Seq::<Seq<char>>::empty());
    assert(run_block(next, seq![line].drop_first(), m) == Some((next, Seq::<EntryV>::empty())));
    assert(seq![line][0] == line);
    assert(completed(out) + Seq::<EntryV>::empty() =~= completed(out));
}

// ---------------------------------------------------------------------------
// Facts about the lines
// ---------------------------------------------------------------------------

/// The literals that the reader compares lines with, character by character.
pub proof fn lemma_literals()
    ensures
        "<entry>"@ =~= seq!['<', 'e', 'n', 't', 'r', 'y', '>'],
        "</entry>"@ =~= seq!['<', '/', 'e', 'n', 't', 'r', 'y', '>'],
        "</JMdict>"@ =~= seq!['<', '/', 'J', 'M', 'd', 'i', 'c', 't', '>'],
        "<ent_seq>"@ =~= seq!['<', 'e', 'n', 't', '_', 's', 'e', 'q', '>'],
        "ent_seq"@ =~= seq!['e', 'n', 't', '_', 's', 'e', 'q'],
        "<k_ele>"@ =~= seq!['<', 'k', '_', 'e', 'l', 'e', '>'],
        "</k_ele>"@ =~= seq!['<', '/', 'k', '_', 'e', 'l', 'e', '>'],
        "<keb>"@ =~= seq!['<', 'k', 'e', 'b', '>'],
        "keb"@ =~= seq!['k', 'e', 'b'],
        "<r_ele>"@ =~= seq!['<', 'r', '_', 'e', 'l', 'e', '>'],
        "</r_ele>"@ =~= seq!['<', '/', 'r', '_', 'e', 'l', 'e', '>'],
        "<reb>"@ =~= seq!['<', 'r', 'e', 'b', '>'],
        "reb"@ =~= seq!['r', 'e', 'b'],
        "<re_pri>"@ =~= seq!['<', 'r', 'e', '_', 'p', 'r', 'i', '>'],
        "<re_inf>"@ =~= seq!['<', 'r', 'e', '_', 'i', 'n', 'f', '>'],
        "<sense>"@ =~= seq!['<', 's', 'e', 'n', 's', 'e', '>'],
        "</sense>"@ =~= seq!['<', '/', 's', 'e', 'n', 's', 'e', '>'],
        "<pos>"@ =~= seq!['<', 'p', 'o', 's', '>'],
        "pos"@ =~= seq!['p', 'o', 's'],
        "<gloss>"@ =~= seq!['<', 'g', 'l', 'o', 's', 's', '>'],
        "gloss"@ =~= seq!['g', 'l', 'o', 's', 's'],
        "<x_ref>"@ =~= seq!['<', 'x', '_', 'r', 'e', 'f', '>'],
        "x_ref"@ =~= seq!['x', '_', 'r', 'e', 'f'],
        "<misc>"@ =~= seq!['<', 'm', 'i', 's', 'c', '>'],
        "misc"@ =~= seq!['m', 'i', 's', 'c'],
{
    reveal_strlit("<entry>");
    reveal_strlit("</entry>");
    reveal_strlit("</JMdict>");
    reveal_strlit("<ent_seq>");
    reveal_strlit("ent_seq");
    reveal_strlit("<k_ele>");
    reveal_strlit("</k_ele>");
    reveal_strlit("<keb>");
    reveal_strlit("keb");
    reveal_strlit("<r_ele>");
    reveal_strlit("</r_ele>");
    reveal_strlit("<reb>");
    reveal_strlit("reb");
    reveal_strlit("<re_pri>");
    reveal_strlit("<re_inf>");
    reveal_strlit("<sense>");
    reveal_strlit("</sense>");
    reveal_strlit("<pos>");
    reveal_strlit("pos");
    reveal_strlit("<gloss>");
    reveal_strlit("gloss");
    reveal_strlit("<x_ref>");
    reveal_strlit("x_ref");
    reveal_strlit("<misc>");
    reveal_strlit("misc");
}

/// Two texts that differ at `k`: neither is the other, and the first does
/// not start the second.
pub proof fn lemma_differ_at(a: Seq<char>, b: Seq<char>, k: int)
    requires
        0 <= k < a.len(),
        k < b.len(),
        a[k] != b[k],
    ensures
        !a.is_prefix_of(b),
        a != b,
{
    if a.is_prefix_of(b) {
        assert(b.subrange(0, a.len() as int)[k] == b[k]);
    }
}

/// A line that starts with `<` and ends with `>` is its own trim.
proof fn lemma_bracketed_trimmed(line: Seq<char>)
    requires
        line.len() > 0,
        line[0] == '<',
        line.last() == '>',
    ensures
        trimmed(line) == line,
{
    assert(!is_ws('<'));
    assert(!is_ws('>'));
    law_trim_keeps_trimmed(line);
}

/// The first characters of an element of `tag`, and its trim.
proof fn lemma_element_shape(tag: Seq<char>, text: Seq<char>)
    requires
        tag.len() > 0,
    ensures
        element(tag, text)[0] == '<',
        element(tag, text)[1] == tag[0],
        element(tag, text).len() > 1,
        open_tag(tag).is_prefix_of(element(tag, text)),
        trimmed(element(tag, text)) == element(tag, text),
{
    let line = element(tag, text);
    assert(line.subrange(0, open_tag(tag).len() as int) =~= open_tag(tag));
    assert(line.last() == '>');
    lemma_bracketed_trimmed(line);
}

/// The text of an `i64` has no `&`.
proof fn lemma_i64_text_plain(x: i64)
    ensures
        plain(i64_text(x)),
{
    let t = i64_text(x);
    let d = if x < 0 {
        decimal((-x) as nat)
    } else {
        decimal(x as nat)
    };
    lemma_decimal_plain(if x < 0 {
        (-x) as nat
    } else {
        x as nat
    });
    if t.contains('&') {
        let i = choose|i: int| 0 <= i < t.len() && t[i] == '&';
        if x < 0 {
            assert(i > 0);
            assert(t[i] == d[i - 1]);
        } else {
            assert(t[i] == d[i]);
        }
    }
}

proof fn lemma_decimal_plain(n: nat)
    ensures
        plain(decimal(n)),
    decreases n,
{
    assert(digit_char(n % 10) as int == n % 10 + 48);
    if n >= 10 {
        lemma_decimal_plain(n / 10);
        let d = decimal(n);
        if d.contains('&') {
            let i = choose|i: int| 0 <= i < d.len() && d[i] == '&';
            if i < d.len() - 1 {
                assert(d[i] == decimal(n / 10)[i]);
            }
        }
    } else {
        assert(digit_char(n) as int == n + 48);
    }
}

// ---------------------------------------------------------------------------
// Reading blocks back
// ---------------------------------------------------------------------------

/// `e` with more kanji elements.
spec fn with_kanjis(e: EntryV, ks: Seq<KanjiV>) -> EntryV {
    EntryV { k_ele: e.k_ele + ks, ..e }
}

/// `e` with more reading elements.
spec fn with_readings(e: EntryV, rs: Seq<ReadingV>) -> EntryV {
    EntryV { r_ele: e.r_ele + rs, ..e }
}

/// `e` with more senses.
spec fn with_senses(e: EntryV, ss: Seq<SenseV>) -> EntryV {
    EntryV { sense: e.sense + ss, ..e }
}

proof fn lemma_kanji_lines(e: EntryV, k: KanjiV, m: Map<Seq<char>, Seq<char>>)
    requires
        readable_kanji(k),
    ensures
        run_block(ReadStateV::InEntry(e), kanji_lines(k), m) == Some(
            (ReadStateV::InEntry(with_kanji(e, k)), Seq::<EntryV>::empty()),
        ),
{
    lemma_literals();
    let l0 = "<k_ele>"@;
    let l1 = element("keb"@, k.keb);
    let l2 = "</k_ele>"@;
    lemma_bracketed_trimmed(l0);
    lemma_bracketed_trimmed(l2);
    lemma_element_shape("keb"@, k.keb);
    assert(open_tag("keb"@) =~= "<keb>"@);
    assert(!"keb"@.contains('&')) by {
        if "keb"@.contains('&') {
            let i = choose|i: int| 0 <= i < 3 && "keb"@[i] == '&';
        }
    }
    law_strip_element("keb"@, k.keb, m);
    assert(!"<ent_seq>"@.is_prefix_of(l0));
    let k1 = with_keb(empty_kanji(), k.keb);
    assert(k1 == k) by {
        assert(k1.ke_inf =~= k.ke_inf);
        assert(k1.ke_pri =~= k.ke_pri);
    }
    lemma_differ_at("<keb>"@, l2, 1);
    lemma_one(ReadStateV::InEntry(e), l0, m);
    lemma_one(ReadStateV::InKanji(e, empty_kanji()), l1, m);
    lemma_one(ReadStateV::InKanji(e, k), l2, m);
    assert(kanji_lines(k) =~= seq![l0] + seq![l1] + seq![l2]);
    lemma_concat_ok(
        ReadStateV::InEntry(e),
        seq![l0],
        seq![l1],
        m,
        ReadStateV::InKanji(e, empty_kanji()),
        Seq::empty(),
        ReadStateV::InKanji(e, k),
        Seq::empty(),
    );
    lemma_concat_ok(
        ReadStateV::InEntry(e),
        seq![l0] + seq![l1],
        seq![l2],
        m,
        ReadStateV::InKanji(e, k),
        Seq::<EntryV>::empty() + Seq::<EntryV>::empty(),
        ReadStateV::InEntry(with_kanji(e, k)),
        Seq::empty(),
    );
    assert(Seq::<EntryV>::empty() + Seq::<EntryV>::empty() + Seq::<EntryV>::empty()
        =~= Seq::<EntryV>::empty());
}

proof fn lemma_reading_lines(e: EntryV, r: ReadingV, m: Map<Seq<char>, Seq<char>>)
    requires
        readable_reading(r),
    ensures
        run_block(ReadStateV::InEntry(e), reading_lines(r), m) == Some(
            (ReadStateV::InEntry(with_reading(e, r)), Seq::<EntryV>::empty()),
        ),
{
    lemma_literals();
    let l0 = "<r_ele>"@;
    let l1 = element("reb"@, r.reb);
    let l2 = "</r_ele>"@;
    lemma_bracketed_trimmed(l0);
    lemma_bracketed_trimmed(l2);
    lemma_element_shape("reb"@, r.reb);
    assert(open_tag("reb"@) =~= "<reb>"@);
    assert(!"reb"@.contains('&')) by {
        if "reb"@.contains('&') {
            let i = choose|i: int| 0 <= i < 3 && "reb"@[i] == '&';
        }
    }
    law_strip_element("reb"@, r.reb, m);
    assert(!"<ent_seq>"@.is_prefix_of(l0));
    lemma_differ_at("<k_ele>"@, l0, 1);
    let r1 = with_reb(empty_reading(), r.reb);
    assert(r1 == r) by {
        assert(r1.r_inf =~= r.r_inf);
        assert(r1.re_pri =~= r.re_pri);
        assert(r1.re_restr =~= r.re_restr);
        assert(r1.re_nokanji =~= r.re_nokanji);
    }
    lemma_differ_at("<reb>"@, l2, 1);
    lemma_differ_at("<re_pri>"@, l2, 1);
    lemma_differ_at("<re_inf>"@, l2, 1);
    lemma_one(ReadStateV::InEntry(e), l0, m);
    lemma_one(ReadStateV::InReading(e, empty_reading()), l1, m);
    lemma_one(ReadStateV::InReading(e, r), l2, m);
    assert(reading_lines(r) =~= seq![l0] + seq![l1] + seq![l2]);
    lemma_concat_ok(
        ReadStateV::InEntry(e),
        seq![l0],
        seq![l1],
        m,
        ReadStateV::InReading(e, empty_reading()),
        Seq::empty(),
        ReadStateV::InReading(e, r),
        Seq::empty(),
    );
    lemma_concat_ok(
        ReadStateV::InEntry(e),
        seq![l0] + seq![l1],
        seq![l2],
        m,
        ReadStateV::InReading(e, r),
        Seq::<EntryV>::empty() + Seq::<EntryV>::empty(),
        ReadStateV::InEntry(with_reading(e, r)),
        Seq::empty(),
    );
    assert(Seq::<EntryV>::empty() + Seq::<EntryV>::empty() + Seq::<EntryV>::empty()
        =~= Seq::<EntryV>::empty());
}

proof fn lemma_kanji_block(e: EntryV, ks: Seq<KanjiV>, m: Map<Seq<char>, Seq<char>>)
    requires
        forall|i: int| 0 <= i < ks.len() ==> readable_kanji(#[trigger] ks[i]),
    ensures
        run_block(ReadStateV::InEntry(e), kanji_block(ks), m) == Some(
            (ReadStateV::InEntry(with_kanjis(e, ks)), Seq::<EntryV>::empty()),
        ),
    decreases ks.len(),
{
    if ks.len() == 0 {
        assert(with_kanjis(e, ks) == e) by {
            assert(e.k_ele + ks =~= e.k_ele);
        }
    } else {
        let front = ks.drop_last();
        assert forall|i: int| 0 <= i < front.len() implies readable_kanji(#[trigger] front[i]) by {
            assert(front[i] == ks[i]);
        }
        lemma_kanji_block(e, front, m);
        assert(readable_kanji(ks[ks.len() - 1]));
        lemma_kanji_lines(with_kanjis(e, front), ks.last(), m);
        lemma_concat_ok(
            ReadStateV::InEntry(e),
            kanji_block(front),
            kanji_lines(ks.last()),
            m,
            ReadStateV::InEntry(with_kanjis(e, front)),
            Seq::empty(),
            ReadStateV::InEntry(with_kanji(with_kanjis(e, front), ks.last())),
            Seq::empty(),
        );
        assert(with_kanji(with_kanjis(e, front), ks.last()) == with_kanjis(e, ks)) by {
            assert((e.k_ele + front).push(ks.last()) =~= e.k_ele + ks);
        }
        assert(Seq::<EntryV>::empty() + Seq::<EntryV>::empty() =~= Seq::<EntryV>::empty());
    }
}

proof fn lemma_reading_block(e: EntryV, rs: Seq<ReadingV>, m: Map<Seq<char>, Seq<char>>)
    requires
        forall|i: int| 0 <= i < rs.len() ==> readable_reading(#[trigger] rs[i]),
    ensures
        run_block(ReadStateV::InEntry(e), reading_block(rs), m) == Some(
            (ReadStateV::InEntry(with_readings(e, rs)), Seq::<EntryV>::empty()),
        ),
    decreases rs.len(),
{
    if rs.len() == 0 {
        assert(with_readings(e, rs) == e) by {
            assert(e.r_ele + rs =~= e.r_ele);
        }
    } else {
        let front = rs.drop_last();
        assert forall|i: int| 0 <= i < front.len() implies readable_reading(#[trigger] front[i]) by {
            assert(front[i] == rs[i]);
        }
        lemma_reading_block(e, front, m);
        assert(readable_reading(rs[rs.len() - 1]));
        lemma_reading_lines(with_readings(e, front), rs.last(), m);
        lemma_concat_ok(
            ReadStateV::InEntry(e),
            reading_block(front),
            reading_lines(rs.last()),
            m,
            ReadStateV::InEntry(with_readings(e, front)),
            Seq::empty(),
            ReadStateV::InEntry(with_reading(with_readings(e, front), rs.last())),
            Seq::empty(),
        );
        assert(with_reading(with_readings(e, front), rs.last()) == with_readings(e, rs)) by {
            assert((e.r_ele + front).push(rs.last()) =~= e.r_ele + rs);
        }
        assert(Seq::<EntryV>::empty() + Seq::<EntryV>::empty() =~= Seq::<EntryV>::empty());
    }
}

/// `s` with more values in the list that `tag` names.
spec fn sense_extend(s: SenseV, tag: Seq<char>, vs: Seq<Seq<char>>) -> SenseV {
    if tag == "pos"@ {
        SenseV { pos: s.pos + vs, ..s }
    } else if tag == "gloss"@ {
        SenseV { gloss: s.gloss + vs, ..s }
    } else if tag == "x_ref"@ {
        SenseV { x_ref: s.x_ref + vs, ..s }
    } else {
        SenseV { misc: s.misc + vs, ..s }
    }
}

/// The tags of the sense lines that the reader keeps.
spec fn is_sense_tag(tag: Seq<char>) -> bool {
    tag == "pos"@ || tag == "gloss"@ || tag == "x_ref"@ || tag == "misc"@
}

proof fn lemma_sense_element(tag: Seq<char>, v: Seq<char>, m: Map<Seq<char>, Seq<char>>)
    requires
        is_sense_tag(tag),
        plain(v),
    ensures
        trimmed(element(tag, v)) == element(tag, v),
        crate::reader::sense_tag(element(tag, v)) == Some(tag),
        crate::reader::field(element(tag, v), tag, m) == Ok::<Seq<char>, ReadError>(v),
{
    lemma_literals();
    let line = element(tag, v);
    lemma_element_shape(tag, v);
    assert(!tag.contains('&')) by {
        if tag.contains('&') {
            let i = choose|i: int| 0 <= i < tag.len() && tag[i] == '&';
        }
    }
    law_strip_element(tag, v, m);
    if tag == "pos"@ {
        assert(open_tag(tag) =~= "<pos>"@);
    } else if tag == "gloss"@ {
        assert(open_tag(tag) =~= "<gloss>"@);
        lemma_differ_at("<pos>"@, line, 1);
    } else if tag == "x_ref"@ {
        assert(open_tag(tag) =~= "<x_ref>"@);
        lemma_differ_at("<pos>"@, line, 1);
        lemma_differ_at("<gloss>"@, line, 1);
    } else {
        assert(open_tag(tag) =~= "<misc>"@);
        lemma_differ_at("<pos>"@, line, 1);
        lemma_differ_at("<gloss>"@, line, 1);
        lemma_differ_at("<x_ref>"@, line, 1);
    }
}

proof fn lemma_sense_extend_push(s: SenseV, tag: Seq<char>, front: Seq<Seq<char>>, v: Seq<char>)
    requires
        is_sense_tag(tag),
    ensures
        sense_with(sense_extend(s, tag, front), tag, v) == sense_extend(s, tag, front.push(v)),
{
    lemma_literals();
    assert((s.pos + front).push(v) =~= s.pos + front.push(v));
    assert((s.gloss + front).push(v) =~= s.gloss + front.push(v));
    assert((s.x_ref + front).push(v) =~= s.x_ref + front.push(v));
    assert((s.misc + front).push(v) =~= s.misc + front.push(v));
}

proof fn lemma_elements(
    e: EntryV,
    s: SenseV,
    tag: Seq<char>,
    vs: Seq<Seq<char>>,
    m: Map<Seq<char>, Seq<char>>,
)
    requires
        is_sense_tag(tag),
        all_plain(vs),
    ensures
        run_block(ReadStateV::InSense(e, s), elements(tag, vs), m) == Some(
            (ReadStateV::InSense(e, sense_extend(s, tag, vs)), Seq::<EntryV>::empty()),
        ),
    decreases vs.len(),
{
    lemma_literals();
    if vs.len() == 0 {
        assert(sense_extend(s, tag, vs) == s) by {
            assert(s.pos + vs =~= s.pos);
            assert(s.gloss + vs =~= s.gloss);
            assert(s.x_ref + vs =~= s.x_ref);
            assert(s.misc + vs =~= s.misc);
        }
    } else {
        let front = vs.drop_last();
        let v = vs.last();
        assert(all_plain(front)) by {
            assert forall|i: int| 0 <= i < front.len() implies plain(#[trigger] front[i]) by {
                assert(front[i] == vs[i]);
            }
        }
        assert(plain(vs[vs.len() - 1]));
        lemma_elements(e, s, tag, front, m);
        let mid = sense_extend(s, tag, front);
        lemma_sense_element(tag, v, m);
        lemma_one(ReadStateV::InSense(e, mid), element(tag, v), m);
        lemma_sense_extend_push(s, tag, front, v);
        assert(front.push(v) =~= vs);
        lemma_concat_ok(
            ReadStateV::InSense(e, s),
            elements(tag, front),
            seq![element(tag, v)],
            m,
            ReadStateV::InSense(e, mid),
            Seq::empty(),
            ReadStateV::InSense(e, sense_extend(s, tag, vs)),
            Seq::empty(),
        );
        assert(Seq::<EntryV>::empty() + Seq::<EntryV>::empty() =~= Seq::<EntryV>::empty());
    }
}

proof fn lemma_sense_lines(e: EntryV, s: SenseV, m: Map<Seq<char>, Seq<char>>)
    requires
        readable_sense(s),
    ensures
        run_block(ReadStateV::InEntry(e), sense_lines(s), m) == Some(
            (ReadStateV::InEntry(with_sense(e, s)), Seq::<EntryV>::empty()),
        ),
{
    lemma_literals();
    let open = "<sense>"@;
    let close = "</sense>"@;
    let none = Seq::<EntryV>::empty();
    assert(none + none =~= none);
    lemma_bracketed_trimmed(open);
    lemma_bracketed_trimmed(close);
    assert(!"<ent_seq>"@.is_prefix_of(open));
    lemma_differ_at("<k_ele>"@, open, 1);
    lemma_differ_at("<r_ele>"@, open, 1);
    lemma_one(ReadStateV::InEntry(e), open, m);
    let s0 = empty_sense();
    let s1 = sense_extend(s0, "pos"@, s.pos);
    let s2 = sense_extend(s1, "gloss"@, s.gloss);
    let s3 = sense_extend(s2, "x_ref"@, s.x_ref);
    let s4 = sense_extend(s3, "misc"@, s.misc);
    lemma_elements(e, s0, "pos"@, s.pos, m);
    lemma_elements(e, s1, "gloss"@, s.gloss, m);
    lemma_elements(e, s2, "x_ref"@, s.x_ref, m);
    lemma_elements(e, s3, "misc"@, s.misc, m);
    assert(s4 == s) by {
        assert(s4.pos =~= s.pos);
        assert(s4.gloss =~= s.gloss);
        assert(s4.x_ref =~= s.x_ref);
        assert(s4.misc =~= s.misc);
        assert(s4.stagk =~= s.stagk);
        assert(s4.stagr =~= s.stagr);
        assert(s4.ant =~= s.ant);
        assert(s4.field =~= s.field);
        assert(s4.s_inf =~= s.s_inf);
        assert(s4.lsource =~= s.lsource);
        assert(s4.dial =~= s.dial);
        assert(s4.example =~= s.example);
    }
    lemma_differ_at("<pos>"@, close, 1);
    lemma_differ_at("<gloss>"@, close, 1);
    lemma_differ_at("<x_ref>"@, close, 1);
    lemma_differ_at("<misc>"@, close, 1);
    lemma_one(ReadStateV::InSense(e, s), close, m);
    let a0 = seq![open];
    let a1 = a0 + elements("pos"@, s.pos);
    let a2 = a1 + elements("gloss"@, s.gloss);
    let a3 = a2 + elements("x_ref"@, s.x_ref);
    let a4 = a3 + elements("misc"@, s.misc);
    lemma_concat_ok(
        ReadStateV::InEntry(e),
        a0,
        elements("pos"@, s.pos),
        m,
        ReadStateV::InSense(e, s0),
        none,
        ReadStateV::InSense(e, s1),
        none,
    );
    lemma_concat_ok(
        ReadStateV::InEntry(e),
        a1,
        elements("gloss"@, s.gloss),
        m,
        ReadStateV::InSense(e, s1),
        none,
        ReadStateV::InSense(e, s2),
        none,
    );
    lemma_concat_ok(
        ReadStateV::InEntry(e),
        a2,
        elements("x_ref"@, s.x_ref),
        m,
        ReadStateV::InSense(e, s2),
        none,
        ReadStateV::InSense(e, s3),
        none,
    );
    lemma_concat_ok(
        ReadStateV::InEntry(e),
        a3,
        elements("misc"@, s.misc),
        m,
        ReadStateV::InSense(e, s3),
        none,
        ReadStateV::InSense(e, s),
        none,
    );
    lemma_concat_ok(
        ReadStateV::InEntry(e),
        a4,
        seq![close],
        m,
        ReadStateV::InSense(e, s),
        none,
        ReadStateV::InEntry(with_sense(e, s)),
        none,
    );
    assert(a4 + seq![close] =~= sense_lines(s));
}

proof fn lemma_sense_block(e: EntryV, ss: Seq<SenseV>, m: Map<Seq<char>, Seq<char>>)
    requires
        forall|i: int| 0 <= i < ss.len() ==> readable_sense(#[trigger] ss[i]),
    ensures
        run_block(ReadStateV::InEntry(e), sense_block(ss), m) == Some(
            (ReadStateV::InEntry(with_senses(e, ss)), Seq::<EntryV>::empty()),
        ),
    decreases ss.len(),
{
    if ss.len() == 0 {
        assert(with_senses(e, ss) == e) by {
            assert(e.sense + ss =~= e.sense);
        }
    } else {
        let front = ss.drop_last();
        assert forall|i: int| 0 <= i < front.len() implies readable_sense(#[trigger] front[i]) by {
            assert(front[i] == ss[i]);
        }
        lemma_sense_block(e, front, m);
        assert(readable_sense(ss[ss.len() - 1]));
        lemma_sense_lines(with_senses(e, front), ss.last(), m);
        lemma_concat_ok(
            ReadStateV::InEntry(e),
            sense_block(front),
            sense_lines(ss.last()),
            m,
            ReadStateV::InEntry(with_senses(e, front)),
            Seq::empty(),
            ReadStateV::InEntry(with_sense(with_senses(e, front), ss.last())),
            Seq::empty(),
        );
        assert(with_sense(with_senses(e, front), ss.last()) == with_senses(e, ss)) by {
            assert((e.sense + front).push(ss.last()) =~= e.sense + ss);
        }
        assert(Seq::<EntryV>::empty() + Seq::<EntryV>::empty() =~= Seq::<EntryV>::empty());
    }
}

proof fn lemma_entry_lines(e: EntryV, m: Map<Seq<char>, Seq<char>>)
    requires
        readable_entry(e),
    ensures
        run_block(ReadStateV::Between, entry_lines(e), m) == Some((ReadStateV::Between, seq![e])),
{
    lemma_literals();
    let none = Seq::<EntryV>::empty();
    assert(none + none =~= none);
    let open = "<entry>"@;
    let close = "</entry>"@;
    let seq_line = element("ent_seq"@, i64_text(e.ent_seq));
    lemma_bracketed_trimmed(open);
    lemma_bracketed_trimmed(close);
    lemma_one(ReadStateV::Between, open, m);
    let e0 = empty_entry();
    lemma_element_shape("ent_seq"@, i64_text(e.ent_seq));
    assert(open_tag("ent_seq"@) =~= "<ent_seq>"@);
    assert(!"ent_seq"@.contains('&')) by {
        if "ent_seq"@.contains('&') {
            let i = choose|i: int| 0 <= i < 7 && "ent_seq"@[i] == '&';
        }
    }
    lemma_i64_text_plain(e.ent_seq);
    law_strip_element("ent_seq"@, i64_text(e.ent_seq), m);
    law_parse_i64_text(e.ent_seq);
    let e1 = with_ent_seq(e0, e.ent_seq);
    lemma_one(ReadStateV::InEntry(e0), seq_line, m);
    lemma_kanji_block(e1, e.k_ele, m);
    let e2 = with_kanjis(e1, e.k_ele);
    lemma_reading_block(e2, e.r_ele, m);
    let e3 = with_readings(e2, e.r_ele);
    lemma_sense_block(e3, e.sense, m);
    let e4 = with_senses(e3, e.sense);
    assert(e4 == e) by {
        assert(e4.k_ele =~= e.k_ele);
        assert(e4.r_ele =~= e.r_ele);
        assert(e4.sense =~= e.sense);
    }
    assert(!"<ent_seq>"@.is_prefix_of(close));
    lemma_differ_at("<k_ele>"@, close, 1);
    lemma_differ_at("<r_ele>"@, close, 1);
    lemma_differ_at("<sense>"@, close, 1);
    lemma_one(ReadStateV::InEntry(e), close, m);
    assert(completed(Some(e)) =~= seq![e]);
    let a0 = seq![open];
    let a1 = a0 + seq![seq_line];
    let a2 = a1 + kanji_block(e.k_ele);
    let a3 = a2 + reading_block(e.r_ele);
    let a4 = a3 + sense_block(e.sense);
    lemma_concat_ok(
        ReadStateV::Between,
        a0,
        seq![seq_line],
        m,
        ReadStateV::InEntry(e0),
        none,
        ReadStateV::InEntry(e1),
        none,
    );
    lemma_concat_ok(
        ReadStateV::Between,
        a1,
        kanji_block(e.k_ele),
        m,
        ReadStateV::InEntry(e1),
        none,
        ReadStateV::InEntry(e2),
        none,
    );
    lemma_concat_ok(
        ReadStateV::Between,
        a2,
        reading_block(e.r_ele),
        m,
        ReadStateV::InEntry(e2),
        none,
        ReadStateV::InEntry(e3),
        none,
    );
    lemma_concat_ok(
        ReadStateV::Between,
        a3,
        sense_block(e.sense),
        m,
        ReadStateV::InEntry(e3),
        none,
        ReadStateV::InEntry(e),
        none,
    );
    lemma_concat_ok(
        ReadStateV::Between,
        a4,
        seq![close],
        m,
        ReadStateV::InEntry(e),
        none,
        ReadStateV::Between,
        seq![e],
    );
    assert(none + seq![e] =~= seq![e]);
    assert(a4 + seq![close] =~= entry_lines(e));
}

proof fn lemma_entries_block(es: Seq<EntryV>, m: Map<Seq<char>, Seq<char>>)
    requires
        forall|i: int| 0 <= i < es.len() ==> readable_entry(#[trigger] es[i]),
    ensures
        run_block(ReadStateV::Between, entries_block(es), m) == Some((ReadStateV::Between, es)),
    decreases es.len(),
{
    if es.len() == 0 {
        assert(es =~= Seq::<EntryV>::empty());
    } else {
        let front = es.drop_last();
        assert forall|i: int| 0 <= i < front.len() implies readable_entry(#[trigger] front[i]) by {
            assert(front[i] == es[i]);
        }
        lemma_entries_block(front, m);
        assert(readable_entry(es[es.len() - 1]));
        lemma_entry_lines(es.last(), m);
        lemma_concat_ok(
            ReadStateV::Between,
            entries_block(front),
            entry_lines(es.last()),
            m,
            ReadStateV::Between,
            front,
            ReadStateV::Between,
            seq![es.last()],
        );
        assert(front + seq![es.last()] =~= es);
    }
}

// ---------------------------------------------------------------------------
// Laws
// ---------------------------------------------------------------------------

/// Entries written out as the lines of a JMdict body, wherever those lines
/// stand, are read back as the same entries, whatever the entity table.
pub proof fn law_read_back(
    es: Seq<EntryV>,
    lines: Seq<Seq<char>>,
    start: int,
    m: Map<Seq<char>, Seq<char>>,
)
    requires
        forall|i: int| 0 <= i < es.len() ==> readable_entry(#[trigger] es[i]),
        0 <= start,
        start + body_lines(es).len() <= lines.len(),
        lines.subrange(start, start + body_lines(es).len()) == body_lines(es),
    ensures
        read_body(lines, start, m) == Ok::<Seq<EntryV>, (int, ReadError)>(es),
{
    lemma_literals();
    let block = entries_block(es);
    let k = block.len() as int;
    assert(lines.subrange(start, start + k) =~= block) by {
        assert forall|i: int| 0 <= i < k implies lines.subrange(start, start + k)[i] == block[i] by {
            assert(lines.subrange(start, start + k)[i] == lines.subrange(
                start,
                start + body_lines(es).len(),
            )[i]);
        }
    }
    assert(lines[start + k] == "</JMdict>"@) by {
        assert(lines.subrange(start, start + body_lines(es).len())[k] == lines[start + k]);
    }
    lemma_entries_block(es, m);
    lemma_compose(ReadStateV::Between, lines, start, k, m);
    let close = "</JMdict>"@;
    lemma_bracketed_trimmed(close);
    lemma_differ_at("<entry>"@, close, 1);
    assert(run_from(ReadStateV::Between, lines, start + k, m) == Ok::<
        Seq<EntryV>,
        (int, ReadError),
>(Seq::empty())) by {
        assert(run_from(ReadStateV::Done, lines, start + k + 1, m) == Ok::<
            Seq<EntryV>,
            (int, ReadError),
        >(Seq::empty()));
        assert(trimmed(lines[start + k]) == close);
        assert(spec_step(ReadStateV::Between, lines[start + k], m) == Ok::<_, ReadError>(
            (ReadStateV::Done, None::<EntryV>),
        ));
        assert(completed(None) + Seq::<EntryV>::empty() =~= Seq::<EntryV>::empty());
    }
    assert(es + Seq::<EntryV>::empty() =~= es);
}

/// A whole file written from entity definitions and entries is read back:
/// its head gives the definitions, in order, and its body the entries.
pub proof fn law_document_read_back(
    defs: Seq<(Seq<char>, Seq<char>)>,
    es: Seq<EntryV>,
    m: Map<Seq<char>, Seq<char>>,
)
    requires
        forall|k: int| 0 <= k < defs.len() ==> writable_def(#[trigger] defs[k].0, defs[k].1),
        forall|i: int| 0 <= i < es.len() ==> readable_entry(#[trigger] es[i]),
    ensures
        header(entity_lines(defs) + seq!["<JMdict>"@] + body_lines(es)) == Ok::<_, int>(
            (insert_all(Seq::empty(), defs), defs.len() as int + 1),
        ),
        read_body(
            entity_lines(defs) + seq!["<JMdict>"@] + body_lines(es),
            defs.len() as int + 1,
            m,
        ) == Ok::<Seq<EntryV>, (int, ReadError)>(es),
{
    law_header_reads_definitions(defs, body_lines(es));
    let doc = entity_lines(defs) + seq!["<JMdict>"@] + body_lines(es);
    let start = defs.len() as int + 1;
    assert(doc.subrange(start, start + body_lines(es).len()) =~= body_lines(es));
    law_read_back(es, doc, start, m);
}

} // verus!
