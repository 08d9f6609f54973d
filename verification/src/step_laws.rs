//! What one step of the reader does with each kind of line, in every
//! state, said over the line's text and the state's contents.
use vstd::prelude::*;

use crate::jmdict::{empty_entry, empty_kanji, empty_reading, empty_sense, EntryV, KanjiV, ReadingV, SenseV};
use crate::reader::{spec_step, ReadError, ReadStateV};
use crate::roundtrip::lemma_literals;
use crate::text::{spec_parse_i64, trimmed};
use crate::xml::{element_value, strippable};

verus! {

/// A line that starts with `a` does not start with a text that differs from
/// `a` at `k`.
proof fn lemma_prefix_excludes(a: Seq<char>, b: Seq<char>, line: Seq<char>, k: int)
    requires
        a.is_prefix_of(line),
        0 <= k < a.len(),
        k < b.len(),
        a[k] != b[k],
    ensures
        !b.is_prefix_of(line),
        line != b,
{
    assert(line[k] == a[k]);
    if b.is_prefix_of(line) {
        assert(line.subrange(0, b.len() as int)[k] == line[k]);
    }
}

/// The result of a step that keeps reading in state `st` and completes no
/// entry.
pub open spec fn stays(st: ReadStateV) -> Result<(ReadStateV, Option<EntryV>), ReadError> {
    Ok((st, None))
}

// ---------------------------------------------------------------------------
// Between entries
// ---------------------------------------------------------------------------

/// Between entries, `<entry>` opens an empty entry, `</JMdict>` ends the
/// body, and any other line is an error.
pub proof fn law_between(raw: Seq<char>, m: Map<Seq<char>, Seq<char>>)
    ensures
        trimmed(raw) == "<entry>"@ ==> spec_step(ReadStateV::Between, raw, m) == stays(
            ReadStateV::InEntry(empty_entry()),
        ),
        trimmed(raw) == "</JMdict>"@ ==> spec_step(ReadStateV::Between, raw, m) == stays(
            ReadStateV::Done,
        ),
        trimmed(raw) != "<entry>"@ && trimmed(raw) != "</JMdict>"@ ==> spec_step(
            ReadStateV::Between,
            raw,
            m,
        ) == Err::<(ReadStateV, Option<EntryV>), ReadError>(ReadError::UnexpectedLine),
{
    lemma_literals();
    assert("</JMdict>"@[1] != "<entry>"@[1]);
}

// ---------------------------------------------------------------------------
// Inside an entry
// ---------------------------------------------------------------------------

/// Inside an entry, a line that opens none of its parts and does not close
/// it changes nothing.
pub proof fn law_entry_passes_over(e: EntryV, raw: Seq<char>, m: Map<Seq<char>, Seq<char>>)
    requires
        !"<ent_seq>"@.is_prefix_of(trimmed(raw)),
        !"<k_ele>"@.is_prefix_of(trimmed(raw)),
        !"<r_ele>"@.is_prefix_of(trimmed(raw)),
        trimmed(raw) != "<sense>"@,
        trimmed(raw) != "</entry>"@,
    ensures
        spec_step(ReadStateV::InEntry(e), raw, m) == stays(ReadStateV::InEntry(e)),
{
}

/// Inside an entry, an `<ent_seq>` line sets the sequence number to the
/// number that its value writes, and nothing else; a value that is not a
/// number, or a line that is not a whole element, is an error.
pub proof fn law_entry_seq(e: EntryV, raw: Seq<char>, m: Map<Seq<char>, Seq<char>>)
    requires
        "<ent_seq>"@.is_prefix_of(trimmed(raw)),
    ensures
        !strippable(trimmed(raw), "ent_seq"@) ==> spec_step(ReadStateV::InEntry(e), raw, m)
            == Err::<(ReadStateV, Option<EntryV>), ReadError>(ReadError::MalformedElement),
        strippable(trimmed(raw), "ent_seq"@) ==> spec_step(ReadStateV::InEntry(e), raw, m)
            == match spec_parse_i64(element_value(trimmed(raw), "ent_seq"@, m)) {
            Some(n) => stays(ReadStateV::InEntry(EntryV { ent_seq: n, ..e })),
            None => Err(ReadError::InvalidEntSeq),
        },
{
}

/// Inside an entry, `<k_ele>`, `<r_ele>` and `<sense>` open an empty part,
/// and `</entry>` completes the entry as it stands.
pub proof fn law_entry_parts(e: EntryV, raw: Seq<char>, m: Map<Seq<char>, Seq<char>>)
    ensures
        "<k_ele>"@.is_prefix_of(trimmed(raw)) ==> spec_step(ReadStateV::InEntry(e), raw, m)
            == stays(ReadStateV::InKanji(e, empty_kanji())),
        "<r_ele>"@.is_prefix_of(trimmed(raw)) ==> spec_step(ReadStateV::InEntry(e), raw, m)
            == stays(ReadStateV::InReading(e, empty_reading())),
        trimmed(raw) == "<sense>"@ ==> spec_step(ReadStateV::InEntry(e), raw, m) == stays(
            ReadStateV::InSense(e, empty_sense()),
        ),
        trimmed(raw) == "</entry>"@ ==> spec_step(ReadStateV::InEntry(e), raw, m) == Ok::<
            (ReadStateV, Option<EntryV>),
            ReadError,
        >((ReadStateV::Between, Some(e))),
{
    lemma_literals();
    let line = trimmed(raw);
    if "<k_ele>"@.is_prefix_of(line) {
        lemma_prefix_excludes("<k_ele>"@, "<ent_seq>"@, line, 1);
    }
    if "<r_ele>"@.is_prefix_of(line) {
        lemma_prefix_excludes("<r_ele>"@, "<ent_seq>"@, line, 1);
        lemma_prefix_excludes("<r_ele>"@, "<k_ele>"@, line, 1);
    }
    if line == "<sense>"@ {
        lemma_prefix_excludes("<sense>"@, "<ent_seq>"@, line, 1);
        lemma_prefix_excludes("<sense>"@, "<k_ele>"@, line, 1);
        lemma_prefix_excludes("<sense>"@, "<r_ele>"@, line, 1);
    }
    if line == "</entry>"@ {
        lemma_prefix_excludes("</entry>"@, "<ent_seq>"@, line, 1);
        lemma_prefix_excludes("</entry>"@, "<k_ele>"@, line, 1);
        lemma_prefix_excludes("</entry>"@, "<r_ele>"@, line, 1);
        lemma_prefix_excludes("</entry>"@, "<sense>"@, line, 1);
    }
}

// ---------------------------------------------------------------------------
// Inside a kanji element
// ---------------------------------------------------------------------------

/// Inside a kanji element, a line other than its writing and its end (such
/// as `<ke_inf>` or `<ke_pri>`) changes nothing; `<keb>` sets the writing to
/// the element's value; `</k_ele>` adds the element to the entry.
pub proof fn law_kanji(e: EntryV, k: KanjiV, raw: Seq<char>, m: Map<Seq<char>, Seq<char>>)
    ensures
        !"<keb>"@.is_prefix_of(trimmed(raw)) && trimmed(raw) != "</k_ele>"@ ==> spec_step(
            ReadStateV::InKanji(e, k),
            raw,
            m,
        ) == stays(ReadStateV::InKanji(e, k)),
        "<keb>"@.is_prefix_of(trimmed(raw)) && strippable(trimmed(raw), "keb"@) ==> spec_step(
            ReadStateV::InKanji(e, k),
            raw,
            m,
        ) == stays(ReadStateV::InKanji(e, KanjiV { keb: element_value(trimmed(raw), "keb"@, m), ..k })),
        "<keb>"@.is_prefix_of(trimmed(raw)) && !strippable(trimmed(raw), "keb"@) ==> spec_step(
            ReadStateV::InKanji(e, k),
            raw,
            m,
        ) == Err::<(ReadStateV, Option<EntryV>), ReadError>(ReadError::MalformedElement),
        trimmed(raw) == "</k_ele>"@ ==> spec_step(ReadStateV::InKanji(e, k), raw, m) == stays(
            ReadStateV::InEntry(EntryV { k_ele: e.k_ele.push(k), ..e }),
        ),
{
    lemma_literals();
    let line = trimmed(raw);
    if line == "</k_ele>"@ {
        lemma_prefix_excludes("</k_ele>"@, "<keb>"@, line, 1);
    }
}

// ---------------------------------------------------------------------------
// Inside a reading element
// ---------------------------------------------------------------------------

/// Inside a reading element, a line other than its reading and its end
/// (such as `<re_pri>`, `<re_inf>`, `<re_restr>` or `<re_nokanji/>`) changes
/// nothing; `<reb>` sets the reading to the element's value; `</r_ele>` adds
/// the element to the entry.
pub proof fn law_reading(e: EntryV, r: ReadingV, raw: Seq<char>, m: Map<Seq<char>, Seq<char>>)
    ensures
        !"<reb>"@.is_prefix_of(trimmed(raw)) && trimmed(raw) != "</r_ele>"@ ==> spec_step(
            ReadStateV::InReading(e, r),
            raw,
            m,
        ) == stays(ReadStateV::InReading(e, r)),
        "<reb>"@.is_prefix_of(trimmed(raw)) && strippable(trimmed(raw), "reb"@) ==> spec_step(
            ReadStateV::InReading(e, r),
            raw,
            m,
        ) == stays(ReadStateV::InReading(e, ReadingV { reb: element_value(trimmed(raw), "reb"@, m), ..r })),
        "<reb>"@.is_prefix_of(trimmed(raw)) && !strippable(trimmed(raw), "reb"@) ==> spec_step(
            ReadStateV::InReading(e, r),
            raw,
            m,
        ) == Err::<(ReadStateV, Option<EntryV>), ReadError>(ReadError::MalformedElement),
        trimmed(raw) == "</r_ele>"@ ==> spec_step(ReadStateV::InReading(e, r), raw, m) == stays(
            ReadStateV::InEntry(EntryV { r_ele: e.r_ele.push(r), ..e }),
        ),
{
    lemma_literals();
    let line = trimmed(raw);
    if line == "</r_ele>"@ {
        lemma_prefix_excludes("</r_ele>"@, "<reb>"@, line, 1);
        lemma_prefix_excludes("</r_ele>"@, "<re_pri>"@, line, 1);
        lemma_prefix_excludes("</r_ele>"@, "<re_inf>"@, line, 1);
    }
}

// ---------------------------------------------------------------------------
// Inside a sense
// ---------------------------------------------------------------------------

/// Inside a sense, a line that is not `<pos>`, `<gloss>`, `<x_ref>`,
/// `<misc>` or `</sense>` (such as `<field>`, `<s_inf>`, `<dial>`,
/// `<lsource>` or `<gloss g_type=..>`) leaves the whole sense unchanged.
pub proof fn law_sense_passes_over(e: EntryV, s: SenseV, raw: Seq<char>, m: Map<Seq<char>, Seq<char>>)
    requires
        !"<pos>"@.is_prefix_of(trimmed(raw)),
        !"<gloss>"@.is_prefix_of(trimmed(raw)),
        !"<x_ref>"@.is_prefix_of(trimmed(raw)),
        !"<misc>"@.is_prefix_of(trimmed(raw)),
        trimmed(raw) != "</sense>"@,
    ensures
        spec_step(ReadStateV::InSense(e, s), raw, m) == stays(ReadStateV::InSense(e, s)),
{
}

/// Inside a sense, `</sense>` adds the sense to the entry as it stands.
pub proof fn law_sense_end(e: EntryV, s: SenseV, raw: Seq<char>, m: Map<Seq<char>, Seq<char>>)
    requires
        trimmed(raw) == "</sense>"@,
    ensures
        spec_step(ReadStateV::InSense(e, s), raw, m) == stays(
            ReadStateV::InEntry(EntryV { sense: e.sense.push(s), ..e }),
        ),
{
    lemma_literals();
    let line = trimmed(raw);
    lemma_prefix_excludes("</sense>"@, "<pos>"@, line, 1);
    lemma_prefix_excludes("</sense>"@, "<gloss>"@, line, 1);
    lemma_prefix_excludes("</sense>"@, "<x_ref>"@, line, 1);
    lemma_prefix_excludes("</sense>"@, "<misc>"@, line, 1);
}

/// Inside a sense, a `<pos>`, `<gloss>`, `<x_ref>` or `<misc>` line adds the
/// element's value to that list only, and leaves the rest of the sense as
/// it is; such a line that is not a whole element is an error.
pub proof fn law_sense_parts(e: EntryV, s: SenseV, raw: Seq<char>, m: Map<Seq<char>, Seq<char>>)
    ensures
        "<pos>"@.is_prefix_of(trimmed(raw)) ==> spec_step(ReadStateV::InSense(e, s), raw, m) == if strippable(
            trimmed(raw),
            "pos"@,
        ) {
            stays(ReadStateV::InSense(e, SenseV { pos: s.pos.push(element_value(trimmed(raw), "pos"@, m)), ..s }))
        } else {
            Err(ReadError::MalformedElement)
        },
        "<gloss>"@.is_prefix_of(trimmed(raw)) ==> spec_step(ReadStateV::InSense(e, s), raw, m) == if strippable(
            trimmed(raw),
            "gloss"@,
        ) {
            stays(
                ReadStateV::InSense(e, SenseV { gloss: s.gloss.push(element_value(trimmed(raw), "gloss"@, m)), ..s }),
            )
        } else {
            Err(ReadError::MalformedElement)
        },
        "<x_ref>"@.is_prefix_of(trimmed(raw)) ==> spec_step(ReadStateV::InSense(e, s), raw, m) == if strippable(
            trimmed(raw),
            "x_ref"@,
        ) {
            stays(
                ReadStateV::InSense(e, SenseV { x_ref: s.x_ref.push(element_value(trimmed(raw), "x_ref"@, m)), ..s }),
            )
        } else {
            Err(ReadError::MalformedElement)
        },
        "<misc>"@.is_prefix_of(trimmed(raw)) ==> spec_step(ReadStateV::InSense(e, s), raw, m) == if strippable(
            trimmed(raw),
            "misc"@,
        ) {
            stays(ReadStateV::InSense(e, SenseV { misc: s.misc.push(element_value(trimmed(raw), "misc"@, m)), ..s }))
        } else {
            Err(ReadError::MalformedElement)
        },
{
    lemma_literals();
    let line = trimmed(raw);
    if "<gloss>"@.is_prefix_of(line) {
        lemma_prefix_excludes("<gloss>"@, "<pos>"@, line, 1);
    }
    if "<x_ref>"@.is_prefix_of(line) {
        lemma_prefix_excludes("<x_ref>"@, "<pos>"@, line, 1);
        lemma_prefix_excludes("<x_ref>"@, "<gloss>"@, line, 1);
    }
    if "<misc>"@.is_prefix_of(line) {
        lemma_prefix_excludes("<misc>"@, "<pos>"@, line, 1);
        lemma_prefix_excludes("<misc>"@, "<gloss>"@, line, 1);
        lemma_prefix_excludes("<misc>"@, "<x_ref>"@, line, 1);
    }
}

/// After `</JMdict>` no line changes anything.
pub proof fn law_done(raw: Seq<char>, m: Map<Seq<char>, Seq<char>>)
    ensures
        spec_step(ReadStateV::Done, raw, m) == stays(ReadStateV::Done),
{
}

} // verus!
