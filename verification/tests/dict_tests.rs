use std::io::Write;

use jpdict::entities::{collect_entities, parse_entity_line, EntityTable};
use jpdict::gz::decompress;
use jpdict::jmdict::{Entry, Kanji, Reading, Sense};
use jpdict::jmserde::{expand_entities, preprocess_lines};
use jpdict::reader::{read_entries, step, ReadError, ReadFailure, ReadState};
use jpdict::store::{insert_statements, Statement};
use jpdict::xml::{can_strip_xml, strip_xml};

fn lines(text: &str) -> Vec<String> {
    text.lines().map(|l| l.to_string()).collect()
}

fn table() -> EntityTable {
    let mut t = EntityTable::new();
    t.insert("n".to_string(), "noun (common) (futsuumeishi)".to_string());
    t.insert("adv".to_string(), "adverb (fukushi)".to_string());
    t
}

const SAMPLE: &str = r#"<?xml version="1.0" encoding="UTF-8"?>
<!DOCTYPE JMdict [
<!ENTITY n "noun (common) (futsuumeishi)">
<!ENTITY adv "adverb (fukushi)">
<!ENTITY int "interjection (kandoushi)">
]>
<JMdict>
<entry>
<ent_seq>1001980</ent_seq>
<k_ele>
<keb>一寸</keb>
<ke_pri>ichi1</ke_pri>
</k_ele>
<r_ele>
<reb>ちょっと</reb>
<re_pri>ichi1</re_pri>
</r_ele>
<sense>
<pos>&adv;</pos>
<pos>&int;</pos>
<gloss>just a minute</gloss>
<gloss>a little</gloss>
<misc>&n;</misc>
</sense>
</entry>
<entry>
<ent_seq>1000000</ent_seq>
<r_ele>
<reb>ヽ</reb>
</r_ele>
<sense>
<gloss>repetition mark in katakana</gloss>
<x_ref>一の字点</x_ref>
</sense>
</entry>
</JMdict>
"#;

// ---------------------------------------------------------------------------
// Entities
// ---------------------------------------------------------------------------

#[test]
fn entity_line_gives_name_and_value() {
    let (name, value) = parse_entity_line("<!ENTITY n \"noun (common) (futsuumeishi)\">").unwrap();
    assert_eq!(name, "n");
    assert_eq!(value, "noun (common) (futsuumeishi)");
}

#[test]
fn entity_line_trims_repeated_quotes_and_closers() {
    let (name, value) = parse_entity_line("<!ENTITY x \"\"v\">\">").unwrap();
    assert_eq!(name, "x");
    assert_eq!(value, "v");
    let (name, value) = parse_entity_line("<!ENTITY x y").unwrap();
    assert_eq!((name.as_str(), value.as_str()), ("x", "y"));
}

#[test]
fn entity_line_with_fewer_than_two_spaces_defines_nothing() {
    assert!(parse_entity_line("<!ENTITY").is_none());
    assert!(parse_entity_line("<!ENTITY n").is_none());
}

#[test]
fn table_insert_replaces_and_get_reads_back() {
    let mut t = table();
    assert_eq!(t.get("n").unwrap(), "noun (common) (futsuumeishi)");
    assert!(t.get("v1").is_none());
    t.insert("n".to_string(), "noun".to_string());
    assert_eq!(t.get("n").unwrap(), "noun");
    assert_eq!(t.get("adv").unwrap(), "adverb (fukushi)");
    assert_eq!(t.len(), 2);
}

#[test]
fn head_is_read_up_to_jmdict() {
    let ls = lines(SAMPLE);
    let (t, start) = collect_entities(&ls).unwrap();
    assert_eq!(start, 7);
    assert_eq!(ls[start], "<entry>");
    assert_eq!(t.len(), 3);
    assert_eq!(t.get("int").unwrap(), "interjection (kandoushi)");
}

#[test]
fn head_without_jmdict_takes_every_line() {
    let ls = lines("<!ENTITY a \"b\">\nplain line");
    let (t, start) = collect_entities(&ls).unwrap();
    assert_eq!(start, 2);
    assert_eq!(t.get("a").unwrap(), "b");
}

#[test]
fn malformed_definition_is_reported_by_line() {
    let ls = lines("<!DOCTYPE JMdict [\n<!ENTITY broken\n]>\n<JMdict>");
    let e = collect_entities(&ls).unwrap_err();
    assert_eq!(e.line, 1);
}

// ---------------------------------------------------------------------------
// Inline elements
// ---------------------------------------------------------------------------

#[test]
fn strip_xml_gives_text() {
    let t = table();
    assert_eq!(strip_xml("<keb>一寸</keb>", "keb", &t), "一寸");
    assert_eq!(strip_xml("<gloss></gloss>", "gloss", &t), "");
}

#[test]
fn strip_xml_expands_entities() {
    let t = table();
    assert_eq!(strip_xml("<pos>&n;</pos>", "pos", &t), "noun (common) (futsuumeishi)");
    assert_eq!(strip_xml("<pos>&vt;</pos>", "pos", &t), "&vt;");
    assert_eq!(strip_xml("<gloss>AT&amp;T</gloss>", "gloss", &t), "AT&amp;T");
}

#[test]
fn can_strip_xml_checks_shape() {
    assert!(can_strip_xml("<keb>x</keb>", "keb"));
    assert!(!can_strip_xml("<keb>x", "keb"));
    assert!(!can_strip_xml("<keb></reb>", "keb"));
    assert!(!can_strip_xml("<keb>", "keb"));
    assert!(!can_strip_xml("<pos>&</pos>", "pos"));
    assert!(!can_strip_xml("<pos>あ&</pos>", "pos"));
    assert!(can_strip_xml("<pos>&n;</pos>", "pos"));
}

// ---------------------------------------------------------------------------
// Reading entries
// ---------------------------------------------------------------------------

#[test]
fn sample_document_is_read() {
    let ls = lines(SAMPLE);
    let (t, start) = collect_entities(&ls).unwrap();
    let es = read_entries(&ls, start, &t).unwrap();
    assert_eq!(es.len(), 2);
    let e = &es[0];
    assert_eq!(e.ent_seq, 1001980);
    assert_eq!(e.k_ele.len(), 1);
    assert_eq!(e.k_ele[0].keb, "一寸");
    assert!(e.k_ele[0].ke_pri.is_empty());
    assert_eq!(e.r_ele[0].reb, "ちょっと");
    assert_eq!(e.sense.len(), 1);
    assert_eq!(e.sense[0].pos, vec!["adverb (fukushi)", "interjection (kandoushi)"]);
    assert_eq!(e.sense[0].gloss, vec!["just a minute", "a little"]);
    assert_eq!(e.sense[0].misc, vec!["noun (common) (futsuumeishi)"]);
    let e = &es[1];
    assert_eq!(e.ent_seq, 1000000);
    assert!(e.k_ele.is_empty());
    assert_eq!(e.sense[0].x_ref, vec!["一の字点"]);
}

#[test]
fn indented_lines_are_read() {
    let ls = lines("  <entry>\n    <ent_seq>5</ent_seq>\n  </entry>\n</JMdict>\nignored");
    let es = read_entries(&ls, 0, &EntityTable::new()).unwrap();
    assert_eq!(es.len(), 1);
    assert_eq!(es[0].ent_seq, 5);
}

#[test]
fn unexpected_line_between_entries() {
    let ls = lines("<entry>\n</entry>\n\n</JMdict>");
    let f = read_entries(&ls, 0, &EntityTable::new()).unwrap_err();
    assert_eq!(f, ReadFailure { line: 2, error: ReadError::UnexpectedLine });
}

#[test]
fn body_without_end_fails_at_the_end() {
    let ls = lines("<entry>\n<ent_seq>1</ent_seq>\n</entry>");
    let f = read_entries(&ls, 0, &EntityTable::new()).unwrap_err();
    assert_eq!(f, ReadFailure { line: 3, error: ReadError::UnexpectedEnd });
}

#[test]
fn unclosed_element_is_malformed() {
    let ls = lines("<entry>\n<ent_seq>1\n</entry>\n</JMdict>");
    let f = read_entries(&ls, 0, &EntityTable::new()).unwrap_err();
    assert_eq!(f, ReadFailure { line: 1, error: ReadError::MalformedElement });
}

#[test]
fn non_numeric_sequence_is_invalid() {
    let ls = lines("<entry>\n<ent_seq>12x</ent_seq>\n</entry>\n</JMdict>");
    let f = read_entries(&ls, 0, &EntityTable::new()).unwrap_err();
    assert_eq!(f, ReadFailure { line: 1, error: ReadError::InvalidEntSeq });
}

#[test]
fn step_moves_through_an_entry() {
    let t = EntityTable::new();
    let (st, out) = step(ReadState::Between, "<entry>", &t).unwrap();
    assert!(out.is_none());
    let (st, _) = step(st, "<k_ele>", &t).unwrap();
    let (st, _) = step(st, "<keb>漢字</keb>", &t).unwrap();
    let (st, _) = step(st, "</k_ele>", &t).unwrap();
    let (st, out) = step(st, "</entry>", &t).unwrap();
    let e = out.unwrap();
    assert_eq!(e.k_ele[0].keb, "漢字");
    let (st, out) = step(st, "</JMdict>", &t).unwrap();
    assert!(out.is_none());
    assert!(st.is_done());
}

// ---------------------------------------------------------------------------
// Preprocessing
// ---------------------------------------------------------------------------

#[test]
fn test_parse() {
    let ls = lines(SAMPLE);
    let out = preprocess_lines(&ls).unwrap();
    assert_eq!(out[0], "<JMdict>");
    assert_eq!(out[1], "<entry>");
    assert!(out.contains(&"<pos>adverb (fukushi)</pos>".to_string()));
    assert!(out.contains(&"<misc>noun (common) (futsuumeishi)</misc>".to_string()));
    assert_eq!(out.len(), ls.len() - 6);
    assert!(out.iter().all(|l| !l.contains("&n;")));
}

#[test]
fn expansion_leaves_lines_without_ampersand() {
    let t = table();
    assert_eq!(expand_entities("<gloss>n adv</gloss>", &t), "<gloss>n adv</gloss>");
    assert_eq!(expand_entities("&n;/&adv;/&zz;", &t), "noun (common) (futsuumeishi)/adverb (fukushi)/&zz;");
}

// ---------------------------------------------------------------------------
// Storing
// ---------------------------------------------------------------------------

#[test]
fn rows_of_an_entry() {
    let mut e = Entry::default();
    e.ent_seq = 7;
    let mut k = Kanji::default();
    k.keb = "一寸".to_string();
    e.k_ele.push(k);
    let mut r = Reading::default();
    r.reb = "ちょっと".to_string();
    e.r_ele.push(r);
    let mut s = Sense::default();
    s.gloss.push("a little".to_string());
    s.gloss.push("just a minute".to_string());
    e.sense.push(s);
    e.sense.push(Sense::default());
    let rows = insert_statements(&e);
    assert_eq!(
        rows,
        vec![
            Statement::InsertEntry(7),
            Statement::InsertReading("ちょっと".to_string()),
            Statement::LinkReading(7, "ちょっと".to_string()),
            Statement::InsertKanji("一寸".to_string()),
            Statement::LinkKanji(7, "一寸".to_string()),
            Statement::InsertSense(7),
            Statement::InsertGloss("a little".to_string()),
            Statement::LinkSenseGloss("a little".to_string()),
            Statement::InsertGloss("just a minute".to_string()),
            Statement::LinkSenseGloss("just a minute".to_string()),
            Statement::InsertSense(7),
        ]
    );
}

#[test]
fn rows_refer_back_on_sample() {
    let ls = lines(SAMPLE);
    let (t, start) = collect_entities(&ls).unwrap();
    for e in read_entries(&ls, start, &t).unwrap() {
        let rows = insert_statements(&e);
        assert_eq!(rows[0], Statement::InsertEntry(e.ent_seq));
        for j in 1..rows.len() {
            match &rows[j] {
                Statement::LinkReading(n, r) => {
                    assert_eq!(*n, e.ent_seq);
                    assert_eq!(rows[j - 1], Statement::InsertReading(r.clone()));
                }
                Statement::LinkSenseGloss(g) => {
                    assert_eq!(rows[j - 1], Statement::InsertGloss(g.clone()));
                }
                Statement::InsertEntry(_) => panic!("second entry row"),
                _ => {}
            }
        }
    }
}

// ---------------------------------------------------------------------------
// Decompression
// ---------------------------------------------------------------------------

#[test]
fn decompress_reverses_gzip() {
    let data = SAMPLE.as_bytes();
    let mut enc = flate2::write::GzEncoder::new(Vec::new(), flate2::Compression::default());
    enc.write_all(data).unwrap();
    let gz = enc.finish().unwrap();
    assert_ne!(gz, data);
    assert_eq!(decompress(&gz).unwrap(), data);
}

#[test]
fn decompress_rejects_non_gzip() {
    assert!(decompress(b"plain text, not gzip").is_err());
}

fn written(es: &[(i64, Vec<&str>, Vec<&str>, Vec<(Vec<&str>, Vec<&str>)>)]) -> Vec<String> {
    let mut out = vec!["<!ENTITY v5k \"Godan verb with 'ku' ending\">".to_string(), "<JMdict>".to_string()];
    for (seq, kebs, rebs, senses) in es {
        out.push("<entry>".to_string());
        out.push(format!("<ent_seq>{}</ent_seq>", seq));
        for k in kebs {
            out.push("<k_ele>".to_string());
            out.push(format!("<keb>{}</keb>", k));
            out.push("</k_ele>".to_string());
        }
        for r in rebs {
            out.push("<r_ele>".to_string());
            out.push(format!("<reb>{}</reb>", r));
            out.push("</r_ele>".to_string());
        }
        for (pos, gloss) in senses {
            out.push("<sense>".to_string());
            for p in pos {
                out.push(format!("<pos>{}</pos>", p));
            }
            for g in gloss {
                out.push(format!("<gloss>{}</gloss>", g));
            }
            out.push("</sense>".to_string());
        }
        out.push("</entry>".to_string());
    }
    out.push("</JMdict>".to_string());
    out
}

#[test]
fn written_entries_are_read_back() {
    let es = vec![
        (1, vec!["行く", "往く"], vec!["いく", "ゆく"], vec![(vec!["verb"], vec!["to go", "to move"])]),
        (-5, vec![], vec!["ちょっと"], vec![(vec![], vec!["a little"]), (vec!["adv"], vec![])]),
        (i64::MAX, vec!["<odd></keb>"], vec![" spaced "], vec![]),
    ];
    let ls = written(&es);
    let (t, start) = collect_entities(&ls).unwrap();
    assert_eq!(start, 2);
    assert_eq!(t.get("v5k").unwrap(), "Godan verb with 'ku' ending");
    let got = read_entries(&ls, start, &t).unwrap();
    assert_eq!(got.len(), es.len());
    for (e, (seq, kebs, rebs, senses)) in got.iter().zip(es.iter()) {
        assert_eq!(e.ent_seq, *seq);
        assert_eq!(e.k_ele.iter().map(|k| k.keb.as_str()).collect::<Vec<_>>(), *kebs);
        assert_eq!(e.r_ele.iter().map(|r| r.reb.as_str()).collect::<Vec<_>>(), *rebs);
        assert_eq!(e.sense.len(), senses.len());
        for (s, (pos, gloss)) in e.sense.iter().zip(senses.iter()) {
            assert_eq!(s.pos, *pos);
            assert_eq!(s.gloss, *gloss);
        }
    }
}

fn all_rows(ls: &Vec<String>) -> Vec<Statement> {
    let (t, start) = collect_entities(ls).unwrap();
    read_entries(ls, start, &t).unwrap().iter().flat_map(|e| insert_statements(e)).collect()
}

#[test]
fn ignored_lines_keep_the_rows() {
    let plain = lines(SAMPLE);
    let mut richer = Vec::new();
    for l in &plain {
        richer.push(l.clone());
        match l.as_str() {
            "<keb>一寸</keb>" => richer.push("<ke_inf>&n;</ke_inf>".to_string()),
            "<reb>ちょっと</reb>" => {
                richer.push("<re_inf>ok</re_inf>".to_string());
                richer.push("<re_nokanji/>".to_string());
            }
            "<gloss>a little</gloss>" => {
                richer.push("<gloss g_type=\"expl\">slightly</gloss>".to_string());
                richer.push("<s_inf>colloquial</s_inf>".to_string());
                richer.push("<pos>&n;</pos>".to_string());
                richer.push("<misc>uk</misc>".to_string());
            }
            "<ent_seq>1000000</ent_seq>" => richer.push("<info>note</info>".to_string()),
            _ => {}
        }
    }
    assert!(richer.len() > plain.len());
    assert_eq!(all_rows(&richer), all_rows(&plain));
}

#[test]
fn lines_after_the_end_are_never_read() {
    let mut ls = lines(SAMPLE);
    let before = all_rows(&ls);
    ls.push("<entry>".to_string());
    ls.push("garbage that would fail".to_string());
    assert_eq!(all_rows(&ls), before);
}
