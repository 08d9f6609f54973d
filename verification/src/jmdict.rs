//! The dictionary's data model: entries with their kanji elements, reading
//! elements and senses, as the JMdict file lays them out.
use vstd::prelude::*;

use crate::text::views;

verus! {

/// A whole dictionary: its entries in file order.
#[derive(Debug)]
pub struct JMdict {
    pub entry: Vec<Entry>,
}

/// One dictionary entry (`<entry>`).
#[derive(Debug)]
pub struct Entry {
    pub ent_seq: i64,
    pub k_ele: Vec<Kanji>,
    pub r_ele: Vec<Reading>,
    pub sense: Vec<Sense>,
}

/// A kanji element (`<k_ele>`).
#[derive(Debug)]
pub struct Kanji {
    pub keb: String,
    pub ke_inf: Vec<String>,
    pub ke_pri: Vec<String>,
}

/// A reading element (`<r_ele>`).
#[derive(Debug)]
pub struct Reading {
    pub reb: String,
    pub r_inf: Vec<String>,
    pub re_pri: Vec<String>,
    pub re_restr: Vec<String>,
    pub re_nokanji: String,
}

/// A sense (`<sense>`): parts of speech, glosses and the other notes.
#[derive(Debug)]
pub struct Sense {
    pub stagk: Vec<String>,
    pub stagr: Vec<String>,
    pub pos: Vec<String>,
    pub x_ref: Vec<String>,
    pub ant: Vec<String>,
    pub field: Vec<String>,
    pub misc: Vec<String>,
    pub s_inf: Vec<String>,
    pub lsource: Vec<String>,
    pub dial: Vec<String>,
    pub gloss: Vec<String>,
    pub example: Vec<String>,
}

/// The contents of a `Kanji`, as character sequences.
pub struct KanjiV {
    pub keb: Seq<char>,
    pub ke_inf: Seq<Seq<char>>,
    pub ke_pri: Seq<Seq<char>>,
}

/// The contents of a `Reading`, as character sequences.
pub struct ReadingV {
    pub reb: Seq<char>,
    pub r_inf: Seq<Seq<char>>,
    pub re_pri: Seq<Seq<char>>,
    pub re_restr: Seq<Seq<char>>,
    pub re_nokanji: Seq<char>,
}

/// The contents of a `Sense`, as character sequences.
pub struct SenseV {
    pub stagk: Seq<Seq<char>>,
    pub stagr: Seq<Seq<char>>,
    pub pos: Seq<Seq<char>>,
    pub x_ref: Seq<Seq<char>>,
    pub ant: Seq<Seq<char>>,
    pub field: Seq<Seq<char>>,
    pub misc: Seq<Seq<char>>,
    pub s_inf: Seq<Seq<char>>,
    pub lsource: Seq<Seq<char>>,
    pub dial: Seq<Seq<char>>,
    pub gloss: Seq<Seq<char>>,
    pub example: Seq<Seq<char>>,
}

/// The contents of an `Entry`.
pub struct EntryV {
    pub ent_seq: i64,
    pub k_ele: Seq<KanjiV>,
    pub r_ele: Seq<ReadingV>,
    pub sense: Seq<SenseV>,
}

impl View for Kanji {
    type V = KanjiV;

    open spec fn view(&self) -> KanjiV {
        KanjiV { keb: self.keb@, ke_inf: views(self.ke_inf@), ke_pri: views(self.ke_pri@) }
    }
}

impl View for Reading {
    type V = ReadingV;

    open spec fn view(&self) -> ReadingV {
        ReadingV {
            reb: self.reb@,
            r_inf: views(self.r_inf@),
            re_pri: views(self.re_pri@),
            re_restr: views(self.re_restr@),
            re_nokanji: self.re_nokanji@,
        }
    }
}

impl View for Sense {
    type V = SenseV;

    open spec fn view(&self) -> SenseV {
        SenseV {
            stagk: views(self.stagk@),
            stagr: views(self.stagr@),
            pos: views(self.pos@),
            x_ref: views(self.x_ref@),
            ant: views(self.ant@),
            field: views(self.field@),
            misc: views(self.misc@),
            s_inf: views(self.s_inf@),
            lsource: views(self.lsource@),
            dial: views(self.dial@),
            gloss: views(self.gloss@),
            example: views(self.example@),
        }
    }
}

/// The views of a sequence of kanji elements.
pub open spec fn kanji_views(v: Seq<Kanji>) -> Seq<KanjiV> {
    v.map_values(|k: Kanji| k@)
}

/// The views of a sequence of reading elements.
pub open spec fn reading_views(v: Seq<Reading>) -> Seq<ReadingV> {
    v.map_values(|r: Reading| r@)
}

/// The views of a sequence of senses.
pub open spec fn sense_views(v: Seq<Sense>) -> Seq<SenseV> {
    v.map_values(|s: Sense| s@)
}

/// The views of a sequence of entries.
pub open spec fn entry_views(v: Seq<Entry>) -> Seq<EntryV> {
    v.map_values(|e: Entry| e@)
}

impl View for Entry {
    type V = EntryV;

    open spec fn view(&self) -> EntryV {
        EntryV {
            ent_seq: self.ent_seq,
            k_ele: kanji_views(self.k_ele@),
            r_ele: reading_views(self.r_ele@),
            sense: sense_views(self.sense@),
        }
    }
}

impl View for JMdict {
    type V = Seq<EntryV>;

    open spec fn view(&self) -> Seq<EntryV> {
        entry_views(self.entry@)
    }
}

/// A kanji element with every field empty.
pub open spec fn empty_kanji() -> KanjiV {
    KanjiV { keb: Seq::empty(), ke_inf: Seq::empty(), ke_pri: Seq::empty() }
}

/// A reading element with every field empty.
pub open spec fn empty_reading() -> ReadingV {
    ReadingV {
        reb: Seq::empty(),
        r_inf: Seq::empty(),
        re_pri: Seq::empty(),
        re_restr: Seq::empty(),
        re_nokanji: Seq::empty(),
    }
}

/// A sense with every field empty.
pub open spec fn empty_sense() -> SenseV {
    SenseV {
        stagk: Seq::empty(),
        stagr: Seq::empty(),
        pos: Seq::empty(),
        x_ref: Seq::empty(),
        ant: Seq::empty(),
        field: Seq::empty(),
        misc: Seq::empty(),
        s_inf: Seq::empty(),
        lsource: Seq::empty(),
        dial: Seq::empty(),
        gloss: Seq::empty(),
        example: Seq::empty(),
    }
}

/// An entry with sequence number 0 and no elements.
pub open spec fn empty_entry() -> EntryV {
    EntryV { ent_seq: 0, k_ele: Seq::empty(), r_ele: Seq::empty(), sense: Seq::empty() }
}

impl Default for Kanji {
    fn default() -> (k: Kanji)
        ensures
            k@ == empty_kanji(),
    {
        let k = Kanji { keb: String::new(), ke_inf: Vec::new(), ke_pri: Vec::new() };
        assert(k@.ke_inf =~= Seq::<Seq<char>>::empty());
        assert(k@.ke_pri =~= Seq::<Seq<char>>::empty());
        k
    }
}

impl Default for Reading {
    fn default() -> (r: Reading)
        ensures
            r@ == empty_reading(),
    {
        let r = Reading {
            reb: String::new(),
            r_inf: Vec::new(),
            re_pri: Vec::new(),
            re_restr: Vec::new(),
            re_nokanji: String::new(),
        };
        assert(r@.r_inf =~= Seq::<Seq<char>>::empty());
        assert(r@.re_pri =~= Seq::<Seq<char>>::empty());
        assert(r@.re_restr =~= Seq::<Seq<char>>::empty());
        r
    }
}

impl Default for Sense {
    fn default() -> (s: Sense)
        ensures
            s@ == empty_sense(),
    {
        let s = Sense {
            stagk: Vec::new(),
            stagr: Vec::new(),
            pos: Vec::new(),
            x_ref: Vec::new(),
            ant: Vec::new(),
            field: Vec::new(),
            misc: Vec::new(),
            s_inf: Vec::new(),
            lsource: Vec::new(),
            dial: Vec::new(),
            gloss: Vec::new(),
            example: Vec::new(),
        };
        assert(s@.stagk =~= Seq::<Seq<char>>::empty());
        assert(s@.stagr =~= Seq::<Seq<char>>::empty());
        assert(s@.pos =~= Seq::<Seq<char>>::empty());
        assert(s@.x_ref =~= Seq::<Seq<char>>::empty());
        assert(s@.ant =~= Seq::<Seq<char>>::empty());
        assert(s@.field =~= Seq::<Seq<char>>::empty());
        assert(s@.misc =~= Seq::<Seq<char>>::empty());
        assert(s@.s_inf =~= Seq::<Seq<char>>::empty());
        assert(s@.lsource =~= Seq::<Seq<char>>::empty());
        assert(s@.dial =~= Seq::<Seq<char>>::empty());
        assert(s@.gloss =~= Seq::<Seq<char>>::empty());
        assert(s@.example =~= Seq::<Seq<char>>::empty());
        s
    }
}

impl Default for Entry {
    fn default() -> (e: Entry)
        ensures
            e@ == empty_entry(),
    {
        let e = Entry { ent_seq: 0, k_ele: Vec::new(), r_ele: Vec::new(), sense: Vec::new() };
        assert(e@.k_ele =~= Seq::<KanjiV>::empty());
        assert(e@.r_ele =~= Seq::<ReadingV>::empty());
        assert(e@.sense =~= Seq::<SenseV>::empty());
        e
    }
}

} // verus!
