use vstd::prelude::*;

verus! {

/// A resolved tone: a frequency in centihertz (so `27718` stands for
/// 277.18 Hz) and a western tone label used for display.
///
/// Frequencies are kept as integer centihertz; the playback front end is
/// the only place that needs them as floating point.
#[derive(Debug, PartialEq, Eq)]
pub struct Hertz {
    pub freq: u32,
    pub tone: String,
}

impl Hertz {
    pub fn new(freq: u32, tone: String) -> (h: Hertz)
        ensures
            h.freq == freq,
            h.tone == tone,
    {
        Hertz { freq, tone }
    }

    pub fn freq(&self) -> (f: u32)
        ensures
            f == self.freq,
    {
        self.freq
    }

    pub fn tone(&self) -> (t: &str)
        ensures
            t@ == self.tone@,
    {
        self.tone.as_str()
    }
}

impl Clone for Hertz {
    fn clone(&self) -> (h: Hertz)
        ensures
            h == *self,
    {
        Hertz { freq: self.freq, tone: self.tone.clone() }
    }
}

/// An opaque note-name token, e.g. `S`, `.N` (lower octave) or `R.`
/// (higher octave).  A pitch resolves to a frequency through a
/// `SwarTable`; resolution fails explicitly when the name is unknown.
#[derive(Debug, PartialEq, Eq)]
pub struct Pitch(pub String);

impl View for Pitch {
    type V = Seq<char>;

    open spec fn view(&self) -> Seq<char> {
        self.0@
    }
}

impl Clone for Pitch {
    fn clone(&self) -> (p: Pitch)
        ensures
            p == *self,
    {
        Pitch(self.0.clone())
    }
}

/// One row of the frequency table: a note name with its resolved tone.
#[derive(Debug)]
pub struct SwarTableEntry {
    pub name: String,
    pub hertz: Hertz,
}

/// The frequency table, ordered by ascending frequency.  It is built once
/// by `initialise_swars` and passed by reference to whatever needs to
/// resolve a pitch.
#[derive(Debug)]
pub struct SwarTable {
    pub entries: Vec<SwarTableEntry>,
}

/// The first table entry whose name equals `name`, if any.
pub open spec fn resolve_spec(entries: Seq<SwarTableEntry>, name: Seq<char>) -> Option<Hertz>
    decreases entries.len(),
{
    if entries.len() == 0 {
        None
    } else if entries[0].name@ == name {
        Some(entries[0].hertz)
    } else {
        resolve_spec(entries.drop_first(), name)
    }
}

/// The frequency of `name` in the table, if it resolves.
pub open spec fn freq_of_spec(entries: Seq<SwarTableEntry>, name: Seq<char>) -> Option<u32> {
    match resolve_spec(entries, name) {
        Some(h) => Some(h.freq),
        None => None,
    }
}

impl SwarTable {
    /// Look a name up in the table; returns the first row with that name.
    pub fn lookup(&self, name: &String) -> (r: Option<Hertz>)
        ensures
            r == resolve_spec(self.entries@, name@),
    {
        let n = self.entries.len();
        proof {
            assert(self.entries@.skip(0) =~= self.entries@);
        }
        for i in 0..n
            invariant
                n == self.entries@.len(),
                resolve_spec(self.entries@, name@) == resolve_spec(self.entries@.skip(i as int), name@),
        {
            proof {
                assert(self.entries@.skip(i as int).drop_first() =~= self.entries@.skip(i + 1));
            }
            let e = &self.entries[i];
            if e.name.eq(name) {
                assert(self.entries@.skip(i as int)[0] == self.entries@[i as int]);
                return Some(e.hertz.clone());
            }
        }
        None
    }
}

/// The lower-octave equivalent of a note name: `X.` becomes `X`, a plain
/// name `X` becomes `.X`, and a name already marked lower has no lower
/// equivalent.
pub open spec fn lower_name(s: Seq<char>) -> Option<Seq<char>> {
    if s.len() == 0 {
        None
    } else if s.last() == '.' {
        Some(s.drop_last())
    } else if s.first() == '.' {
        None
    } else {
        Some(seq!['.'].add(s))
    }
}

/// The higher-octave equivalent of a note name: `.X` becomes `X`, a plain
/// name `X` becomes `X.`, and a name already marked higher has no higher
/// equivalent.
pub open spec fn higher_name(s: Seq<char>) -> Option<Seq<char>> {
    if s.len() == 0 {
        None
    } else if s.first() == '.' {
        Some(s.drop_first())
    } else if s.last() == '.' {
        None
    } else {
        Some(s.add(seq!['.']))
    }
}

impl Pitch {
    pub fn new(name: String) -> (p: Pitch)
        ensures
            p@ == name@,
    {
        Pitch(name)
    }

    /// Resolve this pitch in the table; `None` when the name is unknown.
    pub fn hertz(&self, table: &SwarTable) -> (r: Option<Hertz>)
        ensures
            r == resolve_spec(table.entries@, self@),
    {
        table.lookup(&self.0)
    }

    /// The same scale degree one octave down, or `None` when the name is
    /// already in the lower octave (or empty).
    pub fn lower(&self) -> (r: Option<Pitch>)
        ensures
            match r {
                Some(p) => lower_name(self@) == Some(p@),
                None => lower_name(self@) is None,
            },
    {
        let s = self.0.as_str();
        let n = s.unicode_len();
        if n == 0 {
            return None;
        }
        if s.get_char(n - 1) == '.' {
            let t = s.substring_char(0, n - 1).to_owned();
            assert(t@ =~= self@.drop_last());
            Some(Pitch(t))
        } else if s.get_char(0) == '.' {
            None
        } else {
            let mut t = String::from_str(".");
            t.append(s);
            proof {
                reveal_strlit(".");
                assert(t@ =~= seq!['.'].add(self@));
            }
            Some(Pitch(t))
        }
    }

    /// The same scale degree one octave up, or `None` when the name is
    /// already in the higher octave (or empty).
    pub fn higher(&self) -> (r: Option<Pitch>)
        ensures
            match r {
                Some(p) => higher_name(self@) == Some(p@),
                None => higher_name(self@) is None,
            },
    {
        let s = self.0.as_str();
        let n = s.unicode_len();
        if n == 0 {
            return None;
        }
        if s.get_char(0) == '.' {
            let t = s.substring_char(1, n).to_owned();
            assert(t@ =~= self@.drop_first());
            Some(Pitch(t))
        } else if s.get_char(n - 1) == '.' {
            None
        } else {
            let mut t = self.0.clone();
            t.append(".");
            proof {
                reveal_strlit(".");
                assert(t@ =~= self@.add(seq!['.']));
            }
            Some(Pitch(t))
        }
    }
}

/// The canonical note-name row of the frequency table at position `i`:
/// the name, its frequency in centihertz, and its tone label.  The table
/// covers three octaves of the twelve-degree scale in ascending order of
/// frequency: `.S` .. `.N`, then `S` .. `N`, then `S.` .. `N.`.
pub open spec fn table_row(i: int) -> (Seq<char>, u32, Seq<char>) {
    if i == 0 { (".S"@, 13859, "C#"@) }
    else if i == 1 { (".r"@, 14683, "D"@) }
    else if i == 2 { (".R"@, 15556, "D#"@) }
    else if i == 3 { (".g"@, 16481, "E"@) }
    else if i == 4 { (".G"@, 17461, "F"@) }
    else if i == 5 { (".M"@, 18500, "F#"@) }
    else if i == 6 { (".M'"@, 19600, "G"@) }
    else if i == 7 { (".P"@, 20765, "G#"@) }
    else if i == 8 { (".d"@, 22000, "A"@) }
    else if i == 9 { (".D"@, 23308, "A#"@) }
    else if i == 10 { (".n"@, 24694, "B"@) }
    else if i == 11 { (".N"@, 26163, "C"@) }
    else if i == 12 { ("S"@, 27718, "C#"@) }
    else if i == 13 { ("r"@, 29366, "D"@) }
    else if i == 14 { ("R"@, 31113, "D#"@) }
    else if i == 15 { ("g"@, 32963, "E"@) }
    else if i == 16 { ("G"@, 34923, "F"@) }
    else if i == 17 { ("M"@, 36999, "F#"@) }
    else if i == 18 { ("M'"@, 39200, "G"@) }
    else if i == 19 { ("P"@, 41530, "G#"@) }
    else if i == 20 { ("d"@, 44000, "A"@) }
    else if i == 21 { ("D"@, 46616, "A#"@) }
    else if i == 22 { ("n"@, 49388, "B"@) }
    else if i == 23 { ("N"@, 52325, "C"@) }
    else if i == 24 { ("S."@, 55437, "C#"@) }
    else if i == 25 { ("r."@, 58733, "D"@) }
    else if i == 26 { ("R."@, 62225, "D#"@) }
    else if i == 27 { ("g."@, 65925, "E"@) }
    else if i == 28 { ("G."@, 69846, "F"@) }
    else if i == 29 { ("M."@, 73999, "F#"@) }
    else if i == 30 { ("M'."@, 78399, "G"@) }
    else if i == 31 { ("P."@, 83061, "G#"@) }
    else if i == 32 { ("d."@, 88000, "A"@) }
    else if i == 33 { ("D."@, 93233, "A#"@) }
    else if i == 34 { ("n."@, 98777, "B"@) }
    else { ("N."@, 104650, "C"@) }
}

/// Whether an entry holds the data of table row `i`.
pub open spec fn entry_is_row(e: SwarTableEntry, i: int) -> bool {
    e.name@ == table_row(i).0 && e.hertz.freq == table_row(i).1 && e.hertz.tone@ == table_row(i).2
}

fn entry(name: &str, freq: u32, tone: &str) -> (e: SwarTableEntry)
    ensures
        e.name@ == name@,
        e.hertz.freq == freq,
        e.hertz.tone@ == tone@,
{
    SwarTableEntry { name: name.to_owned(), hertz: Hertz::new(freq, tone.to_owned()) }
}

/// Build the standard three-octave frequency table (equal temperament on
/// the C#4 tonic), ordered by ascending frequency.
#[verifier::rlimit(50)]
pub fn initialise_swars() -> (t: SwarTable)
    ensures
        t.entries@.len() == 36,
        forall|i: int| 0 <= i < 36 ==> #[trigger] entry_is_row(t.entries@[i], i),
{
    let mut v: Vec<SwarTableEntry> = Vec::new();
    v.push(entry(".S", 13859, "C#"));
    v.push(entry(".r", 14683, "D"));
    v.push(entry(".R", 15556, "D#"));
    v.push(entry(".g", 16481, "E"));
    v.push(entry(".G", 17461, "F"));
    v.push(entry(".M", 18500, "F#"));
    v.push(entry(".M'", 19600, "G"));
    v.push(entry(".P", 20765, "G#"));
    v.push(entry(".d", 22000, "A"));
    v.push(entry(".D", 23308, "A#"));
    v.push(entry(".n", 24694, "B"));
    v.push(entry(".N", 26163, "C"));
    v.push(entry("S", 27718, "C#"));
    v.push(entry("r", 29366, "D"));
    v.push(entry("R", 31113, "D#"));
    v.push(entry("g", 32963, "E"));
    v.push(entry("G", 34923, "F"));
    v.push(entry("M", 36999, "F#"));
    v.push(entry("M'", 39200, "G"));
    v.push(entry("P", 41530, "G#"));
    v.push(entry("d", 44000, "A"));
    v.push(entry("D", 46616, "A#"));
    v.push(entry("n", 49388, "B"));
    v.push(entry("N", 52325, "C"));
    v.push(entry("S.", 55437, "C#"));
    v.push(entry("r.", 58733, "D"));
    v.push(entry("R.", 62225, "D#"));
    v.push(entry("g.", 65925, "E"));
    v.push(entry("G.", 69846, "F"));
    v.push(entry("M.", 73999, "F#"));
    v.push(entry("M'.", 78399, "G"));
    v.push(entry("P.", 83061, "G#"));
    v.push(entry("d.", 88000, "A"));
    v.push(entry("D.", 93233, "A#"));
    v.push(entry("n.", 98777, "B"));
    v.push(entry("N.", 104650, "C"));
    SwarTable { entries: v }
}

} // verus!
