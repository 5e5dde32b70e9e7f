//! The chart: its lines, its records and its tempo.
//!
//! A line is a data record (`MMMCC:` and object codes), a sample definition
//! (`#WAVxx name`) or metadata (`#KEY value`), tried in that order from the
//! start of the line; a line that is none of them is passed over.

use vstd::prelude::*;
use vstd::string::*;
use crate::text::{is_decimal, is_upper, is_base36, digit_value, pair_value, is_u16_text, decimal_value, unsigned_digits, decimal_char, upper_char, base36_char, base36_value, parse_u16};

verus! {

/// Sample ids are two base-36 digits: `0` to `SAMPLE_IDS - 1`.
pub const SAMPLE_IDS: usize = 1296;

/// The tempo of a chart that names none, in beats per minute.
pub const DEFAULT_BPM: u16 = 130;

/// The largest measure number that three digits write.
pub const MAX_MEASURE: u16 = 999;

/// One data line: the object codes of one channel in one measure.
pub struct BMSDatum {
    pub measure: u16,
    pub channel: u8,
    pub message: Vec<u32>,
}

/// A record as plain values.
pub struct DatumView {
    pub measure: int,
    pub channel: int,
    pub message: Seq<u32>,
}

impl View for BMSDatum {
    type V = DatumView;

    open spec fn view(&self) -> DatumView {
        DatumView {
            measure: self.measure as int,
            channel: self.channel as int,
            message: self.message@,
        }
    }
}

/// Why a chart could not be loaded.
#[derive(Debug, PartialEq, Eq, Clone, Copy)]
pub enum ParseError {
    /// The chart names a tempo that is no number of at most sixteen bits.
    BadTempo,
}

/// A parsed chart.
pub struct BMS {
    /// Metadata in the order of the lines; of two entries with one key the
    /// later counts.
    pub metadata: Vec<(String, String)>,
    /// The file name of each sample id that the chart defines.
    pub sounds: Vec<Option<String>>,
    /// The records.
    pub data: Vec<BMSDatum>,
    /// Beats per minute.
    pub bpm: u16,
}

/// A chart as plain values.
pub struct ChartView {
    pub metadata: Seq<(Seq<char>, Seq<char>)>,
    pub sounds: Map<int, Seq<char>>,
    pub data: Seq<DatumView>,
}

/// The records of `s` as plain values.
pub open spec fn datum_views(s: Seq<BMSDatum>) -> Seq<DatumView> {
    s.map_values(|d: BMSDatum| d@)
}

/// The metadata entries as plain text.
pub open spec fn entry_views(s: Seq<(String, String)>) -> Seq<(Seq<char>, Seq<char>)> {
    s.map_values(|e: (String, String)| (e.0@, e.1@))
}

/// The sample table as a map from id to file name.
pub open spec fn table_view(s: Seq<Option<String>>) -> Map<int, Seq<char>> {
    Map::new(|id: int| 0 <= id < s.len() && s[id] is Some, |id: int| s[id]->0@)
}

/// The lines as plain text.
pub open spec fn line_views(lines: Seq<String>) -> Seq<Seq<char>> {
    lines.map_values(|l: String| l@)
}

/// The line starts with three digits, two digits, a colon and one object code.
pub open spec fn is_data_line(s: Seq<char>) -> bool {
    &&& s.len() >= 8
    &&& is_decimal(s[0])
    &&& is_decimal(s[1])
    &&& is_decimal(s[2])
    &&& is_decimal(s[3])
    &&& is_decimal(s[4])
    &&& s[5] == ':'
    &&& is_base36(s[6])
    &&& is_base36(s[7])
}

/// The measure number that a data line starts with.
pub open spec fn line_measure(s: Seq<char>) -> int {
    digit_value(s[0]) * 100 + digit_value(s[1]) * 10 + digit_value(s[2])
}

/// The channel that a data line names.
pub open spec fn line_channel(s: Seq<char>) -> int {
    digit_value(s[3]) * 10 + digit_value(s[4])
}

/// The object codes at the start of `s`: one for each pair of base-36
/// digits, up to the first pair that is incomplete or holds another character.
pub open spec fn leading_codes(s: Seq<char>) -> Seq<u32>
    decreases s.len(),
{
    if s.len() >= 2 && is_base36(s[0]) && is_base36(s[1]) {
        seq![pair_value(s[0], s[1]) as u32] + leading_codes(s.skip(2))
    } else {
        Seq::empty()
    }
}

/// The record that a data line writes.
pub open spec fn line_datum(s: Seq<char>) -> DatumView {
    DatumView {
        measure: line_measure(s),
        channel: line_channel(s),
        message: leading_codes(s.skip(6)),
    }
}

/// The line starts with `#WAV`, a sample id of two base-36 digits and a space.
pub open spec fn is_sample_line(s: Seq<char>) -> bool {
    &&& s.len() >= 7
    &&& s[0] == '#'
    &&& s[1] == 'W'
    &&& s[2] == 'A'
    &&& s[3] == 'V'
    &&& is_base36(s[4])
    &&& is_base36(s[5])
    &&& s[6] == ' '
}

/// The number of upper-case letters that stand in `s` from `from` on without
/// a gap.
pub open spec fn upper_run(s: Seq<char>, from: int) -> int
    decreases s.len() - from,
{
    if 0 <= from < s.len() && is_upper(s[from]) {
        1 + upper_run(s, from + 1)
    } else {
        0
    }
}

/// The line starts with `#`, one or more upper-case letters and a space.
pub open spec fn is_metadata_line(s: Seq<char>) -> bool {
    let k = upper_run(s, 1);
    &&& s.len() > 0
    &&& s[0] == '#'
    &&& k >= 1
    &&& 1 + k < s.len()
    &&& s[1 + k] == ' '
}

/// The key of a metadata line: its upper-case letters.
pub open spec fn line_key(s: Seq<char>) -> Seq<char> {
    s.subrange(1, 1 + upper_run(s, 1))
}

/// The value of a metadata line: what follows the space, to the end.
pub open spec fn line_value(s: Seq<char>) -> Seq<char> {
    s.skip(2 + upper_run(s, 1))
}

/// The chart after one more line: a data line adds a record at the end, a
/// sample definition sets the table entry of its id, a metadata line adds an
/// entry at the end, and any other line changes nothing.
pub open spec fn apply_line(c: ChartView, s: Seq<char>) -> ChartView {
    if is_data_line(s) {
        ChartView { data: c.data.push(line_datum(s)), ..c }
    } else if is_sample_line(s) {
        ChartView { sounds: c.sounds.insert(pair_value(s[4], s[5]), s.skip(7)), ..c }
    } else if is_metadata_line(s) {
        ChartView { metadata: c.metadata.push((line_key(s), line_value(s))), ..c }
    } else {
        c
    }
}

/// The chart after all of `lines`, taken in order.
pub open spec fn apply_lines(c: ChartView, lines: Seq<Seq<char>>) -> ChartView
    decreases lines.len(),
{
    if lines.len() == 0 {
        c
    } else {
        apply_line(apply_lines(c, lines.drop_last()), lines.last())
    }
}

/// The chart before any line.
pub open spec fn empty_chart() -> ChartView {
    ChartView { metadata: Seq::empty(), sounds: Map::empty(), data: Seq::empty() }
}

/// The value that the entries give `key`: that of the last entry with it.
pub open spec fn lookup(entries: Seq<(Seq<char>, Seq<char>)>, key: Seq<char>) -> Option<Seq<char>>
    decreases entries.len(),
{
    if entries.len() == 0 {
        None
    } else if entries.last().0 == key {
        Some(entries.last().1)
    } else {
        lookup(entries.drop_last(), key)
    }
}

/// The metadata key of the tempo.
pub open spec fn tempo_key() -> Seq<char> {
    seq!['B', 'P', 'M']
}

/// The records stand in the order of their measures.
pub open spec fn sorted_by_measure(s: Seq<DatumView>) -> bool {
    forall|i: int, j: int| 0 <= i <= j < s.len() ==> s[i].measure <= s[j].measure
}

/// The records of measure `m`, in the order in which `s` holds them.
pub open spec fn of_measure(s: Seq<DatumView>, m: int) -> Seq<DatumView> {
    s.filter(|d: DatumView| d.measure == m)
}

/// `out` holds the records of `src` ordered by measure, those of one measure
/// in the order that they have in `src`.
pub open spec fn is_stable_sort(src: Seq<DatumView>, out: Seq<DatumView>) -> bool {
    &&& sorted_by_measure(out)
    &&& forall|m: int| of_measure(out, m) == of_measure(src, m)
}

impl BMS {
    /// The chart as plain values.
    pub open spec fn view(&self) -> ChartView {
        ChartView {
            metadata: entry_views(self.metadata@),
            sounds: table_view(self.sounds@),
            data: datum_views(self.data@),
        }
    }

    /// The table has a place for every sample id, and every measure number
    /// is one that three digits write.
    pub open spec fn wf(&self) -> bool {
        &&& self.sounds@.len() == SAMPLE_IDS
        &&& forall|i: int|
            0 <= i < self.data@.len() ==> (#[trigger] self.data@[i]).measure <= MAX_MEASURE
    }

    /// The records stand in the order of their measures.
    pub open spec fn ordered(&self) -> bool {
        sorted_by_measure(self@.data)
    }

    /// A chart without lines.
    pub fn empty() -> (r: BMS)
        ensures
            r.wf(),
            r@ == empty_chart(),
            r.bpm == DEFAULT_BPM,
    {
        let mut sounds: Vec<Option<String>> = Vec::new();
        let mut i: usize = 0;
        while i < SAMPLE_IDS
            invariant
                i <= SAMPLE_IDS,
                sounds@.len() == i,
                forall|k: int| 0 <= k < i ==> sounds@[k] is None,
            decreases SAMPLE_IDS - i,
        {
            sounds.push(None);
            i = i + 1;
        }
        let r = BMS { metadata: Vec::new(), sounds, data: Vec::new(), bpm: DEFAULT_BPM };
        assert(r@.metadata =~= Seq::empty());
        assert(r@.data =~= Seq::empty());
        assert(r@.sounds =~= Map::empty());
        r
    }

    /// Reads the object codes that `message` starts with, two characters each.
    pub fn parse_message(message: &str) -> (out: Vec<u32>)
        ensures
            out@ == leading_codes(message@),
            forall|i: int| 0 <= i < out@.len() ==> out@[i] < SAMPLE_IDS,
    {
        let n: usize = message.unicode_len();
        let mut out: Vec<u32> = Vec::new();
        let mut i: usize = 0;
        proof {
            assert(message@.skip(0) =~= message@);
            assert(out@ + leading_codes(message@) =~= leading_codes(message@));
        }
        loop
            invariant
                n == message@.len(),
                i <= n,
                leading_codes(message@) == out@ + leading_codes(message@.skip(i as int)),
                forall|k: int| 0 <= k < out@.len() ==> out@[k] < SAMPLE_IDS,
            ensures
                out@ == leading_codes(message@),
            decreases n - i,
        {
            let ghost rest = message@.skip(i as int);
            if n - i < 2 {
                assert(out@ + Seq::<u32>::empty() =~= out@);
                break;
            }
            let c1: char = message.get_char(i);
            let c2: char = message.get_char(i + 1);
            assert(rest[0] == c1 && rest[1] == c2);
            if !base36_char(c1) || !base36_char(c2) {
                assert(out@ + Seq::<u32>::empty() =~= out@);
                break;
            }
            let code: u32 = base36_value(c1) * 36 + base36_value(c2);
            proof {
                assert(rest.skip(2) =~= message@.skip(i + 2));
                assert(out@.push(code) + leading_codes(message@.skip(i + 2)) =~= out@ + (seq![code]
                    + leading_codes(message@.skip(i + 2))));
            }
            out.push(code);
            i = i + 2;
        }
        out
    }

    /// Reads a data line; `None` where the line is none.
    pub fn handle_data_line(line: &str) -> (r: Option<BMSDatum>)
        ensures
            r is Some <==> is_data_line(line@),
            r matches Some(d) ==> d@ == line_datum(line@) && d.measure <= MAX_MEASURE,
    {
        let n: usize = line.unicode_len();
        if n < 8 {
            return None;
        }
        let m0: char = line.get_char(0);
        let m1: char = line.get_char(1);
        let m2: char = line.get_char(2);
        let c0: char = line.get_char(3);
        let c1: char = line.get_char(4);
        if !decimal_char(m0) || !decimal_char(m1) || !decimal_char(m2) || !decimal_char(c0)
            || !decimal_char(c1) {
            return None;
        }
        if line.get_char(5) != ':' || !base36_char(line.get_char(6)) || !base36_char(
            line.get_char(7),
        ) {
            return None;
        }
        let measure: u32 = base36_value(m0) * 100 + base36_value(m1) * 10 + base36_value(m2);
        let channel: u32 = base36_value(c0) * 10 + base36_value(c1);
        let message = BMS::parse_message(line.substring_char(6, n));
        Some(BMSDatum { measure: measure as u16, channel: channel as u8, message })
    }

    /// Reads a sample definition: the id and the file name. `None` where the
    /// line is none.
    pub fn handle_sample_line(line: &str) -> (r: Option<(u32, String)>)
        ensures
            r is Some <==> is_sample_line(line@),
            r matches Some(p) ==> p.0 == pair_value(line@[4], line@[5]) && p.0 < SAMPLE_IDS && p.1@
                == line@.skip(7),
    {
        let n: usize = line.unicode_len();
        if n < 7 {
            return None;
        }
        if line.get_char(0) != '#' || line.get_char(1) != 'W' || line.get_char(2) != 'A'
            || line.get_char(3) != 'V' {
            return None;
        }
        let d1: char = line.get_char(4);
        let d2: char = line.get_char(5);
        if !base36_char(d1) || !base36_char(d2) || line.get_char(6) != ' ' {
            return None;
        }
        let id: u32 = base36_value(d1) * 36 + base36_value(d2);
        let name = line.substring_char(7, n).to_owned();
        Some((id, name))
    }

    /// Reads a metadata line: the key and the value. `None` where the line is
    /// none.
    pub fn handle_metadata_line(line: &str) -> (r: Option<(String, String)>)
        ensures
            r is Some <==> is_metadata_line(line@),
            r matches Some(p) ==> p.0@ == line_key(line@) && p.1@ == line_value(line@),
    {
        let n: usize = line.unicode_len();
        if n == 0 || line.get_char(0) != '#' {
            return None;
        }
        let mut i: usize = 1;
        while i < n && upper_char(line.get_char(i))
            invariant
                n == line@.len(),
                1 <= i <= n,
                upper_run(line@, 1) == (i - 1) + upper_run(line@, i as int),
            decreases n - i,
        {
            i = i + 1;
        }
        assert(upper_run(line@, i as int) == 0);
        if i == 1 || i >= n || line.get_char(i) != ' ' {
            return None;
        }
        let key = line.substring_char(1, i).to_owned();
        let value = line.substring_char(i + 1, n).to_owned();
        Some((key, value))
    }

    /// Takes one line into the chart.
    pub fn handle_line(&mut self, line: &str)
        requires
            old(self).wf(),
        ensures
            final(self).wf(),
            final(self)@ == apply_line(old(self)@, line@),
            final(self).bpm == old(self).bpm,
    {
        match BMS::handle_data_line(line) {
            Some(datum) => {
                self.data.push(datum);
                assert(self@.data =~= old(self)@.data.push(line_datum(line@)));
            },
            None => match BMS::handle_sample_line(line) {
                Some((id, path)) => {
                    self.sounds.set(id as usize, Some(path));
                    assert(self@.sounds =~= old(self)@.sounds.insert(id as int, line@.skip(7)));
                },
                None => match BMS::handle_metadata_line(line) {
                    Some((key, value)) => {
                        self.metadata.push((key, value));
                        assert(self@.metadata =~= old(self)@.metadata.push(
                            (line_key(line@), line_value(line@)),
                        ));
                    },
                    None => {},
                },
            },
        }
    }

    /// The value that the metadata gives `key`.
    pub fn metadata_value(&self, key: &String) -> (r: Option<&String>)
        ensures
            match r {
                Some(v) => lookup(self@.metadata, key@) == Some(v@),
                None => lookup(self@.metadata, key@) is None,
            },
    {
        let ghost entries = self@.metadata;
        let mut i: usize = self.metadata.len();
        assert(entries.take(i as int) =~= entries);
        while i > 0
            invariant
                i <= self.metadata@.len(),
                entries == self@.metadata,
                lookup(entries, key@) == lookup(entries.take(i as int), key@),
            decreases i,
        {
            i = i - 1;
            assert(entries.take(i + 1).drop_last() =~= entries.take(i as int));
            assert(entries.take(i + 1).last() == (self.metadata@[i as int].0@, self.metadata@[i as int].1@));
            if self.metadata[i].0 == *key {
                return Some(&self.metadata[i].1);
            }
        }
        assert(entries.take(0).len() == 0);
        None
    }

    /// The file name of sample `id`, if the chart defines it.
    pub fn sample_name(&self, id: u32) -> (r: Option<&String>)
        requires
            self.wf(),
        ensures
            match r {
                Some(name) => self@.sounds.contains_key(id as int) && self@.sounds[id as int]
                    == name@,
                None => !self@.sounds.contains_key(id as int),
            },
    {
        if id as usize >= self.sounds.len() {
            return None;
        }
        self.sounds[id as usize].as_ref()
    }

    /// Reads a chart from its lines. The tempo is that of the metadata key
    /// `BPM`, or `DEFAULT_BPM` where the chart has none; the records come out
    /// ordered by measure, those of one measure in the order of their lines.
    pub fn new(lines: &Vec<String>) -> (r: Result<BMS, ParseError>)
        ensures
            ({
                let parsed = apply_lines(empty_chart(), line_views(lines@));
                let tempo = lookup(parsed.metadata, tempo_key());
                match r {
                    Ok(bms) => {
                        &&& bms.wf()
                        &&& bms.ordered()
                        &&& bms@.metadata == parsed.metadata
                        &&& bms@.sounds == parsed.sounds
                        &&& is_stable_sort(parsed.data, bms@.data)
                        &&& bms@.data.len() == parsed.data.len()
                        &&& match tempo {
                            Some(t) => is_u16_text(t) && bms.bpm == decimal_value(
                                unsigned_digits(t),
                            ),
                            None => bms.bpm == DEFAULT_BPM,
                        }
                    },
                    Err(e) => {
                        &&& e == ParseError::BadTempo
                        &&& tempo is Some
                        &&& !is_u16_text(tempo->0)
                    },
                }
            }),
    {
        let mut chart = BMS::empty();
        let ghost texts = line_views(lines@);
        let mut i: usize = 0;
        while i < lines.len()
            invariant
                i <= lines@.len(),
                texts == line_views(lines@),
                chart.wf(),
                chart@ == apply_lines(empty_chart(), texts.take(i as int)),
            decreases lines@.len() - i,
        {
            proof {
                assert(texts.take(i + 1).drop_last() =~= texts.take(i as int));
                assert(texts.take(i + 1).last() == lines@[i as int]@);
            }
            chart.handle_line(lines[i].as_str());
            i = i + 1;
        }
        assert(texts.take(i as int) =~= texts);
        let key = String::from_str("BPM");
        proof {
            reveal_strlit("BPM");
            assert(key@ =~= tempo_key());
        }
        let bpm: u16 = match chart.metadata_value(&key) {
            Some(text) => match parse_u16(text.as_str()) {
                Some(n) => n,
                None => {
                    return Err(ParseError::BadTempo);
                },
            },
            None => DEFAULT_BPM,
        };
        let BMS { metadata, sounds, data, bpm: _ } = chart;
        let data = sort_records(data);
        Ok(BMS { metadata, sounds, data, bpm })
    }
}

/// Where `x` goes in before the first record of a measure not below its own,
/// the records of each measure keep their order, with `x` in front of those
/// of its measure.
pub proof fn lemma_stable_insert(out: Seq<DatumView>, p: int, x: DatumView, m: int)
    requires
        0 <= p <= out.len(),
        forall|k: int| 0 <= k < p ==> (#[trigger] out[k]).measure < x.measure,
    ensures
        of_measure(out.insert(p, x), m) == (if x.measure == m {
            seq![x]
        } else {
            Seq::<DatumView>::empty()
        }) + of_measure(out, m),
{
    let pred = |d: DatumView| d.measure == m;
    let head = out.take(p);
    let tail = out.skip(p);
    let one = if x.measure == m {
        seq![x]
    } else {
        Seq::<DatumView>::empty()
    };
    assert(out.insert(p, x) =~= head + (seq![x] + tail));
    assert(out =~= head + tail);
    Seq::filter_distributes_over_add(head, seq![x] + tail, pred);
    Seq::filter_distributes_over_add(head, tail, pred);
    tail.lemma_filter_prepend(x, pred);
    if x.measure == m {
        assert(head.all(|d: DatumView| !pred(d))) by {
            assert forall|k: int| 0 <= k < head.len() implies !pred(#[trigger] head[k]) by {
                assert(head[k] == out[k]);
            }
        }
        head.lemma_all_neg_filter_empty(pred);
        assert(head.filter(pred) =~= Seq::<DatumView>::empty());
        assert(head.filter(pred) + (one + tail.filter(pred)) =~= one + (head.filter(pred)
            + tail.filter(pred)));
    } else {
        assert(head.filter(pred) + (one + tail.filter(pred)) =~= one + (head.filter(pred)
            + tail.filter(pred)));
    }
}

/// Orders the records by measure and keeps, within one measure, the order
/// that they came in.
pub fn sort_records(records: Vec<BMSDatum>) -> (out: Vec<BMSDatum>)
    ensures
        is_stable_sort(datum_views(records@), datum_views(out@)),
        out@.len() == records@.len(),
        (forall|i: int| 0 <= i < records@.len() ==> (#[trigger] records@[i]).measure <= MAX_MEASURE)
            ==> (forall|i: int| 0 <= i < out@.len() ==> (#[trigger] out@[i]).measure <= MAX_MEASURE),
{
    let ghost src = datum_views(records@);
    let ghost bounded = forall|i: int|
        0 <= i < records@.len() ==> (#[trigger] records@[i]).measure <= MAX_MEASURE;
    let ghost total = records@.len();
    let mut rest = records;
    let mut out: Vec<BMSDatum> = Vec::new();
    proof {
        assert(src.skip(total as int) =~= Seq::<DatumView>::empty());
        assert(datum_views(out@) =~= Seq::<DatumView>::empty());
        assert(rest@.take(total as int) =~= rest@);
    }
    while rest.len() > 0
        invariant
            src == datum_views(records@),
            total == records@.len(),
            rest@.len() <= total,
            rest@ == records@.take(rest@.len() as int),
            out@.len() + rest@.len() == total,
            sorted_by_measure(datum_views(out@)),
            forall|m: int|
                of_measure(datum_views(out@), m) == of_measure(src.skip(rest@.len() as int), m),
            bounded ==> forall|i: int|
                0 <= i < out@.len() ==> (#[trigger] out@[i]).measure <= MAX_MEASURE,
            bounded == (forall|i: int|
                0 <= i < records@.len() ==> (#[trigger] records@[i]).measure <= MAX_MEASURE),
        decreases rest@.len(),
    {
        let ghost n = rest@.len() as int;
        let ghost before = out@;
        let x = rest.pop().unwrap();
        assert(x == records@[n - 1]);
        assert(rest@ =~= records@.take(n - 1));
        let mut p: usize = 0;
        while p < out.len() && out[p].measure < x.measure
            invariant
                p <= out@.len(),
                forall|k: int| 0 <= k < p ==> (#[trigger] out@[k]).measure < x.measure,
            decreases out@.len() - p,
        {
            p = p + 1;
        }
        out.insert(p, x);
        proof {
            let old_views = datum_views(before);
            let new_views = datum_views(out@);
            assert(new_views =~= old_views.insert(p as int, x@));
            assert(src.skip(n - 1) =~= seq![x@] + src.skip(n));
            assert forall|m: int| of_measure(new_views, m) == of_measure(src.skip(n - 1), m) by {
                lemma_stable_insert(old_views, p as int, x@, m);
                src.skip(n).lemma_filter_prepend(x@, |d: DatumView| d.measure == m);
            }
            assert(sorted_by_measure(new_views)) by {
                assert forall|i: int, j: int| 0 <= i <= j < new_views.len() implies new_views[i].measure
                    <= new_views[j].measure by {
                    let a = if i < p { i } else { i - 1 };
                    let b = if j < p { j } else { j - 1 };
                    if i != p && j != p {
                        assert(new_views[i] == old_views[a]);
                        assert(new_views[j] == old_views[b]);
                        assert(old_views[a].measure <= old_views[b].measure);
                    } else if i == p && j != p {
                        assert(new_views[j] == old_views[j - 1]);
                        assert(old_views[p as int].measure <= old_views[j - 1].measure);
                    } else if i != p && j == p {
                        assert(new_views[i] == old_views[i]);
                    }
                }
            }
            if bounded {
                assert forall|i: int| 0 <= i < out@.len() implies (#[trigger] out@[i]).measure
                    <= MAX_MEASURE by {
                    if i < p {
                        assert(out@[i] == before[i]);
                    } else if i > p {
                        assert(out@[i] == before[i - 1]);
                    }
                }
            }
        }
    }
    assert(src.skip(0) =~= src);
    out
}

} // verus!
