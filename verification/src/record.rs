use vstd::prelude::*;
use vstd::string::StringSliceAdditionalSpecFns;

verus! {

/// What a line of a trace asks for.
#[derive(Debug, PartialEq, Eq, Copy, Clone, Structural)]
pub enum Label {
    Load,
    Store,
    Other,
}

/// One line of a trace: for a load or a store the address, for anything else the number
/// of cycles that the computation takes.
#[derive(Debug, PartialEq, Eq, Copy, Clone, Structural)]
pub struct Record {
    pub label: Label,
    pub value: u32,
}

/// The value of a hexadecimal digit, of either case.
pub open spec fn hex_digit(b: u8) -> Option<nat> {
    if 48 <= b <= 57 {
        Some((b - 48) as nat)
    } else if 97 <= b <= 102 {
        Some((b - 87) as nat)
    } else if 65 <= b <= 70 {
        Some((b - 55) as nat)
    } else {
        None
    }
}

/// The number that a run of hexadecimal digits writes; nothing where one of them is no
/// digit. The empty run writes zero.
pub open spec fn hex_number(s: Seq<u8>) -> Option<nat>
    decreases s.len(),
{
    if s.len() == 0 {
        Some(0)
    } else {
        match (hex_number(s.drop_last()), hex_digit(s.last())) {
            (Some(v), Some(d)) => Some(16 * v + d),
            _ => None,
        }
    }
}

/// The 32-bit number that a text writes in base 16: an optional plus sign, then one
/// hexadecimal digit or more, and nothing else; nothing where the text is of another
/// form or the number does not fit.
pub open spec fn parse_hex(s: Seq<u8>) -> Option<u32> {
    let digits = if s.len() > 0 && s[0] == 43 {
        s.skip(1)
    } else {
        s
    };
    if digits.len() == 0 {
        None
    } else {
        match hex_number(digits) {
            Some(v) => if v <= u32::MAX {
                Some(v as u32)
            } else {
                None
            },
            None => None,
        }
    }
}

/// The text without the `0x` that it starts with, however often it is repeated.
pub open spec fn trim_prefix(s: Seq<u8>) -> Seq<u8>
    decreases s.len(),
{
    if s.len() >= 2 && s[0] == 48 && s[1] == 120 {
        trim_prefix(s.skip(2))
    } else {
        s
    }
}

/// The value that a text writes: a hexadecimal number, with or without `0x` before it.
pub open spec fn value_of(s: Seq<u8>) -> Option<u32> {
    parse_hex(trim_prefix(s))
}

/// The label that a text writes: `0` a load, `1` a store, anything else a computation.
pub open spec fn label_of(s: Seq<u8>) -> Label {
    if s.len() == 1 && s[0] == 48 {
        Label::Load
    } else if s.len() == 1 && s[0] == 49 {
        Label::Store
    } else {
        Label::Other
    }
}

/// The end of the field that starts at `start`: the position of the next space, or the
/// end of the text.
pub open spec fn field_end(s: Seq<u8>, start: int) -> int
    decreases s.len() - start,
{
    if start >= s.len() {
        s.len() as int
    } else if s[start] == 32 {
        start
    } else {
        field_end(s, start + 1)
    }
}

/// The record that a line writes: its first field the label, its second the value,
/// fields being parted by single spaces; nothing where the line has one field only or
/// its second field writes no value.
pub open spec fn record_of(s: Seq<u8>) -> Option<Record> {
    let first = field_end(s, 0);
    if first >= s.len() {
        None
    } else {
        let second = field_end(s, first + 1);
        match value_of(s.subrange(first + 1, second)) {
            Some(value) => Some(Record { label: label_of(s.subrange(0, first)), value }),
            None => None,
        }
    }
}

proof fn lemma_hex_prefix(s: Seq<u8>, k: int)
    requires
        0 <= k <= s.len(),
    ensures
        hex_number(s.take(k)) is None ==> hex_number(s) is None,
        forall|x: nat|
            hex_number(s.take(k)) == Some(x) && x > u32::MAX ==> hex_number(s) is None || (
            hex_number(s) is Some && hex_number(s).unwrap() > u32::MAX),
    decreases s.len() - k,
{
    if k < s.len() {
        lemma_hex_prefix(s, k + 1);
        assert(s.take(k + 1).drop_last() =~= s.take(k));
    } else {
        assert(s.take(k) =~= s);
    }
}

fn digit_value(b: u8) -> (d: Option<u8>)
    ensures
        match d {
            Some(v) => hex_digit(b) == Some(v as nat) && v < 16,
            None => hex_digit(b) is None,
        },
{
    if 48 <= b && b <= 57 {
        Some(b - 48)
    } else if 97 <= b && b <= 102 {
        Some(b - 87)
    } else if 65 <= b && b <= 70 {
        Some(b - 55)
    } else {
        None
    }
}

fn parse_hex_field(line: &[u8], start: usize, end: usize) -> (value: Option<u32>)
    requires
        start <= end <= line@.len(),
    ensures
        value == parse_hex(line@.subrange(start as int, end as int)),
{
    let ghost s = line@.subrange(start as int, end as int);
    let mut i: usize = start;
    if start < end && line[start] == 43 {
        i = start + 1;
    }
    let first: usize = i;
    let ghost digits = line@.subrange(first as int, end as int);
    assert(digits =~= if s.len() > 0 && s[0] == 43 {
        s.skip(1)
    } else {
        s
    });
    if first == end {
        return None;
    }
    let mut v: u64 = 0;
    let mut over: bool = false;
    assert(digits.take(0) =~= Seq::<u8>::empty());
    while i < end
        invariant
            first <= i <= end <= line@.len(),
            first < end,
            s == line@.subrange(start as int, end as int),
            digits == line@.subrange(first as int, end as int),
            digits == if s.len() > 0 && s[0] == 43 {
                s.skip(1)
            } else {
                s
            },
            !over ==> hex_number(digits.take(i - first)) == Some(v as nat) && v <= u32::MAX,
            over ==> hex_number(digits.take(i - first)) is Some && hex_number(
                digits.take(i - first),
            ).unwrap() > u32::MAX,
        decreases end - i,
    {
        assert(digits.take(i - first + 1).drop_last() =~= digits.take(i - first));
        assert(digits.take(i - first + 1).last() == line@[i as int]);
        match digit_value(line[i]) {
            Some(d) => {
                if !over {
                    v = v * 16 + d as u64;
                    if v > 0xffff_ffff {
                        over = true;
                    }
                }
            },
            None => {
                proof {
                    lemma_hex_prefix(digits, i - first + 1);
                }
                return None;
            },
        }
        i = i + 1;
    }
    assert(digits.take(end - first) =~= digits);
    if over {
        None
    } else {
        Some(v as u32)
    }
}

fn value_field(line: &[u8], start: usize, end: usize) -> (value: Option<u32>)
    requires
        start <= end <= line@.len(),
    ensures
        value == value_of(line@.subrange(start as int, end as int)),
{
    let ghost s = line@.subrange(start as int, end as int);
    let mut i: usize = start;
    while end - i >= 2 && line[i] == 48 && line[i + 1] == 120
        invariant
            start <= i <= end <= line@.len(),
            trim_prefix(line@.subrange(i as int, end as int)) == trim_prefix(
                line@.subrange(start as int, end as int),
            ),
        decreases end - i,
    {
        assert(line@.subrange(i as int, end as int).skip(2) =~= line@.subrange(
            i + 2,
            end as int,
        ));
        i = i + 2;
    }
    parse_hex_field(line, i, end)
}

fn label_field(line: &[u8], start: usize, end: usize) -> (label: Label)
    requires
        start <= end <= line@.len(),
    ensures
        label == label_of(line@.subrange(start as int, end as int)),
{
    let ghost s = line@.subrange(start as int, end as int);
    if end - start == 1 && line[start] == 48 {
        Label::Load
    } else if end - start == 1 && line[start] == 49 {
        Label::Store
    } else {
        Label::Other
    }
}

fn find_field_end(line: &[u8], start: usize) -> (end: usize)
    requires
        start <= line@.len(),
    ensures
        end == field_end(line@, start as int),
        start <= end <= line@.len(),
{
    let mut i: usize = start;
    while i < line.len() && line[i] != 32
        invariant
            start <= i <= line@.len(),
            field_end(line@, i as int) == field_end(line@, start as int),
        decreases line@.len() - i,
    {
        i = i + 1;
    }
    i
}

/// Reads the record that a line of a trace writes.
pub fn parse_record(line: &[u8]) -> (record: Option<Record>)
    ensures
        record == record_of(line@),
{
    let first: usize = find_field_end(line, 0);
    if first >= line.len() {
        return None;
    }
    let second: usize = find_field_end(line, first + 1);
    match value_field(line, first + 1, second) {
        Some(value) => Some(Record { label: label_field(line, 0, first), value }),
        None => None,
    }
}

impl Record {
    /// The record with the label and the value that the two texts write; nothing where
    /// the second writes no value.
    pub fn new(label: &str, value: &str) -> (record: Option<Record>)
        ensures
            record == match value_of(value.spec_bytes()) {
                Some(v) => Some(Record { label: label_of(label.spec_bytes()), value: v }),
                None => None,
            },
    {
        match Record::line_to_value(value) {
            Some(v) => Some(Record { label: Record::line_to_label(label), value: v }),
            None => None,
        }
    }

    pub fn line_to_label(line: &str) -> (label: Label)
        ensures
            label == label_of(line.spec_bytes()),
    {
        let bytes = line.as_bytes();
        assert(bytes@.subrange(0, bytes@.len() as int) =~= bytes@);
        label_field(bytes, 0, bytes.len())
    }

    pub fn line_to_value(line: &str) -> (value: Option<u32>)
        ensures
            value == value_of(line.spec_bytes()),
    {
        let bytes = line.as_bytes();
        assert(bytes@.subrange(0, bytes@.len() as int) =~= bytes@);
        value_field(bytes, 0, bytes.len())
    }

    /// Reads the record that a line of a trace writes.
    pub fn parse(line: &str) -> (record: Option<Record>)
        ensures
            record == record_of(line.spec_bytes()),
    {
        parse_record(line.as_bytes())
    }
}

/// The trace of one core, and how far it has been read.
pub struct RecordStream {
    file_name: String,
    line_count: usize,
    records: Vec<Record>,
    pos: usize,
}

impl RecordStream {
    /// The records of the trace, read or not.
    pub closed spec fn records(&self) -> Seq<Record> {
        self.records@
    }

    /// Number of records read so far.
    pub closed spec fn position(&self) -> nat {
        self.pos as nat
    }

    /// The name of the file that the trace was read from.
    pub closed spec fn name(&self) -> Seq<char> {
        self.file_name@
    }

    /// The number of lines that was counted when the trace was read.
    pub closed spec fn lines(&self) -> usize {
        self.line_count
    }

    /// No more records are read than there are.
    pub open spec fn wf(&self) -> bool {
        self.position() <= self.records().len()
    }

    /// A trace of which nothing has been read. `line_count` is the number of records
    /// where `count_lines` asks for it, and 0 otherwise.
    pub fn new(file_name: String, records: Vec<Record>, count_lines: bool) -> (stream: Self)
        ensures
            stream.wf(),
            stream.records() == records@,
            stream.position() == 0,
            stream.name() == file_name@,
            stream.lines() == if count_lines {
                records@.len()
            } else {
                0
            },
    {
        let line_count: usize = if count_lines {
            records.len()
        } else {
            0
        };
        RecordStream { file_name, line_count, records, pos: 0 }
    }

    /// The next record, if one is left.
    pub fn next(&mut self) -> (record: Option<Record>)
        requires
            old(self).wf(),
        ensures
            final(self).wf(),
            final(self).records() == old(self).records(),
            final(self).name() == old(self).name(),
            final(self).lines() == old(self).lines(),
            record == if old(self).position() < old(self).records().len() {
                Some(old(self).records()[old(self).position() as int])
            } else {
                None
            },
            final(self).position() == if old(self).position() < old(self).records().len() {
                old(self).position() + 1
            } else {
                old(self).position()
            },
    {
        if self.pos < self.records.len() {
            let record: Record = self.records[self.pos];
            self.pos = self.pos + 1;
            Some(record)
        } else {
            None
        }
    }

    /// The record that `next` would give, if one is left.
    pub fn peek(&self) -> (record: Option<Record>)
        requires
            self.wf(),
        ensures
            record == if self.position() < self.records().len() {
                Some(self.records()[self.position() as int])
            } else {
                None
            },
    {
        if self.pos < self.records.len() {
            Some(self.records[self.pos])
        } else {
            None
        }
    }

    /// The name of the file that the trace was read from.
    pub fn file_name(&self) -> (name: &String)
        ensures
            name@ == self.name(),
    {
        &self.file_name
    }

    /// The number of lines that was counted when the trace was read.
    pub fn line_count(&self) -> (lines: usize)
        ensures
            lines == self.lines(),
    {
        self.line_count
    }

    /// Number of records of the trace.
    pub fn len(&self) -> (len: usize)
        ensures
            len == self.records().len(),
    {
        self.records.len()
    }

    /// Number of records read so far.
    pub fn consumed(&self) -> (pos: usize)
        ensures
            pos == self.position(),
    {
        self.pos
    }
}

} // verus!
