use crate::error::{DatabaseError, ErrorKind};
use crate::text::{
    all_digits, chars_of, decimal_string, decimal_text, decimal_value, find_char, find_from, has_no,
    lemma_decimal_round_trip, lemma_find_char_at, parse_decimal, parse_u64,
};
use vstd::prelude::*;
use vstd::string::*;

verus! {

/// What a change-log record does to its key.
#[derive(Clone, Copy, Debug, PartialEq, Eq, Structural)]
pub enum Operation {
    APPEND,
    REMOVE,
}

/// One operation of the change log.
#[derive(Debug)]
pub struct Record {
    pub id: u64,
    pub content: Option<String>,
    pub operation: Operation,
}

/// A record as plain values.
pub struct RecordView {
    pub id: u64,
    pub content: Option<Seq<char>>,
    pub operation: Operation,
}

pub open spec fn content_view(c: Option<String>) -> Option<Seq<char>> {
    match c {
        Some(s) => Some(s@),
        None => None,
    }
}

impl View for Record {
    type V = RecordView;

    open spec fn view(&self) -> RecordView {
        RecordView { id: self.id, content: content_view(self.content), operation: self.operation }
    }
}

/// How a record reads to a person: `APPEND: (id, content)` or `REMOVE: (id)`.
pub open spec fn description(r: RecordView) -> Seq<char> {
    match r.operation {
        Operation::APPEND => "APPEND: ("@ + decimal_text(r.id as nat) + ", "@ + match r.content {
            Some(c) => c,
            None => Seq::empty(),
        } + ")"@,
        Operation::REMOVE => "REMOVE: ("@ + decimal_text(r.id as nat) + ")"@,
    }
}

impl Record {
    /// The record as a person reads it, as `description` gives it.
    pub fn to_string(&self) -> (r: String)
        ensures
            r@ == description(self@),
    {
        let id = decimal_string(self.id);
        let mut text = String::new();
        match self.operation {
            Operation::APPEND => {
                text.append("APPEND: (");
                text.append(id.as_str());
                text.append(", ");
                match &self.content {
                    Some(c) => text.append(c.as_str()),
                    None => {},
                }
                text.append(")");
            },
            Operation::REMOVE => {
                text.append("REMOVE: (");
                text.append(id.as_str());
                text.append(")");
            },
        }
        assert(text@ =~= description(self@));
        text
    }
}

/// An insert carries a content; a delete does not.
pub open spec fn well_formed(r: RecordView) -> bool {
    match r.operation {
        Operation::APPEND => r.content is Some,
        Operation::REMOVE => r.content is None,
    }
}

/// A record can be written as one line that reads back the same: an insert's
/// content holds no comma and no newline.
pub open spec fn writable(r: RecordView) -> bool {
    match r.operation {
        Operation::APPEND => r.content is Some && has_no(r.content->0, ',') && has_no(
            r.content->0,
            '\n',
        ),
        Operation::REMOVE => true,
    }
}

/// The operation code `0` inserts, `1` deletes.
pub open spec fn opcode(s: Seq<char>) -> Option<Operation> {
    match parse_decimal(s) {
        Some(v) => if v == 0 {
            Some(Operation::APPEND)
        } else if v == 1 {
            Some(Operation::REMOVE)
        } else {
            None
        },
        None => None,
    }
}

/// How a change-log line reads: `id,op` is a delete, `id,0,content` an
/// insert, `id,1,content` a delete; anything else is malformed.
pub open spec fn parse_line_spec(line: Seq<char>) -> Option<RecordView> {
    let i = find_char(line, ',') as int;
    if i >= line.len() {
        None
    } else {
        let id = parse_decimal(line.subrange(0, i));
        let rest = line.subrange(i + 1, line.len() as int);
        let j = find_char(rest, ',') as int;
        if id is None {
            None
        } else if j >= rest.len() {
            if opcode(rest) is Some {
                Some(RecordView { id: id->0, content: None, operation: Operation::REMOVE })
            } else {
                None
            }
        } else {
            let content = rest.subrange(j + 1, rest.len() as int);
            if !has_no(content, ',') {
                None
            } else {
                match opcode(rest.subrange(0, j)) {
                    Some(Operation::APPEND) => Some(
                        RecordView { id: id->0, content: Some(content), operation: Operation::APPEND },
                    ),
                    Some(Operation::REMOVE) => Some(
                        RecordView { id: id->0, content: None, operation: Operation::REMOVE },
                    ),
                    None => None,
                }
            }
        }
    }
}

/// The line (without its newline) that stands for a record.
pub open spec fn record_line(r: RecordView) -> Seq<char> {
    match r.operation {
        Operation::APPEND => decimal_text(r.id as nat) + seq![',', '0', ','] + r.content->0,
        Operation::REMOVE => decimal_text(r.id as nat) + seq![',', '1'],
    }
}

/// Parses one line of the change log.
pub fn parse_line(line: &str) -> (r: Result<Record, DatabaseError>)
    ensures
        match r {
            Ok(rec) => parse_line_spec(line@) == Some(rec@),
            Err(e) => parse_line_spec(line@) is None && e.spec_kind() == ErrorKind::MalformedRecord,
        },
{
    let cs = chars_of(line);
    let n = cs.len();
    let ghost l = line@;
    let i = find_from(&cs, 0, ',');
    proof {
        assert(l.subrange(0, n as int) =~= l);
    }
    if i == n {
        return Err(DatabaseError::new("malformed record: no delimiter"));
    }
    let ghost rest = l.subrange(i + 1, n as int);
    let id = parse_u64(&cs, 0, i);
    let j = find_from(&cs, i + 1, ',');
    let id = match id {
        Some(v) => v,
        None => {
            return Err(DatabaseError::new("malformed record: bad id"));
        },
    };
    if j == n {
        let op = parse_u64(&cs, i + 1, n);
        match op {
            Some(v) => {
                if v == 0 || v == 1 {
                    return Ok(Record { id, content: None, operation: Operation::REMOVE });
                }
            },
            None => {},
        }
        return Err(DatabaseError::new("malformed record: undefined operation"));
    }
    proof {
        assert(rest.subrange(0, j - i - 1) =~= l.subrange(i + 1, j as int));
        assert(rest.subrange(j - i, rest.len() as int) =~= l.subrange(j + 1, n as int));
    }
    let k = find_from(&cs, j + 1, ',');
    if k < n {
        assert(l.subrange(j + 1, n as int)[k - j - 1] == ',');
        return Err(DatabaseError::new("malformed record: too many fields"));
    }
    assert forall|t: int| 0 <= t < n - j - 1 implies #[trigger] l.subrange(j + 1, n as int)[t] != ','
        by {
        assert(l.subrange(j + 1, n as int)[t] == cs@[j + 1 + t]);
    }
    let op = parse_u64(&cs, i + 1, j);
    match op {
        Some(v) => {
            if v == 0 {
                let content = line.substring_char(j + 1, n).to_owned();
                return Ok(Record { id, content: Some(content), operation: Operation::APPEND });
            } else if v == 1 {
                return Ok(Record { id, content: None, operation: Operation::REMOVE });
            }
        },
        None => {},
    }
    Err(DatabaseError::new("malformed record: undefined operation"))
}

/// The line (without its newline) that stands for `record` in the change log;
/// an error where the record cannot be written so as to read back the same.
pub fn format_record(record: &Record) -> (r: Result<String, DatabaseError>)
    ensures
        match r {
            Ok(s) => writable(record@) && s@ == record_line(record@),
            Err(e) => !writable(record@) && e.spec_kind() == ErrorKind::UnwritableRecord,
        },
{
    let id_text = decimal_string(record.id);
    match record.operation {
        Operation::REMOVE => {
            proof {
                reveal_strlit(",1");
            }
            let s = id_text.concat(",1");
            assert(s@ =~= record_line(record@));
            Ok(s)
        },
        Operation::APPEND => match &record.content {
            None => Err(DatabaseError::of_kind(ErrorKind::UnwritableRecord, "an insert needs a content")),
            Some(c) => {
                let cs = chars_of(c.as_str());
                let comma = find_from(&cs, 0, ',');
                let newline = find_from(&cs, 0, '\n');
                if comma < cs.len() || newline < cs.len() {
                    return Err(
                        DatabaseError::of_kind(
                            ErrorKind::UnwritableRecord,
                            "content may hold no comma and no newline",
                        ),
                    );
                }
                proof {
                    reveal_strlit(",0,");
                }
                let s = id_text.concat(",0,").concat(c.as_str());
                assert(s@ =~= record_line(record@));
                Ok(s)
            },
        },
    }
}

proof fn lemma_single_digit(c: char)
    requires
        '0' <= c <= '9',
    ensures
        parse_decimal(seq![c]) == Some((c as u32 - '0' as u32) as u64),
{
    let s = seq![c];
    assert(s.drop_last() =~= Seq::<char>::empty());
    assert(decimal_value(Seq::<char>::empty()) == 0);
    assert(decimal_value(s) == 10 * decimal_value(s.drop_last()) + (c as u32 - '0' as u32) as nat);
    assert(all_digits(s));
}

/// Writing a record as a line and parsing the line gives the record back.
pub proof fn lemma_record_line_round_trip(r: RecordView)
    requires
        well_formed(r),
        writable(r),
    ensures
        parse_line_spec(record_line(r)) == Some(r),
{
    let d = decimal_text(r.id as nat);
    lemma_decimal_round_trip(r.id as nat);
    let line = record_line(r);
    assert forall|t: int| 0 <= t < d.len() implies line[t] != ',' by {
        assert(line[t] == d[t]);
    }
    lemma_find_char_at(line, ',', d.len() as int);
    assert(line.subrange(0, d.len() as int) =~= d);
    let rest = line.subrange(d.len() as int + 1, line.len() as int);
    match r.operation {
        Operation::REMOVE => {
            assert(rest =~= seq!['1']);
            lemma_find_char_at(rest, ',', 1);
            lemma_single_digit('1');
        },
        Operation::APPEND => {
            let c = r.content->0;
            assert(rest =~= seq!['0', ','] + c);
            lemma_find_char_at(rest, ',', 1);
            assert(rest.subrange(0, 1) =~= seq!['0']);
            lemma_single_digit('0');
            assert(rest.subrange(2, rest.len() as int) =~= c);
        },
    }
}

} // verus!
