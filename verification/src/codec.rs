//! The log codec: one record, a pair of a key and a value, is persisted as the
//! single text line `key,value`. Neither field may contain the field separator
//! `,` or a line break, so a line decodes into at most one record.
use vstd::prelude::*;
use vstd::string::StrSliceExecFns;
use vstd::string::StringExecFns;

verus! {

/// One key-value pair, as it is persisted in the log.
#[derive(Debug)]
pub struct Record {
    pub key: String,
    pub value: String,
}

impl View for Record {
    type V = (Seq<char>, Seq<char>);

    open spec fn view(&self) -> (Seq<char>, Seq<char>) {
        (self.key@, self.value@)
    }
}

/// A line that did not decode into exactly two fields, surfaced with its
/// content so the caller can report which record was unreadable.
#[derive(Debug)]
pub struct MalformedRecordError {
    pub line: String,
}

/// A key or a value may contain neither the field separator nor a line break:
/// the encoding could not otherwise tell them from the field and record
/// boundaries.
pub open spec fn valid_field(s: Seq<char>) -> bool {
    forall|i: int| 0 <= i < s.len() ==> s[i] != ',' && s[i] != '\n'
}

/// The line that stands for the record `(key, value)`.
pub open spec fn encode_spec(key: Seq<char>, value: Seq<char>) -> Seq<char> {
    key + seq![','] + value
}

/// `line` is the encoding of the record `(key, value)`.
pub open spec fn decodes_to(line: Seq<char>, key: Seq<char>, value: Seq<char>) -> bool {
    &&& line == encode_spec(key, value)
    &&& valid_field(key)
    &&& valid_field(value)
}

/// `line` is the encoding of some record.
pub open spec fn line_decodes(line: Seq<char>) -> bool {
    exists|k: Seq<char>, v: Seq<char>| decodes_to(line, k, v)
}

/// A line that decodes has its separator exactly where the key ends, and no
/// separator or line break anywhere else.
pub proof fn lemma_decoded_line_shape(line: Seq<char>, key: Seq<char>, value: Seq<char>)
    requires
        decodes_to(line, key, value),
    ensures
        line.len() == key.len() + 1 + value.len(),
        line[key.len() as int] == ',',
        forall|i: int| 0 <= i < line.len() && i != key.len() ==> line[i] != ',',
        forall|i: int| 0 <= i < line.len() ==> line[i] != '\n',
{
    assert forall|i: int| 0 <= i < line.len() && i != key.len() implies line[i] != ',' by {
        if i < key.len() {
            assert(line[i] == key[i]);
        } else {
            assert(line[i] == value[i - key.len() - 1]);
        }
    }
    assert forall|i: int| 0 <= i < line.len() implies line[i] != '\n' by {
        if i < key.len() {
            assert(line[i] == key[i]);
        } else if i == key.len() {
            assert(line[i] == ',');
        } else {
            assert(line[i] == value[i - key.len() - 1]);
        }
    }
}

/// A line is the encoding of at most one record.
pub proof fn lemma_decode_unique(
    line: Seq<char>,
    k1: Seq<char>,
    v1: Seq<char>,
    k2: Seq<char>,
    v2: Seq<char>,
)
    requires
        decodes_to(line, k1, v1),
        decodes_to(line, k2, v2),
    ensures
        k1 == k2,
        v1 == v2,
{
    lemma_decoded_line_shape(line, k1, v1);
    lemma_decoded_line_shape(line, k2, v2);
    if k1.len() < k2.len() {
        assert(line[k1.len() as int] == ',');
        assert(false);
    }
    if k2.len() < k1.len() {
        assert(line[k2.len() as int] == ',');
        assert(false);
    }
    assert(k1 =~= k2) by {
        assert forall|i: int| 0 <= i < k1.len() implies k1[i] == k2[i] by {
            assert(line[i] == k1[i]);
            assert(line[i] == k2[i]);
        }
    }
    assert(v1 =~= v2) by {
        assert forall|i: int| 0 <= i < v1.len() implies v1[i] == v2[i] by {
            assert(line[k1.len() + 1 + i] == v1[i]);
            assert(line[k2.len() + 1 + i] == v2[i]);
        }
    }
}

/// Whether `s` may serve as a key or a value: free of `,` and of line breaks.
pub fn is_valid_field(s: &str) -> (r: bool)
    ensures
        r == valid_field(s@),
{
    let len: usize = s.unicode_len();
    let mut i: usize = 0;
    while i < len
        invariant
            i <= len,
            len == s@.len(),
            forall|j: int| 0 <= j < i ==> s@[j] != ',' && s@[j] != '\n',
        decreases len - i,
    {
        let c = s.get_char(i);
        if c == ',' || c == '\n' {
            return false;
        }
        i = i + 1;
    }
    true
}

/// Encodes a record as the line `key,value`, without the terminator that the
/// log writer adds.
pub fn encode(key: &str, value: &str) -> (line: String)
    requires
        valid_field(key@),
        valid_field(value@),
    ensures
        line@ == encode_spec(key@, value@),
        decodes_to(line@, key@, value@),
{
    let mut line: String = key.to_owned();
    line.append(",");
    line.append(value);
    proof {
        reveal_strlit(",");
        assert(line@ =~= encode_spec(key@, value@));
    }
    line
}

/// Decodes one log line back into a record. A line is malformed unless it
/// splits on a single separator into exactly two fields.
pub fn decode(line: &str) -> (r: Result<Record, MalformedRecordError>)
    ensures
        match r {
            Ok(rec) => decodes_to(line@, rec.key@, rec.value@),
            Err(e) => !line_decodes(line@) && e.line@ == line@,
        },
{
    let len: usize = line.unicode_len();
    let mut separator: Option<usize> = None;
    let mut i: usize = 0;
    while i < len
        invariant
            i <= len,
            len == line@.len(),
            forall|j: int| 0 <= j < i ==> line@[j] != '\n',
            match separator {
                Some(s) => {
                    &&& s < i
                    &&& line@[s as int] == ','
                    &&& forall|j: int| 0 <= j < i && j != s ==> line@[j] != ','
                },
                None => forall|j: int| 0 <= j < i ==> line@[j] != ',',
            },
        decreases len - i,
    {
        let c = line.get_char(i);
        if c == '\n' {
            proof {
                lemma_no_decode_on_char(line@, i as int);
            }
            return Err(MalformedRecordError { line: line.to_owned() });
        }
        if c == ',' {
            if separator.is_some() {
                proof {
                    lemma_no_decode_two_separators(line@, separator->Some_0 as int, i as int);
                }
                return Err(MalformedRecordError { line: line.to_owned() });
            }
            separator = Some(i);
        }
        i = i + 1;
    }
    match separator {
        None => {
            proof {
                lemma_no_decode_without_separator(line@);
            }
            Err(MalformedRecordError { line: line.to_owned() })
        },
        Some(s) => {
            let key: String = line.substring_char(0, s).to_owned();
            let value: String = line.substring_char(s + 1, len).to_owned();
            proof {
                assert(line@ =~= encode_spec(key@, value@));
            }
            Ok(Record { key, value })
        },
    }
}

/// A line holding a separator or a line break anywhere but as its single field
/// boundary encodes no record.
proof fn lemma_no_decode_on_char(line: Seq<char>, i: int)
    requires
        0 <= i < line.len(),
        line[i] == '\n',
    ensures
        !line_decodes(line),
{
    if line_decodes(line) {
        let (k, v) = choose|k: Seq<char>, v: Seq<char>| decodes_to(line, k, v);
        lemma_decoded_line_shape(line, k, v);
    }
}

proof fn lemma_no_decode_two_separators(line: Seq<char>, i: int, j: int)
    requires
        0 <= i < line.len(),
        0 <= j < line.len(),
        i != j,
        line[i] == ',',
        line[j] == ',',
    ensures
        !line_decodes(line),
{
    if line_decodes(line) {
        let (k, v) = choose|k: Seq<char>, v: Seq<char>| decodes_to(line, k, v);
        lemma_decoded_line_shape(line, k, v);
        assert(i == k.len() && j == k.len());
    }
}

proof fn lemma_no_decode_without_separator(line: Seq<char>)
    requires
        forall|i: int| 0 <= i < line.len() ==> line[i] != ',',
    ensures
        !line_decodes(line),
{
    if line_decodes(line) {
        let (k, v) = choose|k: Seq<char>, v: Seq<char>| decodes_to(line, k, v);
        lemma_decoded_line_shape(line, k, v);
        assert(line[k.len() as int] == ',');
    }
}

} // verus!
