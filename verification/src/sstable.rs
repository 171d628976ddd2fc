//! The table that a flush writes: the entries of a memtable in key order,
//! their encoding, and the name of the file that holds them.

use vstd::prelude::*;
use vstd::string::*;

verus! {

/// One entry of a flushed table.
pub struct SSTableEntry {
    pub key: Vec<u8>,
    pub value: Vec<u8>,
    pub timestamp: u128,
}

impl SSTableEntry {
    pub fn new(key: Vec<u8>, value: Vec<u8>, timestamp: u128) -> (entry: Self)
        ensures
            entry.key == key,
            entry.value == value,
            entry.timestamp == timestamp,
    {
        Self { key, value, timestamp }
    }
}

/// A flushed table: entries in ascending key order.
pub struct SSTable(pub Vec<SSTableEntry>);

/// A table ready to be written: the name of its file and the bytes in it.
pub struct TableFile {
    pub name: String,
    pub bytes: Vec<u8>,
}

/// The encoder refused a table.
pub struct EncodeError {
    /// What the encoder said.
    pub message: String,
}

/// The error of `bincode`, carried unopened.
#[verifier::external_type_specification]
#[verifier::external_body]
pub struct ExErrorKind(bincode::ErrorKind);

/// The rows of a table as plain values: key, value and timestamp of each entry.
pub open spec fn table_rows(table: Seq<SSTableEntry>) -> Seq<(Seq<u8>, Seq<u8>, u128)> {
    Seq::new(table.len(), |i: int| (table[i].key@, table[i].value@, table[i].timestamp))
}

/// Rows of byte vectors as plain values.
pub open spec fn rows_view(rows: Seq<(Vec<u8>, Vec<u8>, u128)>) -> Seq<(Seq<u8>, Seq<u8>, u128)> {
    Seq::new(rows.len(), |i: int| (rows[i].0@, rows[i].1@, rows[i].2))
}

/// The `width` low bytes of `value`, the lowest first.
pub open spec fn little_endian(value: nat, width: nat) -> Seq<u8>
    decreases width,
{
    if width == 0 {
        Seq::empty()
    } else {
        seq![(value % 256) as u8] + little_endian(value / 256, (width - 1) as nat)
    }
}

/// The bytes of one row: the key behind its length, the value behind its
/// length, and the timestamp. A length takes 8 bytes, the timestamp 16.
pub open spec fn encoded_row(row: (Seq<u8>, Seq<u8>, u128)) -> Seq<u8> {
    little_endian(row.0.len(), 8) + row.0 + little_endian(row.1.len(), 8) + row.1 + little_endian(
        row.2 as nat,
        16,
    )
}

/// The bytes of the rows, one after the other.
pub open spec fn encoded_each(rows: Seq<(Seq<u8>, Seq<u8>, u128)>) -> Seq<u8>
    decreases rows.len(),
{
    if rows.len() == 0 {
        Seq::empty()
    } else {
        encoded_each(rows.drop_last()) + encoded_row(rows.last())
    }
}

/// The bytes of a table: the number of its rows in 8 bytes, then the rows.
pub open spec fn encoded_rows(rows: Seq<(Seq<u8>, Seq<u8>, u128)>) -> Seq<u8> {
    little_endian(rows.len(), 8) + encoded_each(rows)
}

/// `bincode::serialize` on a vector of rows. It writes integers at their
/// fixed size, low byte first, a length as a `u64`, a vector as its length
/// and then its items, a tuple field by field. Claimed: where the call
/// succeeds, it returns just these bytes; whether it succeeds depends on the
/// rows alone, which `encoder_accepts` names. No row is claimed to succeed.
#[verifier::external_body]
fn serialize_rows(rows: &Vec<(Vec<u8>, Vec<u8>, u128)>) -> (r: Result<Vec<u8>, Box<bincode::ErrorKind>>)
    ensures
        r is Ok <==> encoder_accepts(rows_view(rows@)),
        r matches Ok(bytes) ==> bytes@ == encoded_rows(rows_view(rows@)),
{
    bincode::serialize(rows)
}

/// The `Display` text of an encoder error. Nothing is claimed about it.
#[verifier::external_body]
fn error_text(error: &Box<bincode::ErrorKind>) -> String {
    format!("{}", error)
}

/// The character of the decimal digit `d`.
pub open spec fn digit_char(d: nat) -> char {
    if d == 0 {
        '0'
    } else if d == 1 {
        '1'
    } else if d == 2 {
        '2'
    } else if d == 3 {
        '3'
    } else if d == 4 {
        '4'
    } else if d == 5 {
        '5'
    } else if d == 6 {
        '6'
    } else if d == 7 {
        '7'
    } else if d == 8 {
        '8'
    } else {
        '9'
    }
}

/// The decimal digits of `n`, the highest first, without leading zeros.
pub open spec fn decimal(n: nat) -> Seq<char>
    decreases n,
{
    if n < 10 {
        seq![digit_char(n)]
    } else {
        decimal(n / 10).push(digit_char(n % 10))
    }
}

/// The name of the table file flushed under `timestamp`: the timestamp in
/// decimal, followed by `.sst`.
pub open spec fn table_name(timestamp: u128) -> Seq<char> {
    decimal(timestamp as nat) + ".sst"@
}

/// The characters of digits that were collected from the lowest up.
pub open spec fn digits_read_back(digits: Seq<u8>) -> Seq<char> {
    Seq::new(digits.len(), |i: int| digit_char(digits[digits.len() - 1 - i] as nat))
}

/// The text of one decimal digit.
fn digit_text(d: u8) -> (text: &'static str)
    requires
        d < 10,
    ensures
        text@ == seq![digit_char(d as nat)],
{
    proof {
        reveal_strlit("0");
        reveal_strlit("1");
        reveal_strlit("2");
        reveal_strlit("3");
        reveal_strlit("4");
        reveal_strlit("5");
        reveal_strlit("6");
        reveal_strlit("7");
        reveal_strlit("8");
        reveal_strlit("9");
    }
    let text = if d == 0 {
        "0"
    } else if d == 1 {
        "1"
    } else if d == 2 {
        "2"
    } else if d == 3 {
        "3"
    } else if d == 4 {
        "4"
    } else if d == 5 {
        "5"
    } else if d == 6 {
        "6"
    } else if d == 7 {
        "7"
    } else if d == 8 {
        "8"
    } else {
        "9"
    };
    assert(text@ =~= seq![digit_char(d as nat)]);
    text
}

/// `n` in decimal.
pub fn decimal_string(n: u128) -> (text: String)
    ensures
        text@ == decimal(n as nat),
{
    let mut digits: Vec<u8> = Vec::new();
    let mut rest: u128 = n;
    loop
        invariant_except_break
            decimal(n as nat) == decimal(rest as nat) + digits_read_back(digits@),
        invariant
            forall|i: int| 0 <= i < digits@.len() ==> digits@[i] < 10,
        ensures
            decimal(n as nat) == digits_read_back(digits@),
            forall|i: int| 0 <= i < digits@.len() ==> digits@[i] < 10,
        decreases rest,
    {
        let ghost before = digits@;
        let d = (rest % 10) as u8;
        digits.push(d);
        proof {
            assert(digits_read_back(digits@) =~= seq![digit_char(d as nat)] + digits_read_back(before));
        }
        if rest < 10 {
            proof {
                assert(decimal(rest as nat) =~= seq![digit_char(d as nat)]);
            }
            break ;
        }
        proof {
            assert(decimal(rest as nat) =~= decimal((rest / 10) as nat) + seq![digit_char(d as nat)]);
            assert(decimal(n as nat) =~= decimal((rest / 10) as nat) + digits_read_back(digits@));
        }
        rest = rest / 10;
    }
    let mut text = String::new();
    let mut left: usize = digits.len();
    while left > 0
        invariant
            left <= digits@.len(),
            forall|i: int| 0 <= i < digits@.len() ==> digits@[i] < 10,
            text@ == digits_read_back(digits@).subrange(0, digits@.len() - left),
        decreases left,
    {
        left -= 1;
        text.append(digit_text(digits[left]));
        proof {
            assert(text@ =~= digits_read_back(digits@).subrange(0, digits@.len() - left));
        }
    }
    proof {
        assert(text@ =~= digits_read_back(digits@));
    }
    text
}

/// The name of the table file flushed under `timestamp`.
pub fn table_file_name(timestamp: u128) -> (name: String)
    ensures
        name@ == table_name(timestamp),
{
    decimal_string(timestamp).concat(".sst")
}

/// The rows of `table`, copied out as plain vectors.
pub fn rows_of(table: &Vec<SSTableEntry>) -> (rows: Vec<(Vec<u8>, Vec<u8>, u128)>)
    ensures
        rows_view(rows@) == table_rows(table@),
{
    let mut rows: Vec<(Vec<u8>, Vec<u8>, u128)> = Vec::new();
    let mut i: usize = 0;
    while i < table.len()
        invariant
            0 <= i <= table@.len(),
            rows@.len() == i,
            forall|j: int|
                0 <= j < i ==> (#[trigger] rows@[j]).0@ == table@[j].key@ && rows@[j].1@
                    == table@[j].value@ && rows@[j].2 == table@[j].timestamp,
        decreases table@.len() - i,
    {
        let key = table[i].key.clone();
        let value = table[i].value.clone();
        rows.push((key, value, table[i].timestamp));
        i += 1;
    }
    assert(rows_view(rows@) =~= table_rows(table@));
    rows
}

impl TableFile {
    /// The file for what the encoder returned: its bytes under `name`, or
    /// its error with the text of it.
    pub fn from_encoding(name: String, encoding: Result<Vec<u8>, Box<bincode::ErrorKind>>) -> (r: Result<
        TableFile,
        EncodeError,
    >)
        ensures
            match encoding {
                Ok(bytes) => r matches Ok(file) && file.name == name && file.bytes == bytes,
                Err(_) => r is Err,
            },
    {
        match encoding {
            Ok(bytes) => Ok(TableFile { name, bytes }),
            Err(error) => Err(EncodeError { message: error_text(&error) }),
        }
    }

    /// Encodes `table` for the file flushed under `timestamp`. It fails only
    /// where the encoder refuses the rows of `table`; otherwise the file
    /// holds their encoding, in their order, under the name of the table.
    pub fn encode(table: &Vec<SSTableEntry>, timestamp: u128) -> (r: Result<TableFile, EncodeError>)
        ensures
            r is Ok <==> encoder_accepts(table_rows(table@)),
            r matches Ok(file) ==> file.bytes@ == encoded_rows(table_rows(table@)) && file.name@
                == table_name(timestamp),
    {
        let rows = rows_of(table);
        let encoding = serialize_rows(&rows);
        TableFile::from_encoding(table_file_name(timestamp), encoding)
    }
}

/// Whether `bincode::serialize` returns `Ok` for a vector of these rows.
pub uninterp spec fn encoder_accepts(rows: Seq<(Seq<u8>, Seq<u8>, u128)>) -> bool;

} // verus!
