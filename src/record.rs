use vstd::prelude::*;

use crate::bytes::{copy_bytes, views};

verus! {

/// Byte that separates the fields of a line.
pub const TAB: u8 = 9;

/// First byte of a header line.
pub const AT: u8 = 64;

/// Optional sign in front of the flag's digits.
pub const PLUS: u8 = 43;

/// Bit of the flag that marks a supplementary alignment.
pub const SUPPLEMENTARY: u16 = 0x800;

/// Number of fields that a record line must have at least.
pub const MIN_FIELDS: usize = 10;

/// Why a record line cannot be read.
#[derive(Clone, Copy, Debug, PartialEq, Eq, Structural)]
pub enum FormatError {
    /// The line has fewer than ten tab-separated fields.
    TooFewFields,
    /// The second field is not an unsigned 16-bit decimal number.
    BadFlag,
}

/// The fields of a line, split at every tab; a line without a tab is one field.
pub open spec fn split_fields(s: Seq<u8>) -> Seq<Seq<u8>>
    decreases s.len(),
{
    if s.len() == 0 {
        seq![Seq::empty()]
    } else {
        let p = split_fields(s.drop_last());
        if s.last() == TAB {
            p.push(Seq::empty())
        } else {
            p.update(p.len() - 1, p.last().push(s.last()))
        }
    }
}

/// A header is a line whose first field starts with `@`.
pub open spec fn is_header(s: Seq<u8>) -> bool {
    s.len() > 0 && s[0] == AT
}

pub open spec fn is_digit(b: u8) -> bool {
    48 <= b <= 57
}

pub open spec fn all_digits(s: Seq<u8>) -> bool {
    forall|i: int| 0 <= i < s.len() ==> is_digit(#[trigger] s[i])
}

/// The number that a string of decimal digits denotes.
pub open spec fn decimal_value(s: Seq<u8>) -> nat
    decreases s.len(),
{
    if s.len() == 0 {
        0
    } else {
        decimal_value(s.drop_last()) * 10 + (s.last() - 48) as nat
    }
}

/// The digits of a flag, without the optional leading `+`.
pub open spec fn flag_digits(s: Seq<u8>) -> Seq<u8> {
    if s.len() > 0 && s[0] == PLUS {
        s.drop_first()
    } else {
        s
    }
}

/// The unsigned 16-bit number that `s` spells in decimal, with an optional
/// leading `+`; `None` if it spells none.
pub open spec fn parse_flag_spec(s: Seq<u8>) -> Option<u16> {
    let d = flag_digits(s);
    if d.len() > 0 && all_digits(d) && decimal_value(d) <= u16::MAX {
        Some(decimal_value(d) as u16)
    } else {
        None
    }
}

proof fn lemma_decimal_value_prefix(s: Seq<u8>, k: int)
    requires
        all_digits(s),
        0 <= k <= s.len(),
    ensures
        decimal_value(s.take(k)) <= decimal_value(s),
    decreases s.len(),
{
    if k < s.len() {
        assert(all_digits(s.drop_last()));
        lemma_decimal_value_prefix(s.drop_last(), k);
        assert(s.drop_last().take(k) =~= s.take(k));
    } else {
        assert(s.take(k) =~= s);
    }
}

/// What a record line carries: its identifier, its flag and the byte length
/// of its sequence field.
pub struct RecordView {
    pub qname: Seq<u8>,
    pub flag: u16,
    pub len: nat,
}

/// A record line read apart.
pub struct Record {
    pub qname: Vec<u8>,
    pub flag: u16,
    pub len: usize,
}

impl View for Record {
    type V = RecordView;

    open spec fn view(&self) -> RecordView {
        RecordView { qname: self.qname@, flag: self.flag, len: self.len as nat }
    }
}

/// How a line is read: `Ok(None)` for a header, `Ok(Some(r))` for a record.
pub open spec fn classify_spec(s: Seq<u8>) -> Result<Option<RecordView>, FormatError> {
    if is_header(s) {
        Ok(None)
    } else {
        let f = split_fields(s);
        if f.len() < MIN_FIELDS {
            Err(FormatError::TooFewFields)
        } else {
            match parse_flag_spec(f[1]) {
                None => Err(FormatError::BadFlag),
                Some(flag) => Ok(Some(RecordView { qname: f[0], flag, len: f[9].len() })),
            }
        }
    }
}

/// Splits a line into its tab-separated fields.
pub fn split_tabs(s: &[u8]) -> (r: Vec<Vec<u8>>)
    ensures
        views(r@) == split_fields(s@),
{
    let mut done: Vec<Vec<u8>> = Vec::new();
    let mut cur: Vec<u8> = Vec::new();
    let mut i: usize = 0;
    assert(s@.take(0) =~= Seq::<u8>::empty());
    assert(views(done@).push(cur@) =~= split_fields(Seq::<u8>::empty()));
    while i < s.len()
        invariant
            i <= s@.len(),
            views(done@).push(cur@) == split_fields(s@.take(i as int)),
        decreases s@.len() - i,
    {
        let ghost before = s@.take(i as int);
        assert(s@.take(i as int + 1).drop_last() =~= before);
        if s[i] == TAB {
            done.push(cur);
            cur = Vec::new();
            assert(views(done@).push(cur@) =~= split_fields(before).push(Seq::empty()));
        } else {
            cur.push(s[i]);
            let ghost p = split_fields(before);
            assert(views(done@).push(cur@) =~= p.update(p.len() - 1, p.last().push(s@[i as int])));
        }
        i = i + 1;
    }
    assert(s@.take(s@.len() as int) =~= s@);
    done.push(cur);
    assert(views(done@) =~= split_fields(s@));
    done
}

/// Reads an unsigned 16-bit flag written in decimal, with an optional `+`.
pub fn parse_flag(s: &[u8]) -> (r: Option<u16>)
    ensures
        r == parse_flag_spec(s@),
{
    let start: usize = if s.len() > 0 && s[0] == PLUS {
        1
    } else {
        0
    };
    let ghost d = flag_digits(s@);
    assert(d =~= s@.subrange(start as int, s@.len() as int));
    if start == s.len() {
        return None;
    }
    let mut acc: u32 = 0;
    let mut i: usize = start;
    while i < s.len()
        invariant
            start <= i <= s@.len(),
            d == flag_digits(s@),
            d == s@.subrange(start as int, s@.len() as int),
            all_digits(d.take(i - start)),
            acc as nat == decimal_value(d.take(i - start)),
            acc <= u16::MAX,
        decreases s@.len() - i,
    {
        let b = s[i];
        if b < 48 || b > 57 {
            assert(d[i - start] == b);
            assert(!is_digit(d[i - start]));
            return None;
        }
        assert(d.take(i - start + 1).drop_last() =~= d.take(i - start));
        assert(d.take(i - start + 1).last() == b);
        assert(decimal_value(d.take(i - start + 1)) == decimal_value(d.take(i - start)) * 10 + (b
            - 48) as nat);
        acc = acc * 10 + (b - 48) as u32;
        i = i + 1;
        assert(all_digits(d.take(i - start)));
        if acc > 65535 {
            proof {
                if all_digits(d) {
                    lemma_decimal_value_prefix(d, i - start);
                }
            }
            return None;
        }
    }
    assert(d.take(i - start) =~= d);
    Some(acc as u16)
}

/// Reads a line: a header, or a record with its identifier, flag and
/// sequence length.
pub fn classify_line(s: &[u8]) -> (r: Result<Option<Record>, FormatError>)
    ensures
        match r {
            Ok(None) => classify_spec(s@) == Ok::<Option<RecordView>, FormatError>(None),
            Ok(Some(rec)) => classify_spec(s@) == Ok::<Option<RecordView>, FormatError>(Some(rec@)),
            Err(e) => classify_spec(s@) == Err::<Option<RecordView>, FormatError>(e),
        },
{
    if s.len() > 0 && s[0] == AT {
        return Ok(None);
    }
    let fields = split_tabs(s);
    if fields.len() < MIN_FIELDS {
        return Err(FormatError::TooFewFields);
    }
    match parse_flag(fields[1].as_slice()) {
        None => Err(FormatError::BadFlag),
        Some(flag) => {
            let qname = copy_bytes(fields[0].as_slice());
            Ok(Some(Record { qname, flag, len: fields[9].len() }))
        },
    }
}

} // verus!
