//! Persisted candidate records: one line per accepted magic candidate,
//! four whitespace-separated decimal fields `min max width multiplier`,
//! newline-terminated. Reading tolerates a malformed first field by
//! substituting a fixed fallback; a record whose width or multiplier
//! field does not parse is discarded.

use vstd::prelude::*;
use crate::consolidate::MagicEntry;
use crate::search::MagicCandidate;

verus! {

/// ASCII decimal digit.
pub open spec fn is_digit(b: u8) -> bool {
    48 <= b <= 57
}

/// Every byte of the field is a decimal digit.
pub open spec fn all_digits(s: Seq<u8>) -> bool {
    forall|i: int| 0 <= i < s.len() ==> is_digit(#[trigger] s[i])
}

/// Numeric value of a decimal numeral, most significant digit first.
pub open spec fn dec_value(s: Seq<u8>) -> nat
    decreases s.len(),
{
    if s.len() == 0 {
        0
    } else {
        dec_value(s.drop_last()) * 10 + (s.last() - 48) as nat
    }
}

/// A field parses as a `u64`: nonempty, all digits, value in range.
pub open spec fn u64_field_ok(s: Seq<u8>) -> bool {
    s.len() > 0 && all_digits(s) && dec_value(s) <= u64::MAX
}

/// A field parses as a `u32`: nonempty, all digits, value in range.
pub open spec fn u32_field_ok(s: Seq<u8>) -> bool {
    s.len() > 0 && all_digits(s) && dec_value(s) <= u32::MAX
}

/// A prefix of a numeral never exceeds the whole numeral's value.
proof fn lemma_dec_value_prefix(s: Seq<u8>, k: int)
    requires
        0 <= k <= s.len(),
    ensures
        dec_value(s.take(k)) <= dec_value(s),
    decreases s.len() - k,
{
    if k == s.len() {
        assert(s.take(k) =~= s);
    } else {
        lemma_dec_value_prefix(s.drop_last(), k);
        assert(s.drop_last().take(k) =~= s.take(k));
    }
}

/// Parses an unsigned decimal numeral; `Some` exactly for nonempty
/// all-digit fields whose value fits a `u64`.
pub fn parse_u64(field: &Vec<u8>) -> (r: Option<u64>)
    ensures
        r.is_some() <==> u64_field_ok(field@),
        r matches Some(v) ==> v == dec_value(field@),
{
    if field.len() == 0 {
        return None;
    }
    let mut acc: u64 = 0;
    let mut i: usize = 0;
    while i < field.len()
        invariant
            i <= field@.len(),
            all_digits(field@.take(i as int)),
            acc == dec_value(field@.take(i as int)),
        decreases field@.len() - i,
    {
        let b: u8 = field[i];
        if b < 48 || b > 57 {
            return None;
        }
        let d: u64 = (b - 48) as u64;
        proof {
            assert(field@.take(i as int + 1).drop_last() =~= field@.take(i as int));
            assert(field@.take(i as int + 1).last() == field@[i as int]);
        }
        if acc > (u64::MAX - d) / 10 {
            proof {
                assert(dec_value(field@.take(i as int + 1)) > u64::MAX) by {
                    vstd::arithmetic::mul::lemma_mul_inequality(
                        (u64::MAX - d) / 10 + 1,
                        acc as int,
                        10,
                    );
                }
                lemma_dec_value_prefix(field@, i as int + 1);
            }
            return None;
        }
        proof {
            vstd::arithmetic::mul::lemma_mul_inequality(acc as int, (u64::MAX - d) / 10, 10);
        }
        acc = acc * 10 + d;
        i = i + 1;
    }
    proof {
        assert(field@.take(field@.len() as int) =~= field@);
    }
    Some(acc)
}

/// Parses an unsigned decimal numeral; `Some` exactly for nonempty
/// all-digit fields whose value fits a `u32`.
pub fn parse_u32(field: &Vec<u8>) -> (r: Option<u32>)
    ensures
        r.is_some() <==> u32_field_ok(field@),
        r matches Some(v) ==> v == dec_value(field@),
{
    match parse_u64(field) {
        Some(v) => if v <= 0xffff_ffff {
            Some(v as u32)
        } else {
            None
        },
        None => None,
    }
}

/// ASCII whitespace as the record format uses it.
pub open spec fn is_space(b: u8) -> bool {
    b == 32 || b == 9 || b == 13 || b == 10
}

/// First position at or after `i` that holds whitespace, or the end.
pub open spec fn token_end(s: Seq<u8>, i: int) -> int
    decreases s.len() - i,
{
    if i < 0 || i >= s.len() || is_space(s[i]) {
        i
    } else {
        token_end(s, i + 1)
    }
}

/// `token_end` stays between its start and the end of the text.
proof fn lemma_token_end_bounds(s: Seq<u8>, i: int)
    requires
        0 <= i <= s.len(),
    ensures
        i <= token_end(s, i) <= s.len(),
    decreases s.len() - i,
{
    if i < s.len() && !is_space(s[i]) {
        lemma_token_end_bounds(s, i + 1);
    }
}

/// The whitespace-separated fields of the text, from position `i` on.
pub open spec fn fields_from(s: Seq<u8>, i: int) -> Seq<Seq<u8>>
    decreases s.len() - i, s.len() - i + 1,
    via fields_from_decreases
{
    if i < 0 || i >= s.len() {
        Seq::empty()
    } else if is_space(s[i]) {
        fields_from(s, i + 1)
    } else {
        seq![s.subrange(i, token_end(s, i))] + fields_from(s, token_end(s, i))
    }
}

#[via_fn]
proof fn fields_from_decreases(s: Seq<u8>, i: int) {
    if 0 <= i < s.len() && !is_space(s[i]) {
        lemma_token_end_bounds(s, i + 1);
        assert(token_end(s, i) == token_end(s, i + 1));
    }
}

/// Splits a line into its whitespace-separated fields.
pub fn split_fields(line: &Vec<u8>) -> (fields: Vec<Vec<u8>>)
    ensures
        fields@.map_values(|f: Vec<u8>| f@) == fields_from(line@, 0),
{
    let mut fields: Vec<Vec<u8>> = Vec::new();
    let mut i: usize = 0;
    proof {
        assert(fields@.map_values(|f: Vec<u8>| f@) =~= Seq::<Seq<u8>>::empty());
    }
    while i < line.len()
        invariant
            i <= line@.len(),
            fields@.map_values(|f: Vec<u8>| f@) + fields_from(line@, i as int) == fields_from(
                line@,
                0,
            ),
        decreases line@.len() - i,
    {
        if is_space_byte(line[i]) {
            i = i + 1;
        } else {
            let start: usize = i;
            let mut j: usize = i;
            while j < line.len() && !is_space_byte(line[j])
                invariant
                    start <= j <= line@.len(),
                    token_end(line@, start as int) == token_end(line@, j as int),
                decreases line@.len() - j,
            {
                j = j + 1;
            }
            proof {
                assert(token_end(line@, j as int) == j as int);
            }
            let mut tok: Vec<u8> = Vec::new();
            let mut k: usize = start;
            while k < j
                invariant
                    start <= k <= j <= line@.len(),
                    tok@ == line@.subrange(start as int, k as int),
                decreases j - k,
            {
                tok.push(line[k]);
                proof {
                    assert(tok@ =~= line@.subrange(start as int, k as int + 1));
                }
                k = k + 1;
            }
            let ghost before: Seq<Seq<u8>> = fields@.map_values(|f: Vec<u8>| f@);
            fields.push(tok);
            proof {
                assert(fields@.map_values(|f: Vec<u8>| f@) =~= before + seq![
                    line@.subrange(start as int, j as int),
                ]);
                assert(fields_from(line@, start as int) == seq![
                    line@.subrange(start as int, j as int),
                ] + fields_from(line@, j as int));
                assert(before + fields_from(line@, start as int) =~= (before + seq![
                    line@.subrange(start as int, j as int),
                ]) + fields_from(line@, j as int));
            }
            i = j;
        }
    }
    proof {
        assert(fields@.map_values(|f: Vec<u8>| f@) + Seq::<Seq<u8>>::empty() =~= fields@.map_values(
            |f: Vec<u8>| f@,
        ));
    }
    fields
}

/// Whitespace test on a byte.
fn is_space_byte(b: u8) -> (r: bool)
    ensures
        r == is_space(b),
{
    b == 32 || b == 9 || b == 13 || b == 10
}

/// Fallback used for a malformed first (minimum-slot) field.
pub const MIN_FIELD_FALLBACK: u32 = 12;

/// The record a list of parsed fields stands for, if any: the width and
/// multiplier fields must parse; a malformed minimum field falls back.
pub open spec fn entry_of_fields(fields: Seq<Seq<u8>>) -> Option<MagicEntry> {
    if fields.len() > 3 && u32_field_ok(fields[2]) && u64_field_ok(fields[3]) {
        Some(
            MagicEntry {
                magic_factor: dec_value(fields[3]) as u64,
                min: if u32_field_ok(fields[0]) {
                    dec_value(fields[0]) as u32
                } else {
                    MIN_FIELD_FALLBACK
                },
                width: dec_value(fields[2]) as u32,
            },
        )
    } else {
        None
    }
}

impl MagicEntry {
    /// Reads one record from the fields of a persisted line. The
    /// multiplier and width fields must parse or the record is
    /// discarded; a malformed minimum field is tolerated and replaced by
    /// the fallback.
    pub fn new_from_line(fields: &Vec<Vec<u8>>) -> (r: Option<MagicEntry>)
        ensures
            r == entry_of_fields(fields@.map_values(|f: Vec<u8>| f@)),
    {
        if fields.len() <= 3 {
            return None;
        }
        let width: u32 = match parse_u32(&fields[2]) {
            Some(w) => w,
            None => {
                return None;
            },
        };
        let magic_factor: u64 = match parse_u64(&fields[3]) {
            Some(m) => m,
            None => {
                return None;
            },
        };
        let min: u32 = match parse_u32(&fields[0]) {
            Some(m) => m,
            None => MIN_FIELD_FALLBACK,
        };
        Some(MagicEntry { magic_factor, min, width })
    }
}

/// First position at or after `i` that holds a newline, or the end.
pub open spec fn line_end(s: Seq<u8>, i: int) -> int
    decreases s.len() - i,
{
    if i < 0 || i >= s.len() || s[i] == 10 {
        i
    } else {
        line_end(s, i + 1)
    }
}

/// `line_end` stays between its start and the end of the text.
proof fn lemma_line_end_bounds(s: Seq<u8>, i: int)
    requires
        0 <= i <= s.len(),
    ensures
        i <= line_end(s, i) <= s.len(),
    decreases s.len() - i,
{
    if i < s.len() && s[i] != 10 {
        lemma_line_end_bounds(s, i + 1);
    }
}

/// The records persisted in the text from position `i` on: one line at a
/// time, keeping the lines that parse as records.
pub open spec fn records_from(s: Seq<u8>, i: int) -> Seq<MagicEntry>
    decreases s.len() - i, s.len() - i + 1,
    via records_from_decreases
{
    if i < 0 || i >= s.len() {
        Seq::empty()
    } else {
        let e = line_end(s, i);
        let next = if e < s.len() {
            e + 1
        } else {
            e
        };
        let rest = records_from(s, next);
        match entry_of_fields(fields_from(s.subrange(i, e), 0)) {
            Some(entry) => seq![entry] + rest,
            None => rest,
        }
    }
}

#[via_fn]
proof fn records_from_decreases(s: Seq<u8>, i: int) {
    if 0 <= i < s.len() {
        lemma_line_end_bounds(s, i);
    }
}

/// Parses the full content of one record stream, discarding lines that
/// hold no record.
pub fn parse_records(contents: &Vec<u8>) -> (entries: Vec<MagicEntry>)
    ensures
        entries@ == records_from(contents@, 0),
{
    let mut entries: Vec<MagicEntry> = Vec::new();
    let mut i: usize = 0;
    proof {
        assert(entries@ + records_from(contents@, 0) =~= records_from(contents@, 0));
    }
    while i < contents.len()
        invariant
            i <= contents@.len(),
            entries@ + records_from(contents@, i as int) == records_from(contents@, 0),
        decreases contents@.len() - i,
    {
        let mut j: usize = i;
        while j < contents.len() && contents[j] != 10
            invariant
                i <= j <= contents@.len(),
                line_end(contents@, i as int) == line_end(contents@, j as int),
            decreases contents@.len() - j,
        {
            j = j + 1;
        }
        proof {
            assert(line_end(contents@, j as int) == j as int);
        }
        let mut line: Vec<u8> = Vec::new();
        let mut k: usize = i;
        while k < j
            invariant
                i <= k <= j <= contents@.len(),
                line@ == contents@.subrange(i as int, k as int),
            decreases j - k,
        {
            line.push(contents[k]);
            proof {
                assert(line@ =~= contents@.subrange(i as int, k as int + 1));
            }
            k = k + 1;
        }
        let fields = split_fields(&line);
        let ghost before: Seq<MagicEntry> = entries@;
        match MagicEntry::new_from_line(&fields) {
            Some(entry) => {
                entries.push(entry);
                proof {
                    assert(entries@ =~= before + seq![entry]);
                    assert((before + seq![entry]) + records_from(contents@, j as int + 1)
                        =~= before + (seq![entry] + records_from(contents@, j as int + 1)));
                }
            },
            None => {
            },
        }
        if j < contents.len() {
            i = j + 1;
        } else {
            i = j;
        }
    }
    proof {
        assert(entries@ + Seq::<MagicEntry>::empty() =~= entries@);
    }
    entries
}

/// Smallest single-candidate width in a pool: the per-cell backing-array
/// size one candidate alone would need.
pub fn min_width(entries: &Vec<MagicEntry>) -> (r: Option<u32>)
    ensures
        r.is_some() <==> entries@.len() > 0,
        r matches Some(w) ==> (exists|i: int|
            0 <= i < entries@.len() && w == (#[trigger] entries@[i]).width) && (forall|i: int|
            0 <= i < entries@.len() ==> w <= (#[trigger] entries@[i]).width),
{
    if entries.len() == 0 {
        return None;
    }
    let mut w: u32 = entries[0].width;
    let mut i: usize = 1;
    while i < entries.len()
        invariant
            1 <= i <= entries@.len(),
            exists|k: int| 0 <= k < i as int && w == (#[trigger] entries@[k]).width,
            forall|k: int| 0 <= k < i as int ==> w <= (#[trigger] entries@[k]).width,
        decreases entries@.len() - i,
    {
        if entries[i].width < w {
            w = entries[i].width;
        }
        i = i + 1;
    }
    Some(w)
}

/// Decimal numeral of `n`, most significant digit first.
pub open spec fn dec_repr(n: nat) -> Seq<u8>
    decreases n,
{
    if n < 10 {
        seq![(48 + n) as u8]
    } else {
        dec_repr(n / 10) + seq![(48 + n % 10) as u8]
    }
}

/// Encoding a value and parsing the numeral back returns the value: the
/// record reader accepts every numeral the writer emits.
pub proof fn lemma_dec_round_trip(n: nat)
    ensures
        dec_value(dec_repr(n)) == n,
        all_digits(dec_repr(n)),
        dec_repr(n).len() > 0,
    decreases n,
{
    if n < 10 {
        assert(dec_repr(n) =~= seq![(48 + n) as u8]);
        assert(dec_repr(n).drop_last() =~= Seq::<u8>::empty());
        assert(dec_repr(n).last() == (48 + n) as u8);
        assert(dec_value(dec_repr(n)) == dec_value(Seq::<u8>::empty()) * 10 + ((48 + n) as u8
            - 48) as nat);
    } else {
        lemma_dec_round_trip(n / 10);
        assert(dec_repr(n).drop_last() =~= dec_repr(n / 10));
        assert(dec_repr(n).last() == (48 + n % 10) as u8);
        assert(dec_value(dec_repr(n)) == dec_value(dec_repr(n / 10)) * 10 + (n % 10));
        assert forall|i: int| 0 <= i < dec_repr(n).len() implies is_digit(
            #[trigger] dec_repr(n)[i],
        ) by {
            if i < dec_repr(n).len() - 1 {
                assert(dec_repr(n)[i] == dec_repr(n / 10)[i]);
            }
        }
    }
}

/// Decimal digits of `n`, most significant first.
pub fn u64_to_dec(n: u64) -> (digits: Vec<u8>)
    ensures
        digits@ == dec_repr(n as nat),
{
    let mut rev: Vec<u8> = Vec::new();
    let mut m: u64 = n;
    loop
        invariant_except_break
            rev@.len() == 0 ==> m == n,
            rev@.len() > 0 ==> m != 0 && dec_repr(n as nat) == dec_repr(m as nat) + rev@.reverse(),
        ensures
            rev@.len() > 0,
            dec_repr(n as nat) == rev@.reverse(),
        decreases m,
    {
        let ghost rev0: Seq<u8> = rev@;
        let ghost m0: u64 = m;
        let d: u8 = 48 + (m % 10) as u8;
        rev.push(d);
        m = m / 10;
        proof {
            assert(rev@.reverse() =~= seq![d] + rev0.reverse());
            if rev0.len() == 0 {
                if m0 < 10 {
                    assert(dec_repr(n as nat) =~= rev@.reverse());
                } else {
                    assert(dec_repr(n as nat) =~= dec_repr(m as nat) + rev@.reverse());
                }
            } else {
                if m0 < 10 {
                    assert(dec_repr(m0 as nat) + rev0.reverse() =~= rev@.reverse());
                } else {
                    assert(dec_repr(m0 as nat) + rev0.reverse() =~= (dec_repr(m as nat) + seq![d])
                        + rev0.reverse());
                    assert((dec_repr(m as nat) + seq![d]) + rev0.reverse() =~= dec_repr(m as nat)
                        + rev@.reverse());
                }
            }
        }
        if m == 0 {
            break ;
        }
    }
    let mut digits: Vec<u8> = Vec::new();
    let mut k: usize = 0;
    while k < rev.len()
        invariant
            k <= rev@.len(),
            digits@.len() == k,
            forall|t: int| 0 <= t < k as int ==> digits@[t] == rev@[rev@.len() - 1 - t],
        decreases rev@.len() - k,
    {
        digits.push(rev[rev.len() - 1 - k]);
        k = k + 1;
    }
    proof {
        assert(digits@ =~= rev@.reverse());
    }
    digits
}

/// The persisted line a candidate is written as: four space-separated
/// decimal fields, `min max width multiplier`, newline-terminated.
pub open spec fn record_line_spec(c: MagicCandidate) -> Seq<u8> {
    dec_repr(c.min_hash as nat) + seq![32u8] + dec_repr(c.max_hash as nat) + seq![32u8] + dec_repr(
        c.width as nat,
    ) + seq![32u8] + dec_repr(c.multiplier as nat) + seq![10u8]
}

/// Encodes a candidate as its record line.
pub fn encode_record(c: &MagicCandidate) -> (line: Vec<u8>)
    ensures
        line@ == record_line_spec(*c),
{
    let mut line: Vec<u8> = u64_to_dec(c.min_hash as u64);
    line.push(32);
    let mut part = u64_to_dec(c.max_hash as u64);
    line.append(&mut part);
    line.push(32);
    let mut part2 = u64_to_dec(c.width as u64);
    line.append(&mut part2);
    line.push(32);
    let mut part3 = u64_to_dec(c.multiplier);
    line.append(&mut part3);
    line.push(10);
    proof {
        assert(line@ =~= record_line_spec(*c));
    }
    line
}

/// `line_end` finds the first newline.
proof fn lemma_line_end_at(s: Seq<u8>, i: int, p: int)
    requires
        0 <= i <= p < s.len(),
        forall|t: int| i <= t < p ==> s[t] != 10,
        s[p] == 10,
    ensures
        line_end(s, i) == p,
    decreases p - i,
{
    if i < p {
        lemma_line_end_at(s, i + 1, p);
    }
}

/// `token_end` finds the first whitespace byte, or the end.
proof fn lemma_token_end_at(s: Seq<u8>, i: int, p: int)
    requires
        0 <= i <= p <= s.len(),
        forall|t: int| i <= t < p ==> !is_space(s[t]),
        p == s.len() || is_space(s[p]),
    ensures
        token_end(s, i) == p,
    decreases p - i,
{
    if i < p {
        lemma_token_end_at(s, i + 1, p);
    }
}

/// A line of four space-separated non-space fields splits into exactly
/// those fields.
proof fn lemma_fields_of_line(s: Seq<u8>, f0: Seq<u8>, f1: Seq<u8>, f2: Seq<u8>, f3: Seq<u8>)
    requires
        s =~= f0 + seq![32u8] + f1 + seq![32u8] + f2 + seq![32u8] + f3,
        f0.len() > 0 && all_digits(f0),
        f1.len() > 0 && all_digits(f1),
        f2.len() > 0 && all_digits(f2),
        f3.len() > 0 && all_digits(f3),
    ensures
        fields_from(s, 0) =~= seq![f0, f1, f2, f3],
{
    let p0 = f0.len() as int;
    let p1 = p0 + 1 + f1.len();
    let p2 = p1 + 1 + f2.len();
    let p3 = p2 + 1 + f3.len();
    lemma_token_end_at(s, 0, p0);
    lemma_token_end_at(s, p0 + 1, p1);
    lemma_token_end_at(s, p1 + 1, p2);
    lemma_token_end_at(s, p2 + 1, p3);
    assert(s.subrange(0, p0) =~= f0);
    assert(s.subrange(p0 + 1, p1) =~= f1);
    assert(s.subrange(p1 + 1, p2) =~= f2);
    assert(s.subrange(p2 + 1, p3) =~= f3);
    assert(s[p0] == 32 && s[p1] == 32 && s[p2] == 32);
    assert(fields_from(s, p3) =~= Seq::<Seq<u8>>::empty());
    assert(fields_from(s, p2 + 1) =~= seq![f3]);
    assert(fields_from(s, p2) =~= seq![f3]);
    assert(fields_from(s, p1 + 1) =~= seq![f2, f3]);
    assert(fields_from(s, p1) =~= seq![f2, f3]);
    assert(fields_from(s, p0 + 1) =~= seq![f1, f2, f3]);
    assert(fields_from(s, p0) =~= seq![f1, f2, f3]);
    assert(fields_from(s, 0) =~= seq![f0, f1, f2, f3]);
}

/// Round trip through the record stream: every line the encoder emits
/// is read back as exactly the one record it encodes, with the
/// candidate's minimum, width and multiplier.
pub proof fn lemma_record_round_trip(c: MagicCandidate)
    ensures
        records_from(record_line_spec(c), 0) =~= seq![
            MagicEntry { magic_factor: c.multiplier, min: c.min_hash, width: c.width },
        ],
{
    let s = record_line_spec(c);
    let f0 = dec_repr(c.min_hash as nat);
    let f1 = dec_repr(c.max_hash as nat);
    let f2 = dec_repr(c.width as nat);
    let f3 = dec_repr(c.multiplier as nat);
    lemma_dec_round_trip(c.min_hash as nat);
    lemma_dec_round_trip(c.max_hash as nat);
    lemma_dec_round_trip(c.width as nat);
    lemma_dec_round_trip(c.multiplier as nat);
    let body = f0 + seq![32u8] + f1 + seq![32u8] + f2 + seq![32u8] + f3;
    let p3 = body.len() as int;
    assert forall|t: int| 0 <= t < p3 implies s[t] != 10 by {
        assert(s[t] == body[t]);
        if t < f0.len() {
            assert(is_digit(f0[t]));
        } else if t == f0.len() {
        } else if t < f0.len() + 1 + f1.len() {
            assert(is_digit(f1[t - f0.len() - 1]));
        } else if t == f0.len() + 1 + f1.len() {
        } else if t < f0.len() + 1 + f1.len() + 1 + f2.len() {
            assert(is_digit(f2[t - f0.len() - 1 - f1.len() - 1]));
        } else if t == f0.len() + 1 + f1.len() + 1 + f2.len() {
        } else {
            assert(is_digit(f3[t - f0.len() - 1 - f1.len() - 1 - f2.len() - 1]));
        }
    }
    assert(s[p3] == 10);
    lemma_line_end_at(s, 0, p3);
    assert(s.subrange(0, p3) =~= body);
    lemma_fields_of_line(body, f0, f1, f2, f3);
    let fields = fields_from(body, 0);
    assert(u32_field_ok(fields[2]) && u64_field_ok(fields[3]) && u32_field_ok(fields[0]));
    assert(records_from(s, p3 + 1) =~= Seq::<MagicEntry>::empty());
}

} // verus!
