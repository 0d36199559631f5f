//! The directory encoding: newline-terminated `"<inum>:<name>"` records
//! followed by a single NUL byte marking the end of live data. Names
//! must not contain `:`, newline or NUL.

use vstd::prelude::*;
use vstd::pervasive::VecAdditionalExecFns;
use crate::error::SFSError;

verus! {

/// ASCII colon, the separator between number and name.
pub const SEP_COLON: u8 = 58;

/// ASCII newline, the record terminator.
pub const SEP_NL: u8 = 10;

/// A decimal digit byte.
pub open spec fn is_dec_digit(b: u8) -> bool {
    48 <= b <= 57
}

/// Every byte is a decimal digit.
pub open spec fn all_digits(s: Seq<u8>) -> bool {
    forall|i: int| 0 <= i < s.len() ==> is_dec_digit(#[trigger] s[i])
}

/// The ASCII decimal digits of `n`, most significant first.
pub open spec fn dec_digits(n: int) -> Seq<u8>
    decreases n,
{
    if n < 10 {
        seq![(48 + if n < 0 { 0int } else { n }) as u8]
    } else {
        dec_digits(n / 10).push((48 + n % 10) as u8)
    }
}

/// The number denoted by a run of ASCII decimal digits.
pub open spec fn dec_value(s: Seq<u8>) -> int
    decreases s.len(),
{
    if s.len() == 0 {
        0
    } else {
        dec_value(s.drop_last()) * 10 + (s.last() - 48)
    }
}

/// A digit run denotes a non-negative number.
pub proof fn lemma_dec_value_nonneg(s: Seq<u8>)
    requires
        all_digits(s),
    ensures
        dec_value(s) >= 0,
    decreases s.len(),
{
    if s.len() > 0 {
        assert(all_digits(s.drop_last()));
        lemma_dec_value_nonneg(s.drop_last());
    }
}

/// The digits of `n` are digits, start non-empty, and denote `n`.
pub proof fn lemma_dec_digits(n: int)
    requires
        0 <= n,
    ensures
        dec_digits(n).len() >= 1,
        all_digits(dec_digits(n)),
        dec_value(dec_digits(n)) == n,
    decreases n,
{
    if n < 10 {
        assert((48 + n) as u8 == 48 + n);
        assert(dec_digits(n).drop_last() =~= Seq::<u8>::empty());
        assert(dec_value(Seq::<u8>::empty()) == 0);
        assert(dec_value(dec_digits(n)) == n);
    } else {
        lemma_dec_digits(n / 10);
        assert(dec_digits(n).drop_last() =~= dec_digits(n / 10));
    }
}

/// Reading one more digit multiplies the value by ten and adds it.
pub proof fn lemma_dec_value_step(s: Seq<u8>, i: int)
    requires
        0 <= i < s.len(),
    ensures
        dec_value(s.take(i + 1)) == dec_value(s.take(i)) * 10 + (s[i] - 48),
{
    assert(s.take(i + 1).drop_last() =~= s.take(i));
}

/// The value of a digit run only grows as digits are appended.
pub proof fn lemma_dec_value_mono(s: Seq<u8>, i: int, j: int)
    requires
        all_digits(s),
        0 <= i <= j <= s.len(),
    ensures
        dec_value(s.take(i)) <= dec_value(s.take(j)),
    decreases j - i,
{
    if i < j {
        lemma_dec_value_mono(s, i, j - 1);
        lemma_dec_value_step(s, j - 1);
        assert(all_digits(s.take(j - 1)));
        lemma_dec_value_nonneg(s.take(j - 1));
    }
}

/// The index of the first occurrence of `b` in `s`, or `s.len()` when
/// `b` does not occur.
pub open spec fn find_byte(s: Seq<u8>, b: u8) -> int
    decreases s.len(),
{
    if s.len() == 0 {
        0
    } else if s[0] == b {
        0
    } else {
        1 + find_byte(s.drop_first(), b)
    }
}

/// `find_byte` is in range, everything before it differs from `b`, and
/// it points at `b` unless `b` is absent.
pub proof fn lemma_find_byte(s: Seq<u8>, b: u8)
    ensures
        0 <= find_byte(s, b) <= s.len(),
        forall|j: int| 0 <= j < find_byte(s, b) ==> s[j] != b,
        find_byte(s, b) < s.len() ==> s[find_byte(s, b)] == b,
    decreases s.len(),
{
    if s.len() > 0 && s[0] != b {
        lemma_find_byte(s.drop_first(), b);
        assert forall|j: int| 0 <= j < find_byte(s, b) implies s[j] != b by {
            if j >= 1 {
                assert(s[j] == s.drop_first()[j - 1]);
            }
        }
    }
}

/// `find_byte` equals any index with the first-occurrence property.
pub proof fn lemma_find_byte_is(s: Seq<u8>, b: u8, i: int)
    requires
        0 <= i <= s.len(),
        forall|j: int| 0 <= j < i ==> s[j] != b,
        i < s.len() ==> s[i] == b,
    ensures
        find_byte(s, b) == i,
    decreases s.len(),
{
    if s.len() == 0 {
    } else if s[0] == b {
        assert(i == 0);
    } else {
        assert(i >= 1);
        lemma_find_byte_is(s.drop_first(), b, i - 1);
    }
}

/// One parsed record: the line `"<digits>:<name>"` as a name and a
/// number, or nothing when the line is malformed: no colon, an empty
/// or non-digit number, or a number too large for 32 bits.
pub open spec fn parse_line(l: Seq<u8>) -> Option<(Seq<u8>, u32)> {
    let c = find_byte(l, SEP_COLON);
    if c == l.len() {
        None
    } else {
        let digits = l.take(c);
        if digits.len() == 0 || !all_digits(digits) || dec_value(digits) > u32::MAX {
            None
        } else {
            Some((l.skip(c + 1), dec_value(digits) as u32))
        }
    }
}

/// All records of the live data: split on newline, skip empty lines,
/// parse each remaining line; nothing when any line is malformed.
pub open spec fn parse_lines(s: Seq<u8>) -> Option<Seq<(Seq<u8>, u32)>>
    decreases s.len(),
    via parse_lines_dec
{
    if s.len() == 0 {
        Some(Seq::empty())
    } else {
        let nl = find_byte(s, SEP_NL);
        let line = s.take(nl);
        let rest = if nl == s.len() {
            Seq::<u8>::empty()
        } else {
            s.skip(nl + 1)
        };
        if line.len() == 0 {
            parse_lines(rest)
        } else {
            match parse_line(line) {
                None => None,
                Some(e) => match parse_lines(rest) {
                    None => None,
                    Some(es) => Some(seq![e] + es),
                },
            }
        }
    }
}

#[via_fn]
proof fn parse_lines_dec(s: Seq<u8>) {
    lemma_find_byte(s, SEP_NL);
}

/// The records of a directory image: the bytes before the first NUL
/// are the live data; the records are its parsed lines.
pub open spec fn parse_dir(s: Seq<u8>) -> Option<Seq<(Seq<u8>, u32)>> {
    parse_lines(s.take(find_byte(s, 0)))
}

/// A name fit for a directory record: free of colon, newline and NUL.
pub open spec fn valid_name(name: Seq<u8>) -> bool {
    forall|i: int|
        0 <= i < name.len() ==> #[trigger] name[i] != SEP_COLON && name[i] != SEP_NL && name[i]
            != 0
}

/// Every entry's name is fit for a directory record.
pub open spec fn valid_entries(es: Seq<(Seq<u8>, u32)>) -> bool {
    forall|i: int| 0 <= i < es.len() ==> valid_name(#[trigger] es[i].0)
}

/// The serialized record of one entry.
pub open spec fn encode_entry(name: Seq<u8>, inum: u32) -> Seq<u8> {
    dec_digits(inum as int) + seq![SEP_COLON] + name + seq![SEP_NL]
}

/// The serialized records of a run of entries, in order.
pub open spec fn encode_entries(es: Seq<(Seq<u8>, u32)>) -> Seq<u8>
    decreases es.len(),
{
    if es.len() == 0 {
        Seq::empty()
    } else {
        encode_entry(es[0].0, es[0].1) + encode_entries(es.drop_first())
    }
}

/// A whole directory image: the records followed by the NUL marker.
pub open spec fn encode_dir(es: Seq<(Seq<u8>, u32)>) -> Seq<u8> {
    encode_entries(es) + seq![0u8]
}

/// Appending one entry appends its record.
pub proof fn lemma_encode_entries_push(es: Seq<(Seq<u8>, u32)>, e: (Seq<u8>, u32))
    ensures
        encode_entries(es.push(e)) == encode_entries(es) + encode_entry(e.0, e.1),
    decreases es.len(),
{
    if es.len() == 0 {
        assert(es.push(e)[0] == e);
        assert(es.push(e).drop_first() =~= Seq::<(Seq<u8>, u32)>::empty());
        assert(encode_entries(Seq::<(Seq<u8>, u32)>::empty()) == Seq::<u8>::empty());
        assert(encode_entries(es.push(e)) =~= encode_entries(es) + encode_entry(e.0, e.1));
    } else {
        assert(es.push(e)[0] == es[0]);
        assert(es.push(e).drop_first() =~= es.drop_first().push(e));
        lemma_encode_entries_push(es.drop_first(), e);
        assert(encode_entries(es.push(e)) == encode_entry(es[0].0, es[0].1) + encode_entries(
            es.drop_first().push(e),
        ));
        assert(encode_entry(es[0].0, es[0].1) + (encode_entries(es.drop_first()) + encode_entry(
            e.0,
            e.1,
        )) =~= (encode_entry(es[0].0, es[0].1) + encode_entries(es.drop_first())) + encode_entry(
            e.0,
            e.1,
        ));
    }
}

/// No serialized record byte is NUL, and none is a newline except the
/// one closing each record.
pub proof fn lemma_encode_entries_no_nul(es: Seq<(Seq<u8>, u32)>)
    requires
        valid_entries(es),
    ensures
        forall|i: int| 0 <= i < encode_entries(es).len() ==> #[trigger] encode_entries(es)[i] != 0,
    decreases es.len(),
{
    if es.len() > 0 {
        let name = es[0].0;
        let digits = dec_digits(es[0].1 as int);
        let s = encode_entries(es);
        let entry = encode_entry(name, es[0].1);
        lemma_dec_digits(es[0].1 as int);
        assert(valid_entries(es.drop_first()));
        lemma_encode_entries_no_nul(es.drop_first());
        assert forall|i: int| 0 <= i < s.len() implies #[trigger] s[i] != 0 by {
            if i < digits.len() {
                assert(s[i] == digits[i]);
            } else if i == digits.len() {
                assert(s[i] == SEP_COLON);
            } else if i < digits.len() + 1 + name.len() {
                assert(s[i] == name[i - digits.len() - 1]);
            } else if i == digits.len() + 1 + name.len() {
                assert(s[i] == SEP_NL);
            } else {
                assert(s[i] == encode_entries(es.drop_first())[i - entry.len()]);
            }
        }
    }
}

/// Parsing the serialized records of valid entries restores the
/// entries exactly, in order.
pub proof fn lemma_parse_encoded_lines(es: Seq<(Seq<u8>, u32)>)
    requires
        valid_entries(es),
    ensures
        parse_lines(encode_entries(es)) == Some(es),
    decreases es.len(),
{
    if es.len() == 0 {
        assert(parse_lines(encode_entries(es)) =~= Some(Seq::<(Seq<u8>, u32)>::empty()));
        assert(Seq::<(Seq<u8>, u32)>::empty() =~= es);
    } else {
        let name = es[0].0;
        let inum = es[0].1;
        let entry = encode_entry(name, inum);
        let digits = dec_digits(inum as int);
        let s = encode_entries(es);
        let rest = encode_entries(es.drop_first());
        lemma_dec_digits(inum as int);
        // The first newline closes the first record.
        let nl = digits.len() + 1 + name.len() as int;
        assert(s[nl] == SEP_NL);
        assert forall|j: int| 0 <= j < nl implies s[j] != SEP_NL by {
            if j < digits.len() {
                assert(s[j] == digits[j]);
            } else if j == digits.len() {
                assert(s[j] == SEP_COLON);
            } else {
                assert(s[j] == name[j - digits.len() - 1]);
            }
        }
        lemma_find_byte_is(s, SEP_NL, nl);
        let line = s.take(nl);
        // The first colon of the line closes the digit run.
        assert(line[digits.len() as int] == SEP_COLON);
        assert forall|j: int| 0 <= j < digits.len() implies line[j] != SEP_COLON by {
            assert(line[j] == digits[j]);
        }
        lemma_find_byte_is(line, SEP_COLON, digits.len() as int);
        assert(line.take(digits.len() as int) =~= digits);
        assert(line.skip(digits.len() + 1 as int) =~= name);
        assert(parse_line(line) == Some((name, inum)));
        // The remainder after the newline is the remaining records.
        assert(s.skip(nl + 1) =~= rest);
        assert(valid_entries(es.drop_first()));
        lemma_parse_encoded_lines(es.drop_first());
        assert(seq![(name, inum)] + es.drop_first() =~= es);
    }
}

/// Writing a directory and reading it back yields the same entries in
/// the same order, for any entries whose names are free of the
/// reserved bytes.
pub proof fn lemma_dir_roundtrip(es: Seq<(Seq<u8>, u32)>)
    requires
        valid_entries(es),
    ensures
        parse_dir(encode_dir(es)) == Some(es),
{
    let s = encode_dir(es);
    lemma_encode_entries_no_nul(es);
    assert(s[encode_entries(es).len() as int] == 0);
    lemma_find_byte_is(s, 0, encode_entries(es).len() as int);
    assert(s.take(encode_entries(es).len() as int) =~= encode_entries(es));
    lemma_parse_encoded_lines(es);
}

/// Bytes appended after the NUL marker leave the records alone.
pub proof fn lemma_parse_dir_pad(s: Seq<u8>, pad: Seq<u8>)
    requires
        find_byte(s, 0) < s.len(),
    ensures
        parse_dir(s + pad) == parse_dir(s),
{
    let i = find_byte(s, 0);
    lemma_find_byte(s, 0);
    assert forall|j: int| 0 <= j < i implies (s + pad)[j] != 0 by {
        assert((s + pad)[j] == s[j]);
    }
    lemma_find_byte_is(s + pad, 0, i);
    assert((s + pad).take(i) =~= s.take(i));
}

/// The mathematical value of a vector of entries.
pub open spec fn entries_v(es: Seq<(Vec<u8>, u32)>) -> Seq<(Seq<u8>, u32)> {
    Seq::new(es.len(), |i: int| (es[i].0@, es[i].1))
}

/// The number of the first entry carrying `name`, if any.
pub open spec fn find_entry(es: Seq<(Seq<u8>, u32)>, name: Seq<u8>) -> Option<u32>
    decreases es.len(),
{
    if es.len() == 0 {
        None
    } else if es[0].0 == name {
        Some(es[0].1)
    } else {
        find_entry(es.drop_first(), name)
    }
}

/// `find_entry` returns the entry at the first index carrying the name.
pub proof fn lemma_find_entry_is(es: Seq<(Seq<u8>, u32)>, name: Seq<u8>, i: int)
    requires
        0 <= i <= es.len(),
        forall|j: int| 0 <= j < i ==> (#[trigger] es[j]).0 != name,
        i < es.len() ==> es[i].0 == name,
    ensures
        find_entry(es, name) == (if i == es.len() {
            None
        } else {
            Some(es[i].1)
        }),
    decreases es.len(),
{
    if es.len() == 0 {
    } else if es[0].0 == name {
        assert(i == 0);
    } else {
        assert(i >= 1);
        assert forall|j: int| 0 <= j < i - 1 implies (#[trigger] es.drop_first()[j]).0 != name by {
            assert(es.drop_first()[j] == es[j + 1]);
        }
        lemma_find_entry_is(es.drop_first(), name, i - 1);
    }
}

/// Append a copy of `src`.
pub fn append_bytes(out: &mut Vec<u8>, src: &Vec<u8>)
    ensures
        final(out)@ == old(out)@ + src@,
{
    let mut i: usize = 0;
    while i < src.len()
        invariant
            i <= src@.len(),
            out@ == old(out)@ + src@.take(i as int),
        decreases src@.len() - i,
    {
        out.push(src[i]);
        i += 1;
        proof {
            assert(out@ =~= old(out)@ + src@.take(i as int));
        }
    }
    proof {
        assert(old(out)@ + src@.take(src@.len() as int) =~= old(out)@ + src@);
    }
}

/// The ASCII decimal digits of `n`, most significant first.
pub fn format_u32(n: u32) -> (r: Vec<u8>)
    ensures
        r@ == dec_digits(n as int),
    decreases n,
{
    if n < 10 {
        let mut r: Vec<u8> = Vec::new();
        r.push(48 + n as u8);
        proof {
            assert(r@ =~= dec_digits(n as int));
        }
        r
    } else {
        let mut r = format_u32(n / 10);
        r.push(48 + (n % 10) as u8);
        proof {
            assert(r@ =~= dec_digits(n as int));
        }
        r
    }
}

/// The first index at or after `from` holding byte `b`, or the length
/// when `b` does not occur there.
pub fn find_byte_from(s: &Vec<u8>, b: u8, from: usize) -> (r: usize)
    requires
        from <= s@.len(),
    ensures
        from <= r <= s@.len(),
        forall|j: int| from <= j < r ==> s@[j] != b,
        r < s@.len() ==> s@[r as int] == b,
{
    let mut i = from;
    while i < s.len() && s[i] != b
        invariant
            from <= i <= s@.len(),
            forall|j: int| from <= j < i ==> s@[j] != b,
        decreases s@.len() - i,
    {
        i += 1;
    }
    i
}

/// Parse the line `s[from..to]` as one `"<digits>:<name>"` record;
/// fails with `InvalidBlock` exactly when the line is malformed.
pub fn parse_line_region(s: &Vec<u8>, from: usize, to: usize) -> (r: Result<
    (Vec<u8>, u32),
    SFSError,
>)
    requires
        from < to <= s@.len(),
    ensures
        match r {
            Ok(e) => parse_line(s@.subrange(from as int, to as int)) == Some((e.0@, e.1)),
            Err(er) => er == SFSError::InvalidBlock && parse_line(
                s@.subrange(from as int, to as int),
            ) is None,
        },
{
    let ghost line = s@.subrange(from as int, to as int);
    let mut ci = from;
    while ci < to && s[ci] != SEP_COLON
        invariant
            from <= ci <= to,
            to <= s@.len(),
            forall|j: int| from <= j < ci ==> s@[j] != SEP_COLON,
        decreases to - ci,
    {
        ci += 1;
    }
    proof {
        assert forall|j: int| 0 <= j < ci - from implies line[j] != SEP_COLON by {
            assert(line[j] == s@[from + j]);
        }
        lemma_find_byte_is(line, SEP_COLON, ci as int - from);
    }
    if ci == to {
        return Err(SFSError::InvalidBlock);
    }
    if ci == from {
        return Err(SFSError::InvalidBlock);
    }
    let ghost digits = line.take(ci as int - from);
    let mut val: u32 = 0;
    let mut i = from;
    proof {
        assert(dec_value(line.take(0)) == 0);
    }
    while i < ci
        invariant
            from <= i <= ci,
            from < ci < to,
            to <= s@.len(),
            line == s@.subrange(from as int, to as int),
            digits == line.take(ci as int - from),
            find_byte(line, SEP_COLON) == ci as int - from,
            forall|j: int| from <= j < i ==> is_dec_digit(s@[j]),
            val == dec_value(line.take(i as int - from)),
        decreases ci - i,
    {
        let b = s[i];
        if b < 48 || b > 57 {
            proof {
                assert(digits[i as int - from] == s@[i as int]);
                assert(!all_digits(digits));
            }
            return Err(SFSError::InvalidBlock);
        }
        let d = (b - 48) as u32;
        if val > (u32::MAX - d) / 10 {
            proof {
                lemma_dec_value_step(line, i as int - from);
                assert(line[i as int - from] == b);
                assert(dec_value(line.take(i as int - from + 1)) > u32::MAX);
                if all_digits(digits) {
                    lemma_dec_value_mono(digits, i as int - from + 1, digits.len() as int);
                    assert(digits.take(i as int - from + 1) =~= line.take(i as int - from + 1));
                    assert(digits.take(digits.len() as int) =~= digits);
                    assert(dec_value(digits) > u32::MAX);
                }
            }
            return Err(SFSError::InvalidBlock);
        }
        proof {
            assert(val * 10 + d <= u32::MAX);
            lemma_dec_value_step(line, i as int - from);
            assert(line[i as int - from] == b);
        }
        val = val * 10 + d;
        i += 1;
    }
    proof {
        assert(digits.take(digits.len() as int) =~= digits);
        assert(val == dec_value(digits));
        assert forall|j: int| 0 <= j < digits.len() implies is_dec_digit(#[trigger] digits[j]) by {
            assert(digits[j] == s@[from + j]);
        }
        lemma_dec_value_nonneg(digits);
    }
    let mut name: Vec<u8> = Vec::new();
    let mut j = ci + 1;
    while j < to
        invariant
            ci + 1 <= j <= to,
            to <= s@.len(),
            name@.len() == j - (ci + 1),
            forall|k: int| 0 <= k < name@.len() ==> name@[k] == s@[ci + 1 + k],
        decreases to - j,
    {
        name.push(s[j]);
        j += 1;
    }
    proof {
        assert(name@ =~= line.skip(ci as int - from + 1));
    }
    Ok((name, val))
}

/// Parse the records of `s[from..]`; fails with `InvalidBlock` exactly
/// when some line is malformed.
pub fn parse_lines_from(s: &Vec<u8>, from: usize) -> (r: Result<Vec<(Vec<u8>, u32)>, SFSError>)
    requires
        from <= s@.len(),
    ensures
        match r {
            Ok(es) => parse_lines(s@.skip(from as int)) == Some(entries_v(es@)),
            Err(er) => er == SFSError::InvalidBlock && parse_lines(s@.skip(from as int)) is None,
        },
    decreases s@.len() - from,
{
    let ghost t = s@.skip(from as int);
    if from == s.len() {
        let r: Vec<(Vec<u8>, u32)> = Vec::new();
        proof {
            assert(t =~= Seq::<u8>::empty());
            assert(entries_v(r@) =~= Seq::<(Seq<u8>, u32)>::empty());
        }
        return Ok(r);
    }
    let nl = find_byte_from(s, SEP_NL, from);
    proof {
        assert forall|j: int| 0 <= j < nl - from implies t[j] != SEP_NL by {
            assert(t[j] == s@[from + j]);
        }
        lemma_find_byte_is(t, SEP_NL, nl as int - from);
    }
    let next = if nl == s.len() {
        nl
    } else {
        nl + 1
    };
    proof {
        if nl == s@.len() {
            assert(s@.skip(next as int) =~= Seq::<u8>::empty());
        } else {
            assert(s@.skip(next as int) =~= t.skip(nl as int - from + 1));
        }
    }
    if nl == from {
        // an empty line carries no record
        return parse_lines_from(s, next);
    }
    let head = match parse_line_region(s, from, nl) {
        Ok(e) => e,
        Err(er) => {
            proof {
                assert(t.take(nl as int - from) =~= s@.subrange(from as int, nl as int));
            }
            return Err(er);
        },
    };
    proof {
        assert(t.take(nl as int - from) =~= s@.subrange(from as int, nl as int));
    }
    let mut rest = match parse_lines_from(s, next) {
        Ok(es) => es,
        Err(er) => {
            return Err(er);
        },
    };
    let ghost prev = rest@;
    rest.insert(0, head);
    proof {
        assert(entries_v(rest@) =~= seq![(head.0@, head.1)] + entries_v(prev));
    }
    Ok(rest)
}

/// Parse a whole directory image: the records of the bytes before the
/// first NUL; fails with `InvalidBlock` exactly when a line is
/// malformed.
pub fn parse_dir_bytes(content: &Vec<u8>) -> (r: Result<Vec<(Vec<u8>, u32)>, SFSError>)
    ensures
        match r {
            Ok(es) => parse_dir(content@) == Some(entries_v(es@)),
            Err(er) => er == SFSError::InvalidBlock && parse_dir(content@) is None,
        },
{
    let z = find_byte_from(content, 0, 0);
    proof {
        lemma_find_byte_is(content@, 0, z as int);
    }
    let mut live: Vec<u8> = Vec::new();
    let mut i: usize = 0;
    while i < z
        invariant
            i <= z,
            z <= content@.len(),
            live@ == content@.take(i as int),
        decreases z - i,
    {
        live.push(content[i]);
        i += 1;
        proof {
            assert(live@ =~= content@.take(i as int));
        }
    }
    proof {
        assert(live@.skip(0) =~= live@);
        assert(live@ =~= content@.take(z as int));
    }
    parse_lines_from(&live, 0)
}

/// The serialized image of a run of directory entries: one record per
/// entry, in order, closed by the NUL marker.
pub fn encode_dir_bytes(entries: &Vec<(Vec<u8>, u32)>) -> (r: Vec<u8>)
    ensures
        r@ == encode_dir(entries_v(entries@)),
{
    let ghost ev = entries_v(entries@);
    let mut out: Vec<u8> = Vec::new();
    proof {
        assert(ev.take(0) =~= Seq::<(Seq<u8>, u32)>::empty());
        assert(encode_entries(Seq::<(Seq<u8>, u32)>::empty()) == Seq::<u8>::empty());
    }
    let mut i: usize = 0;
    while i < entries.len()
        invariant
            i <= entries@.len(),
            ev == entries_v(entries@),
            out@ == encode_entries(ev.take(i as int)),
        decreases entries@.len() - i,
    {
        let ghost prev = out@;
        let e = &entries[i];
        let mut d = format_u32(e.1);
        out.append(&mut d);
        out.push(SEP_COLON);
        append_bytes(&mut out, &e.0);
        out.push(SEP_NL);
        i += 1;
        proof {
            assert(out@ =~= prev + encode_entry(ev[i - 1].0, ev[i - 1].1));
            assert(ev.take(i as int) =~= ev.take(i as int - 1).push(ev[i - 1]));
            lemma_encode_entries_push(ev.take(i as int - 1), ev[i - 1]);
        }
    }
    out.push(0);
    proof {
        assert(ev.take(entries@.len() as int) =~= ev);
        assert(out@ =~= encode_dir(ev));
    }
    out
}

/// The index of the first entry carrying `name`, or the length when
/// none does.
pub open spec fn entry_index(es: Seq<(Seq<u8>, u32)>, name: Seq<u8>) -> int
    decreases es.len(),
{
    if es.len() == 0 {
        0
    } else if es[0].0 == name {
        0
    } else {
        1 + entry_index(es.drop_first(), name)
    }
}

/// `entry_index` equals any index with the first-occurrence property.
pub proof fn lemma_entry_index_is(es: Seq<(Seq<u8>, u32)>, name: Seq<u8>, i: int)
    requires
        0 <= i <= es.len(),
        forall|j: int| 0 <= j < i ==> (#[trigger] es[j]).0 != name,
        i < es.len() ==> es[i].0 == name,
    ensures
        entry_index(es, name) == i,
    decreases es.len(),
{
    if es.len() == 0 {
    } else if es[0].0 == name {
        assert(i == 0);
    } else {
        assert(i >= 1);
        assert forall|j: int| 0 <= j < i - 1 implies (#[trigger] es.drop_first()[j]).0 != name by {
            assert(es.drop_first()[j] == es[j + 1]);
        }
        lemma_entry_index_is(es.drop_first(), name, i - 1);
    }
}

/// `entry_index` stays within the entry run.
pub proof fn lemma_entry_index_bounds(es: Seq<(Seq<u8>, u32)>, name: Seq<u8>)
    ensures
        0 <= entry_index(es, name) <= es.len(),
        entry_index(es, name) < es.len() ==> es[entry_index(es, name)].0 == name,
    decreases es.len(),
{
    if es.len() > 0 && es[0].0 != name {
        lemma_entry_index_bounds(es.drop_first(), name);
    }
}

/// The entries after mapping `name` to `inum`: the first entry already
/// carrying `name` is replaced, else a new entry is appended.
pub open spec fn upsert_entries(es: Seq<(Seq<u8>, u32)>, name: Seq<u8>, inum: u32) -> Seq<
    (Seq<u8>, u32),
> {
    if entry_index(es, name) == es.len() {
        es.push((name, inum))
    } else {
        es.update(entry_index(es, name), (name, inum))
    }
}

/// Map `name` to `inum` in a vector of entries, replacing the first
/// entry already carrying the name or appending a new one.
pub fn upsert(entries: &mut Vec<(Vec<u8>, u32)>, name: Vec<u8>, inum: u32)
    ensures
        entries_v(final(entries)@) == upsert_entries(entries_v(old(entries)@), name@, inum),
{
    let ghost ev = entries_v(entries@);
    let mut i: usize = 0;
    while i < entries.len()
        invariant
            i <= entries@.len(),
            entries@ == old(entries)@,
            ev == entries_v(entries@),
            forall|j: int| 0 <= j < i ==> (#[trigger] ev[j]).0 != name@,
        decreases entries@.len() - i,
    {
        if eq_bytes(&entries[i].0, &name) {
            proof {
                lemma_entry_index_is(ev, name@, i as int);
            }
            proof {
                assert(entry_index(ev, name@) == i as int);
                assert(upsert_entries(ev, name@, inum) == ev.update(i as int, (name@, inum)));
            }
            entries.set(i, (name, inum));
            proof {
                assert(entries_v(entries@) =~= ev.update(i as int, (name@, inum)));
            }
            return ;
        }
        i += 1;
    }
    proof {
        lemma_entry_index_is(ev, name@, entries@.len() as int);
    }
    entries.push((name, inum));
    proof {
        assert(entries_v(entries@) =~= ev.push((name@, inum)));
    }
}

/// Byte-for-byte equality of two byte vectors.
pub fn eq_bytes(a: &Vec<u8>, b: &Vec<u8>) -> (r: bool)
    ensures
        r == (a@ == b@),
{
    if a.len() != b.len() {
        return false;
    }
    let mut i: usize = 0;
    while i < a.len()
        invariant
            a@.len() == b@.len(),
            i <= a@.len(),
            forall|j: int| 0 <= j < i ==> a@[j] == b@[j],
        decreases a@.len() - i,
    {
        if a[i] != b[i] {
            return false;
        }
        i += 1;
    }
    proof {
        assert(a@ =~= b@);
    }
    true
}

/// The number of the first entry carrying `name`, if any.
pub fn lookup(entries: &Vec<(Vec<u8>, u32)>, name: &Vec<u8>) -> (r: Option<u32>)
    ensures
        r == find_entry(entries_v(entries@), name@),
{
    let mut i: usize = 0;
    while i < entries.len()
        invariant
            i <= entries@.len(),
            forall|j: int| 0 <= j < i ==> (#[trigger] entries_v(entries@)[j]).0 != name@,
        decreases entries@.len() - i,
    {
        if eq_bytes(&entries[i].0, name) {
            proof {
                lemma_find_entry_is(entries_v(entries@), name@, i as int);
            }
            return Some(entries[i].1);
        }
        i += 1;
    }
    proof {
        lemma_find_entry_is(entries_v(entries@), name@, entries@.len() as int);
    }
    None
}

} // verus!
