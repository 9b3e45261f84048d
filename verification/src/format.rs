//! The shard file layout.
//!
//! A shard file is one header line followed by the records' raw bytes. The
//! header holds two decimal lengths per record, the key's and the value's, in
//! the order in which the records are stored, separated by single spaces and
//! ended by a newline. After the newline come each record's key bytes and
//! value bytes, back to back, with nothing in between: the header alone says
//! where one ends and the next begins.

use crate::decimal::{
    decimal_text, field_value, is_digit, lemma_decimal_text_digits, lemma_field_round_trip,
    parse_field, push_decimal,
};
use vstd::prelude::*;
use vstd::slice::{slice_subrange, slice_to_vec};

verus! {

/// ASCII space, which separates the header's fields.
pub const SPACE: u8 = 32;

/// ASCII line feed, which ends the header.
pub const NEWLINE: u8 = 10;

/// A stored record: key bytes and value bytes.
pub type Record = (Vec<u8>, Vec<u8>);

/// A record as a pair of byte sequences.
pub type RecordView = (Seq<u8>, Seq<u8>);

/// Why a shard file cannot be read.
#[derive(Clone, Copy, Debug, PartialEq, Eq, Structural)]
pub enum FormatError {
    /// The file holds no newline, so its header line never ends.
    MissingHeader,
    /// The header is not a list of well-formed lengths, or holds an odd number of them.
    MalformedHeader,
    /// The header declares more bytes than follow it.
    Overrun,
}

/// The records of `rs` as pairs of byte sequences.
pub open spec fn view_records(rs: Seq<Record>) -> Seq<RecordView> {
    Seq::new(rs.len(), |i: int| (rs[i].0@, rs[i].1@))
}

/// The numbers of `lens` as naturals.
pub open spec fn view_lens(lens: Seq<usize>) -> Seq<nat> {
    Seq::new(lens.len(), |i: int| lens[i] as nat)
}

/// The index of the first `b` in `s`, or `s.len()` if `s` holds none.
pub open spec fn first_index(s: Seq<u8>, b: u8) -> nat
    decreases s.len(),
{
    if s.len() == 0 || s[0] == b {
        0
    } else {
        1 + first_index(s.skip(1), b)
    }
}

/// The lengths that a header declares: key length, value length, key length, ...
pub open spec fn record_lens(rs: Seq<RecordView>) -> Seq<nat> {
    Seq::new(
        2 * rs.len(),
        |i: int|
            if i % 2 == 0 {
                rs[i / 2].0.len()
            } else {
                rs[i / 2].1.len()
            },
    )
}

/// The header text for `lens`, without the newline: the decimal text of each
/// length, with one space between neighbours.
pub open spec fn header_text(lens: Seq<nat>) -> Seq<u8>
    decreases lens.len(),
{
    if lens.len() == 0 {
        Seq::empty()
    } else if lens.len() == 1 {
        decimal_text(lens[0])
    } else {
        decimal_text(lens[0]) + seq![SPACE] + header_text(lens.skip(1))
    }
}

/// The records' bytes back to back: each key followed by its value.
pub open spec fn payload(rs: Seq<RecordView>) -> Seq<u8>
    decreases rs.len(),
{
    if rs.len() == 0 {
        Seq::empty()
    } else {
        rs[0].0 + rs[0].1 + payload(rs.skip(1))
    }
}

/// The bytes of the shard file that stores `rs`, in that order.
pub open spec fn shard_image(rs: Seq<RecordView>) -> Seq<u8> {
    header_text(record_lens(rs)) + seq![NEWLINE] + payload(rs)
}

/// Whether every length of `rs` fits in `usize`, as it does for records held in memory.
pub open spec fn lens_fit(rs: Seq<RecordView>) -> bool {
    forall|i: int|
        0 <= i < rs.len() ==> (#[trigger] rs[i]).0.len() <= usize::MAX && rs[i].1.len()
            <= usize::MAX
}

/// `rest` with `done` in front, where there is a `rest`.
pub open spec fn after<A>(done: Seq<A>, rest: Option<Seq<A>>) -> Option<Seq<A>> {
    match rest {
        Some(r) => Some(done + r),
        None => None,
    }
}

/// The lengths that the header line `h` (without its newline) declares, if
/// every one of its space-separated fields is well-formed.
pub open spec fn header_lens(h: Seq<u8>) -> Option<Seq<nat>>
    decreases h.len(),
{
    let i = first_index(h, SPACE);
    match field_value(h.take(i as int)) {
        None => None,
        Some(n) => if i >= h.len() {
            Some(seq![n])
        } else {
            after(seq![n], header_lens(h.skip(i + 1 as int)))
        },
    }
}

/// The records that `lens` cuts out of `body`, from its start on; `None` if a
/// length has no partner or reaches past the end of `body`. Bytes of `body`
/// that no length covers are left aside.
pub open spec fn cut_records(body: Seq<u8>, lens: Seq<nat>) -> Option<Seq<RecordView>>
    decreases lens.len(),
{
    if lens.len() == 0 {
        Some(Seq::empty())
    } else if lens.len() == 1 {
        None
    } else if lens[0] + lens[1] > body.len() {
        None
    } else {
        let key = body.subrange(0, lens[0] as int);
        let value = body.subrange(lens[0] as int, lens[0] + lens[1] as int);
        after(seq![(key, value)], cut_records(body.skip(lens[0] + lens[1] as int), lens.skip(2)))
    }
}

/// The records that the shard file `bytes` stores, in file order, or why it
/// cannot be read.
pub open spec fn parse_shard(bytes: Seq<u8>) -> Result<Seq<RecordView>, FormatError> {
    let end = first_index(bytes, NEWLINE);
    if end >= bytes.len() {
        Err(FormatError::MissingHeader)
    } else {
        match header_lens(bytes.take(end as int)) {
            None => Err(FormatError::MalformedHeader),
            Some(lens) => if lens.len() % 2 != 0 {
                Err(FormatError::MalformedHeader)
            } else {
                match cut_records(bytes.skip(end + 1 as int), lens) {
                    None => Err(FormatError::Overrun),
                    Some(rs) => Ok(rs),
                }
            },
        }
    }
}

/// The sum of the lengths in `lens`.
pub open spec fn total(lens: Seq<nat>) -> nat
    decreases lens.len(),
{
    if lens.len() == 0 {
        0
    } else {
        lens[0] + total(lens.skip(1))
    }
}

/// `first_index` finds the first occurrence, and the end where there is none.
pub proof fn lemma_first_index(s: Seq<u8>, b: u8)
    ensures
        first_index(s, b) <= s.len(),
        forall|j: int| 0 <= j < first_index(s, b) ==> s[j] != b,
        first_index(s, b) < s.len() ==> s[first_index(s, b) as int] == b,
    decreases s.len(),
{
    if s.len() == 0 || s[0] == b {
    } else {
        lemma_first_index(s.skip(1), b);
        assert forall|j: int| 0 <= j < first_index(s, b) implies s[j] != b by {
            if j > 0 {
                assert(s.skip(1)[j - 1] == s[j]);
            }
        }
    }
}

/// An index before which `s` holds no `b`, and which holds `b` or is the end, is `first_index`.
pub proof fn lemma_first_index_is(s: Seq<u8>, b: u8, i: int)
    requires
        0 <= i <= s.len(),
        forall|j: int| 0 <= j < i ==> s[j] != b,
        i < s.len() ==> s[i] == b,
    ensures
        first_index(s, b) == i,
{
    lemma_first_index(s, b);
    let f = first_index(s, b) as int;
    if f < i {
        assert(s[f] != b);
    } else if i < f {
        assert(s[i] == b);
    }
}

/// A header text holds digits and spaces only.
pub proof fn lemma_header_text_bytes(lens: Seq<nat>)
    ensures
        forall|j: int|
            0 <= j < header_text(lens).len() ==> is_digit(#[trigger] header_text(lens)[j])
                || header_text(lens)[j] == SPACE,
    decreases lens.len(),
{
    let h = header_text(lens);
    if lens.len() == 0 {
    } else {
        let first = decimal_text(lens[0]);
        lemma_decimal_text_digits(lens[0]);
        if lens.len() > 1 {
            let rest = header_text(lens.skip(1));
            lemma_header_text_bytes(lens.skip(1));
            assert forall|j: int| 0 <= j < h.len() implies is_digit(#[trigger] h[j]) || h[j]
                == SPACE by {
                if j < first.len() {
                    assert(h[j] == first[j]);
                } else if j > first.len() {
                    assert(h[j] == rest[j - first.len() - 1]);
                }
            }
        }
    }
}

/// Appending a length to a header appends a space and the length's text.
pub proof fn lemma_header_text_push(lens: Seq<nat>, n: nat)
    ensures
        header_text(lens.push(n)) == if lens.len() == 0 {
            decimal_text(n)
        } else {
            header_text(lens) + seq![SPACE] + decimal_text(n)
        },
    decreases lens.len(),
{
    let all = lens.push(n);
    if lens.len() == 0 {
    } else {
        assert(all.skip(1) =~= lens.skip(1).push(n));
        lemma_header_text_push(lens.skip(1), n);
        if lens.len() == 1 {
            assert(lens.skip(1).len() == 0);
            assert(header_text(all) =~= header_text(lens) + seq![SPACE] + decimal_text(n));
        } else {
            assert(header_text(all) =~= header_text(lens) + seq![SPACE] + decimal_text(n));
        }
    }
}

/// Appending a record to a payload appends its key and its value.
pub proof fn lemma_payload_push(rs: Seq<RecordView>, r: RecordView)
    ensures
        payload(rs.push(r)) == payload(rs) + r.0 + r.1,
    decreases rs.len(),
{
    let all = rs.push(r);
    if rs.len() == 0 {
        assert(all.skip(1) =~= Seq::<RecordView>::empty());
        assert(payload(all.skip(1)) =~= Seq::<u8>::empty());
        assert(payload(all) == all[0].0 + all[0].1 + payload(all.skip(1)));
        assert(payload(all) =~= payload(rs) + r.0 + r.1);
    } else {
        assert(all.skip(1) =~= rs.skip(1).push(r));
        lemma_payload_push(rs.skip(1), r);
        assert(payload(all) =~= payload(rs) + r.0 + r.1);
    }
}

/// A payload is as long as its header's lengths add up to.
pub proof fn lemma_payload_len(rs: Seq<RecordView>)
    ensures
        payload(rs).len() == total(record_lens(rs)),
    decreases rs.len(),
{
    let lens = record_lens(rs);
    if rs.len() == 0 {
    } else {
        lemma_payload_len(rs.skip(1));
        assert(lens.skip(1).skip(1) =~= record_lens(rs.skip(1)));
        assert(total(lens) == lens[0] + total(lens.skip(1)));
        assert(total(lens.skip(1)) == lens.skip(1)[0] + total(lens.skip(1).skip(1)));
    }
}

/// Reading a header text gives back the lengths it was written for.
pub proof fn lemma_header_round_trip(lens: Seq<nat>)
    requires
        lens.len() > 0,
        forall|i: int| 0 <= i < lens.len() ==> lens[i] <= usize::MAX,
    ensures
        header_lens(header_text(lens)) == Some(lens),
    decreases lens.len(),
{
    let h = header_text(lens);
    let first = decimal_text(lens[0]);
    lemma_decimal_text_digits(lens[0]);
    lemma_field_round_trip(lens[0]);
    if lens.len() == 1 {
        lemma_first_index_is(h, SPACE, h.len() as int);
        assert(h.take(h.len() as int) =~= h);
        assert(seq![lens[0]] =~= lens);
    } else {
        let rest = lens.skip(1);
        lemma_first_index_is(h, SPACE, first.len() as int);
        assert(h.take(first.len() as int) =~= first);
        assert(h.skip(first.len() + 1 as int) =~= header_text(rest));
        lemma_header_round_trip(rest);
        assert(seq![lens[0]] + rest =~= lens);
    }
}

/// Cutting a payload by its own lengths gives back the records.
pub proof fn lemma_cut_round_trip(rs: Seq<RecordView>)
    ensures
        cut_records(payload(rs), record_lens(rs)) == Some(rs),
    decreases rs.len(),
{
    let lens = record_lens(rs);
    let body = payload(rs);
    if rs.len() == 0 {
        assert(rs =~= Seq::<RecordView>::empty());
    } else {
        let rest = rs.skip(1);
        lemma_cut_round_trip(rest);
        assert(lens.skip(2) =~= record_lens(rest));
        assert(lens[0] == rs[0].0.len());
        assert(lens[1] == rs[0].1.len());
        assert(body.subrange(0, lens[0] as int) =~= rs[0].0);
        assert(body.subrange(lens[0] as int, lens[0] + lens[1] as int) =~= rs[0].1);
        assert(body.skip(lens[0] + lens[1] as int) =~= payload(rest));
        assert(seq![rs[0]] + rest =~= rs);
    }
}

/// A stored shard reads back as the records it was written with: the file
/// written for a non-empty list of records parses to that list, record for
/// record and byte for byte.
pub proof fn law_shard_round_trip(rs: Seq<RecordView>)
    requires
        rs.len() > 0,
        lens_fit(rs),
    ensures
        parse_shard(shard_image(rs)) == Ok::<Seq<RecordView>, FormatError>(rs),
{
    let lens = record_lens(rs);
    let h = header_text(lens);
    let image = shard_image(rs);
    lemma_header_text_bytes(lens);
    lemma_first_index_is(image, NEWLINE, h.len() as int);
    assert(image.take(h.len() as int) =~= h);
    assert(image.skip(h.len() + 1 as int) =~= payload(rs));
    assert forall|i: int| 0 <= i < lens.len() implies lens[i] <= usize::MAX by {
        assert(rs[i / 2].0.len() <= usize::MAX);
    }
    lemma_header_round_trip(lens);
    lemma_cut_round_trip(rs);
}

/// The bytes that follow the header of a written shard are exactly as many as
/// the header's lengths add up to.
pub proof fn law_declared_lengths_add_up(rs: Seq<RecordView>)
    ensures
        shard_image(rs).len() == header_text(record_lens(rs)).len() + 1 + total(record_lens(rs)),
        first_index(shard_image(rs), NEWLINE) == header_text(record_lens(rs)).len(),
{
    let h = header_text(record_lens(rs));
    lemma_header_text_bytes(record_lens(rs));
    lemma_first_index_is(shard_image(rs), NEWLINE, h.len() as int);
    lemma_payload_len(rs);
}

/// A header declares at least one length.
pub proof fn lemma_header_lens_some(h: Seq<u8>)
    ensures
        header_lens(h) matches Some(lens) ==> lens.len() > 0,
{
}

/// No shard file stores an empty list of records: a file that can be read
/// holds at least one.
pub proof fn law_readable_shard_not_empty(bytes: Seq<u8>)
    ensures
        parse_shard(bytes) matches Ok(rs) ==> rs.len() > 0,
{
    let end = first_index(bytes, NEWLINE);
    lemma_header_lens_some(bytes.take(end as int));
}

/// Lengths that add up to more than `body` holds cannot be cut out of it.
pub proof fn lemma_cut_overrun(body: Seq<u8>, lens: Seq<nat>)
    requires
        total(lens) > body.len(),
    ensures
        cut_records(body, lens) is None,
    decreases lens.len(),
{
    if lens.len() < 2 {
        if lens.len() == 1 {
        } else {
            assert(total(lens) == 0);
        }
    } else if lens[0] + lens[1] > body.len() {
    } else {
        assert(total(lens) == lens[0] + total(lens.skip(1)));
        assert(total(lens.skip(1)) == lens.skip(1)[0] + total(lens.skip(1).skip(1)));
        assert(lens.skip(1).skip(1) =~= lens.skip(2));
        lemma_cut_overrun(body.skip(lens[0] + lens[1] as int), lens.skip(2));
    }
}

/// A shard file whose header declares more bytes than follow it cannot be
/// read; where the header is otherwise in order, the error says so.
pub proof fn law_overrun_unreadable(bytes: Seq<u8>, lens: Seq<nat>)
    requires
        first_index(bytes, NEWLINE) < bytes.len(),
        header_lens(bytes.take(first_index(bytes, NEWLINE) as int)) == Some(lens),
        total(lens) > bytes.len() - first_index(bytes, NEWLINE) - 1,
    ensures
        parse_shard(bytes) is Err,
        lens.len() % 2 == 0 ==> parse_shard(bytes) == Err::<Seq<RecordView>, FormatError>(
            FormatError::Overrun,
        ),
{
    lemma_cut_overrun(bytes.skip(first_index(bytes, NEWLINE) + 1 as int), lens);
}

/// The first index in `start..end` at which `bytes` holds `b`, or `end` if there is none.
pub fn find_byte(bytes: &[u8], start: usize, end: usize, b: u8) -> (at: usize)
    requires
        start <= end <= bytes.len(),
    ensures
        start <= at <= end,
        at - start == first_index(bytes@.subrange(start as int, end as int), b),
{
    let mut i: usize = start;
    while i < end && bytes[i] != b
        invariant
            start <= i <= end <= bytes.len(),
            forall|j: int| start <= j < i ==> bytes@[j] != b,
        decreases end - i,
    {
        i += 1;
    }
    proof {
        lemma_first_index_is(bytes@.subrange(start as int, end as int), b, i - start);
    }
    i
}

/// Reads the header line `bytes[..end]` into the lengths it declares.
fn decode_header(bytes: &[u8], end: usize) -> (lens: Option<Vec<usize>>)
    requires
        end <= bytes.len(),
    ensures
        match lens {
            Some(l) => header_lens(bytes@.take(end as int)) == Some(view_lens(l@)),
            None => header_lens(bytes@.take(end as int)) is None,
        },
{
    let ghost header = bytes@.take(end as int);
    let mut lens: Vec<usize> = Vec::new();
    let mut start: usize = 0;
    let mut done = false;
    assert(header.skip(0) =~= header);
    assert(view_lens(lens@) + header_lens(header).unwrap() =~= header_lens(header).unwrap());
    while !done
        invariant
            start <= end <= bytes.len(),
            header == bytes@.take(end as int),
            !done ==> header_lens(header) == after(
                view_lens(lens@),
                header_lens(header.skip(start as int)),
            ),
            done ==> header_lens(header) == Some(view_lens(lens@)),
        decreases end - start + (if done { 0int } else { 1int }),
    {
        let stop = find_byte(bytes, start, end, SPACE);
        let ghost field = bytes@.subrange(start as int, stop as int);
        let ghost rest = header.skip(start as int);
        proof {
            assert(rest =~= bytes@.subrange(start as int, end as int));
            assert(rest.take(stop - start) =~= field);
        }
        match parse_field(bytes, start, stop) {
            None => {
                return None;
            },
            Some(n) => {
                let ghost before = view_lens(lens@);
                lens.push(n);
                proof {
                    assert(view_lens(lens@) =~= before + seq![n as nat]);
                }
                if stop == end {
                    done = true;
                } else {
                    proof {
                        let next = header.skip(stop + 1);
                        assert(rest.skip(stop - start + 1) =~= next);
                        if header_lens(next) is Some {
                            assert(before + (seq![n as nat] + header_lens(next).unwrap())
                                =~= view_lens(lens@) + header_lens(next).unwrap());
                        }
                    }
                    start = stop + 1;
                }
            },
        }
    }
    Some(lens)
}

/// Reads a shard file: the records it stores, in file order, or why it cannot be read.
pub fn decode_shard(bytes: &[u8]) -> (records: Result<Vec<Record>, FormatError>)
    ensures
        match records {
            Ok(rs) => parse_shard(bytes@) == Ok::<Seq<RecordView>, FormatError>(
                view_records(rs@),
            ),
            Err(e) => parse_shard(bytes@) == Err::<Seq<RecordView>, FormatError>(e),
        },
{
    let end = find_byte(bytes, 0, bytes.len(), NEWLINE);
    assert(bytes@.subrange(0, bytes.len() as int) =~= bytes@);
    if end == bytes.len() {
        return Err(FormatError::MissingHeader);
    }
    let lens = match decode_header(bytes, end) {
        None => {
            return Err(FormatError::MalformedHeader);
        },
        Some(lens) => lens,
    };
    if lens.len() % 2 != 0 {
        return Err(FormatError::MalformedHeader);
    }
    let ghost all = view_lens(lens@);
    let ghost body = bytes@.skip(end + 1);
    let mut records: Vec<Record> = Vec::new();
    let mut offset: usize = end + 1;
    let mut idx: usize = 0;
    proof {
        assert(all.skip(0) =~= all);
        if cut_records(body, all) is Some {
            assert(view_records(records@) + cut_records(body, all).unwrap() =~= cut_records(
                body,
                all,
            ).unwrap());
        }
    }
    while idx < lens.len()
        invariant
            idx <= lens.len(),
            idx % 2 == 0,
            lens.len() % 2 == 0,
            end < offset <= bytes.len(),
            all == view_lens(lens@),
            body == bytes@.skip(end + 1),
            first_index(bytes@, NEWLINE) == end,
            header_lens(bytes@.take(end as int)) == Some(all),
            cut_records(body, all) == after(
                view_records(records@),
                cut_records(bytes@.skip(offset as int), all.skip(idx as int)),
            ),
        decreases lens.len() - idx,
    {
        let key_len = lens[idx];
        let value_len = lens[idx + 1];
        let left = bytes.len() - offset;
        let ghost rest = bytes@.skip(offset as int);
        let ghost ahead = all.skip(idx as int);
        proof {
            assert(ahead[0] == key_len as nat);
            assert(ahead[1] == value_len as nat);
            assert(rest.len() == left);
        }
        if key_len > left || value_len > left - key_len {
            assert(cut_records(rest, ahead) is None);
            return Err(FormatError::Overrun);
        }
        let key = slice_to_vec(slice_subrange(bytes, offset, offset + key_len));
        let value = slice_to_vec(
            slice_subrange(bytes, offset + key_len, offset + key_len + value_len),
        );
        let ghost before = view_records(records@);
        records.push((key, value));
        proof {
            let next = cut_records(
                bytes@.skip(offset + key_len + value_len),
                all.skip(idx + 2),
            );
            assert(rest.subrange(0, key_len as int) =~= key@);
            assert(rest.subrange(key_len as int, key_len + value_len) =~= value@);
            assert(rest.skip(key_len + value_len) =~= bytes@.skip(offset + key_len + value_len));
            assert(ahead.skip(2) =~= all.skip(idx + 2));
            assert(view_records(records@) =~= before + seq![(key@, value@)]);
            if next is Some {
                assert(before + (seq![(key@, value@)] + next.unwrap()) =~= view_records(records@)
                    + next.unwrap());
            }
        }
        offset = offset + key_len + value_len;
        idx = idx + 2;
    }
    proof {
        assert(all.skip(idx as int) =~= Seq::<nat>::empty());
        assert(view_records(records@) + Seq::<RecordView>::empty() =~= view_records(records@));
    }
    Ok(records)
}

/// Writes a shard file: the bytes that store `records`, in the order given.
pub fn encode_shard(records: &Vec<Record>) -> (bytes: Vec<u8>)
    ensures
        bytes@ == shard_image(view_records(records@)),
{
    let ghost rs = view_records(records@);
    let mut bytes: Vec<u8> = Vec::new();
    let mut i: usize = 0;
    assert(record_lens(rs.take(0)) =~= Seq::<nat>::empty());
    while i < records.len()
        invariant
            i <= records.len(),
            rs == view_records(records@),
            bytes@ == header_text(record_lens(rs.take(i as int))),
        decreases records.len() - i,
    {
        let ghost lens = record_lens(rs.take(i as int));
        let ghost key_len = records[i as int].0@.len();
        let ghost value_len = records[i as int].1@.len();
        proof {
            assert(record_lens(rs.take(i + 1)) =~= lens.push(key_len).push(value_len));
            lemma_header_text_push(lens, key_len);
            lemma_header_text_push(lens.push(key_len), value_len);
        }
        if i > 0 {
            bytes.push(SPACE);
        }
        push_decimal(&mut bytes, records[i].0.len());
        bytes.push(SPACE);
        push_decimal(&mut bytes, records[i].1.len());
        i += 1;
    }
    assert(rs.take(i as int) =~= rs);
    bytes.push(NEWLINE);
    let ghost head = bytes@;
    let mut j: usize = 0;
    assert(payload(rs.take(0)) =~= Seq::<u8>::empty());
    while j < records.len()
        invariant
            j <= records.len(),
            rs == view_records(records@),
            bytes@ == head + payload(rs.take(j as int)),
        decreases records.len() - j,
    {
        proof {
            assert(rs.take(j + 1) =~= rs.take(j as int).push(rs[j as int]));
            lemma_payload_push(rs.take(j as int), rs[j as int]);
        }
        let ghost before = bytes@;
        append_bytes(&mut bytes, &records[j].0);
        append_bytes(&mut bytes, &records[j].1);
        assert(bytes@ =~= before + rs[j as int].0 + rs[j as int].1);
        j += 1;
    }
    assert(rs.take(j as int) =~= rs);
    bytes
}

/// Appends `more` to `out`.
pub fn append_bytes(out: &mut Vec<u8>, more: &[u8])
    ensures
        final(out)@ == old(out)@ + more@,
{
    let mut i: usize = 0;
    while i < more.len()
        invariant
            i <= more.len(),
            out@ == old(out)@ + more@.take(i as int),
        decreases more.len() - i,
    {
        out.push(more[i]);
        assert(more@.take(i + 1) =~= more@.take(i as int).push(more@[i as int]));
        i += 1;
    }
    assert(more@.take(i as int) =~= more@);
}

} // verus!
