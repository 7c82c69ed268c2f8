//! The delimited-file codec: header-less records of two fields, fields
//! separated by a single caller-chosen delimiter byte, records terminated
//! by a carriage return and line feed pair.

use vstd::prelude::*;
use vstd::seq_lib::*;
use vstd::utf8::*;
use crate::store::{apply_records, Store};

verus! {

pub open spec fn crlf_at(b: Seq<u8>, i: int) -> bool {
    0 <= i && i + 1 < b.len() && b[i] == 13 && b[i + 1] == 10
}

/// No record terminator occurs inside `b`.
pub open spec fn crlf_free(b: Seq<u8>) -> bool {
    forall|i: int| !crlf_at(b, i)
}

/// The position of the first record terminator, if any.
pub open spec fn first_crlf(b: Seq<u8>) -> Option<int>
    decreases b.len(),
{
    if b.len() < 2 {
        None
    } else if b[0] == 13 && b[1] == 10 {
        Some(0)
    } else {
        match first_crlf(b.drop_first()) {
            Some(i) => Some(i + 1),
            None => None,
        }
    }
}

pub proof fn lemma_first_crlf_props(b: Seq<u8>)
    ensures
        match first_crlf(b) {
            Some(i) => crlf_at(b, i) && forall|j: int| j < i ==> !crlf_at(b, j),
            None => crlf_free(b),
        },
    decreases b.len(),
{
    if b.len() < 2 {
        assert(forall|j: int| !crlf_at(b, j));
    } else if b[0] == 13 && b[1] == 10 {
    } else {
        lemma_first_crlf_props(b.drop_first());
        let t = b.drop_first();
        assert forall|j: int| 0 <= j + 1 implies crlf_at(b, j + 1) == crlf_at(t, j) by {
            if 0 <= j && j + 1 < t.len() {
                assert(t[j] == b[j + 1]);
                assert(t[j + 1] == b[j + 2]);
            }
        }
        match first_crlf(t) {
            Some(i) => {
                assert(crlf_at(t, i));
                assert(crlf_at(b, i + 1));
                assert forall|j: int| j < i + 1 implies !crlf_at(b, j) by {
                    if 0 < j {
                        assert(!crlf_at(t, j - 1));
                        assert(crlf_at(b, j) == crlf_at(t, j - 1));
                    }
                }
            },
            None => {
                assert forall|j: int| !crlf_at(b, j) by {
                    if 0 < j {
                        assert(!crlf_at(t, j - 1));
                        assert(crlf_at(b, j) == crlf_at(t, j - 1));
                    }
                }
            },
        }
    }
}

/// The first terminator is wherever a terminator stands with none before it.
pub proof fn lemma_first_crlf_at(b: Seq<u8>, p: int)
    requires
        crlf_at(b, p),
        forall|j: int| j < p ==> !crlf_at(b, j),
    ensures
        first_crlf(b) == Some(p),
{
    lemma_first_crlf_props(b);
    match first_crlf(b) {
        Some(i) => {
            if i < p {
                assert(!crlf_at(b, i));
            }
            if p < i {
                assert(!crlf_at(b, p));
            }
        },
        None => {
            assert(!crlf_at(b, p));
        },
    }
}

/// The lines of a file: the segments between record terminators. The
/// segment after the last terminator is a line as well, so a terminated
/// file ends with one empty line.
pub open spec fn split_crlf(b: Seq<u8>) -> Seq<Seq<u8>>
    decreases b.len(),
    via split_crlf_decreases
{
    match first_crlf(b) {
        None => seq![b],
        Some(i) => seq![b.take(i)] + split_crlf(b.skip(i + 2)),
    }
}

#[via_fn]
proof fn split_crlf_decreases(b: Seq<u8>) {
    lemma_first_crlf_props(b);
}

/// The fields of a line: the segments between delimiter bytes.
pub open spec fn split_byte(b: Seq<u8>, d: u8) -> Seq<Seq<u8>>
    decreases b.len(),
    via split_byte_decreases
{
    match b.index_of_first(d) {
        None => seq![b],
        Some(i) => seq![b.take(i)] + split_byte(b.skip(i + 1), d),
    }
}

#[via_fn]
proof fn split_byte_decreases(b: Seq<u8>, d: u8) {
    b.index_of_first_ensures(d);
}

/// A line parses cleanly when it either has too few fields to be a record,
/// or its first two fields are valid UTF-8.
pub open spec fn line_ok(line: Seq<u8>, d: u8) -> bool {
    let fs = split_byte(line, d);
    fs.len() < 2 || (valid_utf8(fs[0]) && valid_utf8(fs[1]))
}

/// The record a line contributes: its first two fields, decoded. A line
/// with fewer than two fields contributes none; fields beyond the second
/// are ignored.
pub open spec fn line_records(line: Seq<u8>, d: u8) -> Seq<(Seq<char>, Seq<char>)> {
    let fs = split_byte(line, d);
    if fs.len() < 2 {
        seq![]
    } else {
        seq![(decode_utf8(fs[0]), decode_utf8(fs[1]))]
    }
}

/// All lines parse cleanly.
pub open spec fn lines_ok(lines: Seq<Seq<u8>>, d: u8) -> bool {
    forall|i: int| 0 <= i < lines.len() ==> line_ok(#[trigger] lines[i], d)
}

/// The records of the lines up to but excluding the first line that fails
/// to parse.
pub open spec fn parsed_records(lines: Seq<Seq<u8>>, d: u8) -> Seq<(Seq<char>, Seq<char>)>
    decreases lines.len(),
{
    if lines.len() == 0 {
        seq![]
    } else if !line_ok(lines[0], d) {
        seq![]
    } else {
        line_records(lines[0], d) + parsed_records(lines.drop_first(), d)
    }
}

/// The serialized form of the entries: one record per entry, in order.
pub open spec fn encode_records(s: Seq<(Seq<char>, Seq<char>)>, d: u8) -> Seq<u8>
    decreases s.len(),
{
    if s.len() == 0 {
        seq![]
    } else {
        encode_utf8(s[0].0) + seq![d] + encode_utf8(s[0].1) + seq![13u8, 10u8] + encode_records(
            s.drop_first(),
            d,
        )
    }
}

/// Copies `b[from..to]` into a fresh vector.
pub(crate) fn take_range(b: &[u8], from: usize, to: usize) -> (r: Vec<u8>)
    requires
        from <= to <= b@.len(),
    ensures
        r@ == b@.subrange(from as int, to as int),
{
    let mut r: Vec<u8> = Vec::new();
    let mut k = from;
    while k < to
        invariant
            from <= k <= to <= b@.len(),
            r@ == b@.subrange(from as int, k as int),
        decreases to - k,
    {
        r.push(b[k]);
        proof {
            assert(r@ =~= b@.subrange(from as int, k as int + 1));
        }
        k = k + 1;
    }
    r
}

/// Splits a byte string into its lines.
fn split_crlf_exec(b: &[u8]) -> (r: Vec<Vec<u8>>)
    ensures
        r@.map_values(|v: Vec<u8>| v@) == split_crlf(b@),
{
    let n = b.len();
    let mut r: Vec<Vec<u8>> = Vec::new();
    let mut start: usize = 0;
    let mut i: usize = 0;
    proof {
        assert(b@.skip(0) =~= b@);
        assert(r@.map_values(|v: Vec<u8>| v@) =~= Seq::<Seq<u8>>::empty());
        assert(Seq::<Seq<u8>>::empty() + split_crlf(b@) =~= split_crlf(b@));
    }
    loop
        invariant
            0 <= start <= i <= n,
            n == b@.len(),
            forall|j: int| j < i - start ==> !(#[trigger] crlf_at(b@.skip(start as int), j)),
            r@.map_values(|v: Vec<u8>| v@) + split_crlf(b@.skip(start as int)) == split_crlf(b@),
        ensures
            start <= n,
            r@.map_values(|v: Vec<u8>| v@) + split_crlf(b@.skip(start as int)) == split_crlf(b@),
            crlf_free(b@.skip(start as int)),
        decreases n - i,
    {
        if n - i < 2 {
            proof {
                assert forall|j: int| !crlf_at(b@.skip(start as int), j) by {
                    if j >= i - start {
                        assert(j + 1 >= b@.skip(start as int).len());
                    }
                }
            }
            break ;
        }
        if b[i] == 13 && b[i + 1] == 10 {
            let piece = take_range(b, start, i);
            r.push(piece);
            proof {
                let suffix = b@.skip(start as int);
                let p = i - start;
                assert(crlf_at(suffix, p as int)) by {
                    assert(suffix[p as int] == b@[i as int]);
                    assert(suffix[p as int + 1] == b@[i as int + 1]);
                }
                assert forall|j: int| j < p implies !crlf_at(suffix, j) by {
                    assert(!crlf_at(suffix, j));
                }
                lemma_first_crlf_at(suffix, p as int);
                assert(suffix.take(p as int) =~= b@.subrange(start as int, i as int));
                assert(suffix.skip(p as int + 2) =~= b@.skip(i as int + 2));
                assert(split_crlf(suffix) == seq![b@.subrange(start as int, i as int)]
                    + split_crlf(b@.skip(i as int + 2)));
                let old_pieces = r@.drop_last().map_values(|v: Vec<u8>| v@);
                assert(r@.map_values(|v: Vec<u8>| v@) =~= old_pieces + seq![
                    b@.subrange(start as int, i as int),
                ]);
                assert(r@.map_values(|v: Vec<u8>| v@) + split_crlf(b@.skip(i as int + 2))
                    =~= old_pieces + split_crlf(suffix));
            }
            start = i + 2;
            i = start;
        } else {
            proof {
                let suffix = b@.skip(start as int);
                assert forall|j: int| j < i + 1 - start implies !crlf_at(suffix, j) by {
                    if j == i - start {
                        assert(suffix[j] == b@[i as int]);
                        assert(suffix[j + 1] == b@[i as int + 1]);
                    }
                }
            }
            i = i + 1;
        }
    }
    proof {
        lemma_first_crlf_props(b@.skip(start as int));
        match first_crlf(b@.skip(start as int)) {
            Some(p) => {
                assert(!crlf_at(b@.skip(start as int), p));
            },
            None => {},
        }
    }
    let last = take_range(b, start, n);
    r.push(last);
    proof {
        assert(b@.subrange(start as int, n as int) =~= b@.skip(start as int));
        let old_pieces = r@.drop_last().map_values(|v: Vec<u8>| v@);
        assert(r@.map_values(|v: Vec<u8>| v@) =~= old_pieces + seq![b@.skip(start as int)]);
        assert(split_crlf(b@.skip(start as int)) == seq![b@.skip(start as int)]);
    }
    r
}

/// Splits a line into its fields.
pub(crate) fn split_byte_exec(b: &[u8], d: u8) -> (r: Vec<Vec<u8>>)
    ensures
        r@.map_values(|v: Vec<u8>| v@) == split_byte(b@, d),
{
    let n = b.len();
    let mut r: Vec<Vec<u8>> = Vec::new();
    let mut start: usize = 0;
    let mut i: usize = 0;
    proof {
        assert(b@.skip(0) =~= b@);
        assert(r@.map_values(|v: Vec<u8>| v@) =~= Seq::<Seq<u8>>::empty());
        assert(Seq::<Seq<u8>>::empty() + split_byte(b@, d) =~= split_byte(b@, d));
    }
    while i < n
        invariant
            0 <= start <= i <= n,
            n == b@.len(),
            forall|j: int| start <= j < i ==> b@[j] != d,
            r@.map_values(|v: Vec<u8>| v@) + split_byte(b@.skip(start as int), d) == split_byte(
                b@,
                d,
            ),
        decreases n - i,
    {
        if b[i] == d {
            let piece = take_range(b, start, i);
            r.push(piece);
            proof {
                let suffix = b@.skip(start as int);
                let p = i - start;
                suffix.index_of_first_ensures(d);
                assert(suffix[p as int] == d);
                match suffix.index_of_first(d) {
                    Some(q) => {
                        if q < p {
                            assert(suffix[q] == b@[q + start]);
                        }
                        assert(q == p);
                    },
                    None => {
                        assert(false);
                    },
                }
                assert(suffix.take(p as int) =~= b@.subrange(start as int, i as int));
                assert(suffix.skip(p as int + 1) =~= b@.skip(i as int + 1));
                assert(split_byte(suffix, d) == seq![b@.subrange(start as int, i as int)]
                    + split_byte(b@.skip(i as int + 1), d));
                let old_pieces = r@.drop_last().map_values(|v: Vec<u8>| v@);
                assert(r@.map_values(|v: Vec<u8>| v@) =~= old_pieces + seq![
                    b@.subrange(start as int, i as int),
                ]);
                assert(r@.map_values(|v: Vec<u8>| v@) + split_byte(b@.skip(i as int + 1), d)
                    =~= old_pieces + split_byte(suffix, d));
            }
            start = i + 1;
            i = start;
        } else {
            i = i + 1;
        }
    }
    proof {
        let suffix = b@.skip(start as int);
        suffix.index_of_first_ensures(d);
        match suffix.index_of_first(d) {
            Some(q) => {
                assert(suffix[q] == b@[q + start]);
                assert(false);
            },
            None => {},
        }
        assert(split_byte(suffix, d) == seq![suffix]);
    }
    let last = take_range(b, start, n);
    r.push(last);
    proof {
        assert(b@.subrange(start as int, n as int) =~= b@.skip(start as int));
        let old_pieces = r@.drop_last().map_values(|v: Vec<u8>| v@);
        assert(r@.map_values(|v: Vec<u8>| v@) =~= old_pieces + seq![b@.skip(start as int)]);
    }
    r
}

/// Relies on `String::from_utf8`: it returns the decoded string exactly
/// when the bytes are valid UTF-8, and an error otherwise.
#[verifier::external_body]
fn utf8_to_string(bytes: &Vec<u8>) -> (r: Option<String>)
    ensures
        r is Some <==> valid_utf8(bytes@),
        r is Some ==> r.unwrap()@ == decode_utf8(bytes@),
{
    String::from_utf8(bytes.clone()).ok()
}

/// Loads the records of a delimited file image into the store, upserting
/// row by row. Returns false when some row fails to parse; the rows before
/// it stay applied.
pub fn import_bytes(store: &mut Store, bytes: &[u8], d: u8) -> (ok: bool)
    requires
        old(store).wf(),
    ensures
        final(store).wf(),
        final(store)@ == apply_records(old(store)@, parsed_records(split_crlf(bytes@), d)),
        ok <==> lines_ok(split_crlf(bytes@), d),
{
    let ghost all_lines = split_crlf(bytes@);
    let lines = split_crlf_exec(bytes);
    let n = lines.len();
    let mut k: usize = 0;
    proof {
        assert(all_lines.skip(0) =~= all_lines);
    }
    while k < n
        invariant
            old(store).wf(),
            store.wf(),
            n == lines@.len(),
            0 <= k <= n,
            all_lines == split_crlf(bytes@),
            all_lines == lines@.map_values(|v: Vec<u8>| v@),
            forall|j: int| 0 <= j < k ==> line_ok(#[trigger] all_lines[j], d),
            apply_records(old(store)@, parsed_records(all_lines, d)) == apply_records(
                store@,
                parsed_records(all_lines.skip(k as int), d),
            ),
        decreases n - k,
    {
        let ghost rest = all_lines.skip(k as int);
        proof {
            assert(rest[0] == all_lines[k as int]);
            assert(rest.drop_first() =~= all_lines.skip(k as int + 1));
        }
        let fields = split_byte_exec(lines[k].as_slice(), d);
        proof {
            assert(lines@[k as int]@ == all_lines[k as int]);
        }
        if fields.len() >= 2 {
            let key = utf8_to_string(&fields[0]);
            let value = utf8_to_string(&fields[1]);
            proof {
                assert(fields@.map_values(|v: Vec<u8>| v@)[0] == fields@[0]@);
                assert(fields@.map_values(|v: Vec<u8>| v@)[1] == fields@[1]@);
            }
            match (key, value) {
                (Some(key), Some(value)) => {
                    proof {
                        assert(line_ok(all_lines[k as int], d));
                        assert(line_records(all_lines[k as int], d) =~= seq![
                            (key@, value@),
                        ]);
                        assert(parsed_records(rest, d) == seq![(key@, value@)] + parsed_records(
                            rest.drop_first(),
                            d,
                        ));
                        crate::store::lemma_apply_records_concat(
                            store@,
                            seq![(key@, value@)],
                            parsed_records(rest.drop_first(), d),
                        );
                        let one = seq![(key@, value@)];
                        assert(one[0] == (key@, value@));
                        assert(one.drop_first() =~= Seq::<(Seq<char>, Seq<char>)>::empty());
                        assert(apply_records(store@, one) == apply_records(
                            store@.insert(key@, value@),
                            one.drop_first(),
                        ));
                        assert(apply_records(store@.insert(key@, value@), one.drop_first())
                            == store@.insert(key@, value@));
                    }
                    store.upsert(key, value);
                },
                _ => {
                    proof {
                        assert(!line_ok(all_lines[k as int], d));
                        assert(apply_records(store@, parsed_records(rest, d)) == store@);
                    }
                    return false;
                },
            }
        } else {
            proof {
                assert(fields@.map_values(|v: Vec<u8>| v@).len() < 2);
                assert(line_ok(all_lines[k as int], d));
                assert(line_records(all_lines[k as int], d) =~= Seq::<(
                    Seq<char>,
                    Seq<char>,
                )>::empty());
                assert(parsed_records(rest, d) =~= parsed_records(rest.drop_first(), d));
            }
        }
        k = k + 1;
    }
    proof {
        assert(all_lines.skip(n as int) =~= Seq::<Seq<u8>>::empty());
    }
    true
}

/// Text fit for one field of a record: it holds neither the delimiter
/// byte nor a record terminator.
pub open spec fn clean_text(b: Seq<u8>, d: u8) -> bool {
    !b.contains(d) && crlf_free(b)
}

/// Every key and value encodes to text fit for a field.
pub open spec fn clean_entries(s: Seq<(Seq<char>, Seq<char>)>, d: u8) -> bool {
    forall|i: int|
        0 <= i < s.len() ==> clean_text(encode_utf8((#[trigger] s[i]).0), d) && clean_text(
            encode_utf8(s[i].1),
            d,
        )
}

/// Round trip of the codec: a serialized entry sequence parses back to
/// exactly that sequence, provided the delimiter is not part of a record
/// terminator and no key or value holds the delimiter or a terminator —
/// a value such as "a\r\nb", or one containing the delimiter itself,
/// cannot survive, since the file format has no escaping.
pub proof fn lemma_codec_round_trip(s: Seq<(Seq<char>, Seq<char>)>, d: u8)
    requires
        d != 13,
        d != 10,
        clean_entries(s, d),
    ensures
        lines_ok(split_crlf(encode_records(s, d)), d),
        parsed_records(split_crlf(encode_records(s, d)), d) == s,
    decreases s.len(),
{
    broadcast use encode_utf8_valid_utf8;
    broadcast use encode_utf8_decode_utf8;

    let bytes = encode_records(s, d);
    if s.len() == 0 {
        assert(bytes =~= Seq::<u8>::empty());
        assert(first_crlf(bytes) is None);
        assert(split_crlf(bytes) == seq![bytes]);
        let lines = split_crlf(bytes);
        assert(lines[0] == bytes);
        bytes.index_of_first_ensures(d);
        match bytes.index_of_first(d) {
            Some(q) => {
                assert(false);
            },
            None => {},
        }
        assert(split_byte(bytes, d) == seq![bytes]);
        assert(line_ok(bytes, d));
        assert forall|i: int| 0 <= i < lines.len() implies line_ok(#[trigger] lines[i], d) by {
            assert(lines[i] == bytes);
        }
        assert(lines.drop_first() =~= Seq::<Seq<u8>>::empty());
        assert(parsed_records(lines, d) == line_records(lines[0], d) + parsed_records(
            lines.drop_first(),
            d,
        ));
        assert(line_records(bytes, d) =~= Seq::<(Seq<char>, Seq<char>)>::empty());
        assert(parsed_records(Seq::<Seq<u8>>::empty(), d) =~= Seq::<(Seq<char>, Seq<char>)>::empty());
        assert(parsed_records(lines, d) =~= s);
    } else {
        let ek = encode_utf8(s[0].0);
        let ev = encode_utf8(s[0].1);
        let rest = encode_records(s.drop_first(), d);
        let line0 = ek + seq![d] + ev;
        let el = line0.len() as int;
        assert(bytes =~= line0 + seq![13u8, 10u8] + rest);
        assert(clean_entries(s.drop_first(), d)) by {
            assert forall|i: int| 0 <= i < s.drop_first().len() implies clean_text(
                encode_utf8((#[trigger] s.drop_first()[i]).0),
                d,
            ) && clean_text(encode_utf8(s.drop_first()[i].1), d) by {
                assert(s.drop_first()[i] == s[i + 1]);
            }
        }
        lemma_codec_round_trip(s.drop_first(), d);

        // The first terminator stands exactly at the end of the first line.
        assert(clean_text(ek, d) && clean_text(ev, d));
        assert(crlf_at(bytes, el)) by {
            assert(bytes[el] == 13 && bytes[el + 1] == 10);
        }
        assert forall|j: int| j < el implies !crlf_at(bytes, j) by {
            if 0 <= j {
                if j + 1 < ek.len() {
                    assert(!crlf_at(ek, j));
                    assert(bytes[j] == ek[j] && bytes[j + 1] == ek[j + 1]);
                } else if j + 1 == ek.len() {
                    if 0 <= j {
                        assert(bytes[j + 1] == d);
                    }
                } else if j == ek.len() {
                    assert(bytes[j] == d);
                } else if j + 1 < el {
                    let p = j - ek.len() - 1;
                    assert(!crlf_at(ev, p));
                    assert(bytes[j] == ev[p] && bytes[j + 1] == ev[p + 1]);
                } else {
                    assert(j + 1 == el);
                    assert(bytes[j + 1] == 13);
                }
            }
        }
        lemma_first_crlf_at(bytes, el);
        assert(bytes.take(el) =~= line0);
        assert(bytes.skip(el + 2) =~= rest);
        let lines = split_crlf(bytes);
        assert(lines == seq![line0] + split_crlf(rest));
        assert(lines[0] == line0);
        assert(lines.drop_first() =~= split_crlf(rest));

        // The first line splits into exactly the two encoded fields.
        line0.index_of_first_ensures(d);
        assert(line0[ek.len() as int] == d);
        match line0.index_of_first(d) {
            Some(q) => {
                if q < ek.len() {
                    assert(line0[q] == ek[q]);
                    assert(ek.contains(d));
                }
                if q > ek.len() {
                    assert(line0[ek.len() as int] != d);
                }
                assert(q == ek.len());
                assert(line0.take(q) =~= ek);
                assert(line0.skip(q + 1) =~= ev);
            },
            None => {
                assert(line0[ek.len() as int] != d);
            },
        }
        ev.index_of_first_ensures(d);
        match ev.index_of_first(d) {
            Some(q) => {
                assert(ev.contains(d));
            },
            None => {},
        }
        assert(split_byte(ev, d) == seq![ev]);
        let fields = split_byte(line0, d);
        assert(fields =~= seq![ek, ev]);
        assert(fields[0] == ek && fields[1] == ev);
        assert(line_ok(line0, d));
        assert(line_records(line0, d) == seq![(decode_utf8(ek), decode_utf8(ev))]);
        assert(decode_utf8(ek) == s[0].0 && decode_utf8(ev) == s[0].1);
        assert(line_records(line0, d) =~= seq![s[0]]);

        assert forall|i: int| 0 <= i < lines.len() implies line_ok(#[trigger] lines[i], d) by {
            if i > 0 {
                assert(lines[i] == split_crlf(rest)[i - 1]);
                assert(line_ok(split_crlf(rest)[i - 1], d));
            }
        }
        assert(parsed_records(lines, d) == line_records(line0, d) + parsed_records(
            split_crlf(rest),
            d,
        ));
        assert(parsed_records(lines, d) =~= seq![s[0]] + s.drop_first());
        assert(seq![s[0]] + s.drop_first() =~= s);
    }
}

/// Round trip through a file: exporting a store and importing the bytes
/// into a fresh, empty store rebuilds exactly the original mapping, in
/// the same deterministic key order, under the conditions of
/// `lemma_codec_round_trip`.
pub proof fn lemma_export_import_round_trip(s: Store, d: u8)
    requires
        s.wf(),
        d != 13,
        d != 10,
        clean_entries(s.seq_view(), d),
    ensures
        lines_ok(split_crlf(encode_records(s.seq_view(), d)), d),
        apply_records(
            Map::<Seq<char>, Seq<char>>::empty(),
            parsed_records(split_crlf(encode_records(s.seq_view(), d)), d),
        ) == s@,
{
    lemma_codec_round_trip(s.seq_view(), d);
    crate::store::lemma_apply_records_empty(s.seq_view());
}

/// Serializes the store's entries, in their key order.
pub fn export_bytes(store: &Store, d: u8) -> (out: Vec<u8>)
    requires
        store.wf(),
    ensures
        out@ == encode_records(store.seq_view(), d),
{
    let n = store.entries.len();
    let mut out: Vec<u8> = Vec::new();
    let mut k: usize = 0;
    proof {
        assert(store.seq_view().skip(0) =~= store.seq_view());
        assert(out@ =~= Seq::<u8>::empty());
        assert(Seq::<u8>::empty() + encode_records(store.seq_view(), d) =~= encode_records(
            store.seq_view(),
            d,
        ));
    }
    while k < n
        invariant
            n == store.entries@.len(),
            0 <= k <= n,
            out@ + encode_records(store.seq_view().skip(k as int), d) == encode_records(
                store.seq_view(),
                d,
            ),
        decreases n - k,
    {
        let ghost rest = store.seq_view().skip(k as int);
        proof {
            assert(rest[0] == store.seq_view()[k as int]);
            assert(rest.drop_first() =~= store.seq_view().skip(k as int + 1));
        }
        let ghost prev = out@;
        let key_bytes = store.entries[k].0.as_str().as_bytes();
        out.extend_from_slice(key_bytes);
        out.push(d);
        let value_bytes = store.entries[k].1.as_str().as_bytes();
        out.extend_from_slice(value_bytes);
        out.push(13);
        out.push(10);
        proof {
            assert(out@ =~= prev + (encode_utf8(rest[0].0) + seq![d] + encode_utf8(rest[0].1)
                + seq![13u8, 10u8]));
        }
        k = k + 1;
    }
    proof {
        assert(store.seq_view().skip(n as int) =~= Seq::<(Seq<char>, Seq<char>)>::empty());
        assert(out@ =~= encode_records(store.seq_view(), d));
    }
    out
}

} // verus!
