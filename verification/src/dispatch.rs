//! The command dispatcher: selects a behavior from the six-byte task
//! identifier and the argument list, mutates or queries the store, and
//! produces the response — or a file action for import and export, which
//! the caller performs and then finishes.

use vstd::prelude::*;
use vstd::string::StringExecFns;
use vstd::utf8::*;
use crate::codec::{encode_records, export_bytes, import_bytes, lines_ok, parsed_records,
    split_crlf};
use crate::order::{cmp_bytes, Cmp};
use crate::store::{apply_records, lemma_encode_injective, pairs_view, Store};
use crate::text::{dec_str, render_usize, trim, trimmed};

verus! {

/// The recognized task identifiers.
pub enum Task {
    Import,
    Export,
    Update,
    Delete,
    Length,
    ByKeys,
    ByVals,
    Unknown,
}

/// Which task a six-byte identifier names.
pub open spec fn task_of(t: Seq<u8>) -> Task {
    if t == encode_utf8("import"@) {
        Task::Import
    } else if t == encode_utf8("export"@) {
        Task::Export
    } else if t == encode_utf8("update"@) {
        Task::Update
    } else if t == encode_utf8("delete"@) {
        Task::Delete
    } else if t == encode_utf8("length"@) {
        Task::Length
    } else if t == encode_utf8("bykeys"@) {
        Task::ByKeys
    } else if t == encode_utf8("byvals"@) {
        Task::ByVals
    } else {
        Task::Unknown
    }
}

fn bytes_eq(a: &[u8], b: &[u8]) -> (r: bool)
    ensures
        r == (a@ == b@),
{
    match cmp_bytes(a, b) {
        Cmp::Eq => true,
        _ => false,
    }
}

/// Matches the identifier bytes against the recognized tasks.
pub fn classify(task: &[u8]) -> (r: Task)
    ensures
        r == task_of(task@),
{
    if bytes_eq(task, "import".as_bytes()) {
        Task::Import
    } else if bytes_eq(task, "export".as_bytes()) {
        Task::Export
    } else if bytes_eq(task, "update".as_bytes()) {
        Task::Update
    } else if bytes_eq(task, "delete".as_bytes()) {
        Task::Delete
    } else if bytes_eq(task, "length".as_bytes()) {
        Task::Length
    } else if bytes_eq(task, "bykeys".as_bytes()) {
        Task::ByKeys
    } else if bytes_eq(task, "byvals".as_bytes()) {
        Task::ByVals
    } else {
        Task::Unknown
    }
}

/// The response to every command the dispatcher accepts.
pub fn ok_response() -> (r: String)
    ensures
        r@ == "OK"@,
{
    "OK".to_owned()
}

/// The mapping after an `update` command: arguments taken as consecutive
/// (key, value) pairs, both trimmed, each pair upserted in turn; a final
/// unpaired argument is ignored.
pub open spec fn updates_applied(m: Map<Seq<char>, Seq<char>>, args: Seq<Seq<char>>) -> Map<
    Seq<char>,
    Seq<char>,
>
    decreases args.len(),
{
    if args.len() < 2 {
        m
    } else {
        updates_applied(m.insert(trimmed(args[0]), trimmed(args[1])), args.skip(2))
    }
}

/// Upserts the argument pairs; always answers `OK`.
pub fn update(store: &mut Store, args: &Vec<String>) -> (r: String)
    requires
        old(store).wf(),
    ensures
        final(store).wf(),
        final(store)@ == updates_applied(old(store)@, args.deep_view()),
        r@ == "OK"@,
{
    let ghost all = args.deep_view();
    let n = args.len();
    let mut i: usize = 0;
    proof {
        assert(all.skip(0) =~= all);
    }
    while n - i >= 2
        invariant
            old(store).wf(),
            store.wf(),
            0 <= i <= n,
            n == args@.len(),
            all == args.deep_view(),
            updates_applied(old(store)@, all) == updates_applied(store@, all.skip(i as int)),
        decreases n - i,
    {
        let ghost rest = all.skip(i as int);
        proof {
            assert(rest[0] == all[i as int]);
            assert(rest[1] == all[i as int + 1]);
            assert(rest.skip(2) =~= all.skip(i as int + 2));
            assert(all[i as int] == args@[i as int]@);
            assert(all[i as int + 1] == args@[i as int + 1]@);
        }
        let key = trim(args[i].as_str());
        let value = trim(args[i + 1].as_str());
        store.upsert(key, value);
        i = i + 2;
    }
    proof {
        assert(updates_applied(store@, all.skip(i as int)) == store@);
    }
    ok_response()
}

/// The mapping after a `delete` command: each named key removed; absent
/// keys change nothing.
pub open spec fn deletes_applied(m: Map<Seq<char>, Seq<char>>, keys: Seq<Seq<char>>) -> Map<
    Seq<char>,
    Seq<char>,
>
    decreases keys.len(),
{
    if keys.len() == 0 {
        m
    } else {
        deletes_applied(m.remove(keys[0]), keys.drop_first())
    }
}

/// Removes the named keys; always answers `OK`.
pub fn delete(store: &mut Store, args: &Vec<String>) -> (r: String)
    requires
        old(store).wf(),
    ensures
        final(store).wf(),
        final(store)@ == deletes_applied(old(store)@, args.deep_view()),
        r@ == "OK"@,
{
    let ghost all = args.deep_view();
    let n = args.len();
    let mut i: usize = 0;
    proof {
        assert(all.skip(0) =~= all);
    }
    while i < n
        invariant
            old(store).wf(),
            store.wf(),
            0 <= i <= n,
            n == args@.len(),
            all == args.deep_view(),
            deletes_applied(old(store)@, all) == deletes_applied(store@, all.skip(i as int)),
        decreases n - i,
    {
        let ghost rest = all.skip(i as int);
        proof {
            assert(rest[0] == all[i as int]);
            assert(rest.drop_first() =~= all.skip(i as int + 1));
            assert(all[i as int] == args@[i as int]@);
        }
        store.remove(args[i].as_str());
        i = i + 1;
    }
    proof {
        assert(deletes_applied(store@, all.skip(i as int)) == store@);
    }
    ok_response()
}

/// The value a key answers with: its mapped value, or the empty string for
/// an absent key.
pub open spec fn lookup(m: Map<Seq<char>, Seq<char>>, k: Seq<char>) -> Seq<char> {
    if m.dom().contains(k) {
        m[k]
    } else {
        Seq::empty()
    }
}

/// The `bykeys` result: one pair per queried key, in the caller's order,
/// duplicates kept, absent keys answered with the empty string.
pub open spec fn by_keys_spec(m: Map<Seq<char>, Seq<char>>, keys: Seq<Seq<char>>) -> Seq<
    (Seq<char>, Seq<char>),
> {
    keys.map_values(|k: Seq<char>| (k, lookup(m, k)))
}

/// Looks each key up, in the caller's order.
pub fn by_keys(store: &Store, keys: &Vec<String>) -> (r: Vec<(String, String)>)
    requires
        store.wf(),
    ensures
        pairs_view(r@) == by_keys_spec(store@, keys.deep_view()),
{
    let n = keys.len();
    let mut r: Vec<(String, String)> = Vec::new();
    let mut i: usize = 0;
    proof {
        assert(pairs_view(r@) =~= by_keys_spec(store@, keys.deep_view().take(0)));
    }
    while i < n
        invariant
            store.wf(),
            0 <= i <= n,
            n == keys@.len(),
            pairs_view(r@) == by_keys_spec(store@, keys.deep_view().take(i as int)),
        decreases n - i,
    {
        let key = &keys[i];
        let value = match store.get(key.as_str()) {
            Some(v) => v.clone(),
            None => String::new(),
        };
        proof {
            assert(value@ == lookup(store@, keys.deep_view()[i as int]));
        }
        let ghost prev = r@;
        r.push((key.clone(), value));
        proof {
            let deep = keys.deep_view();
            let goal = by_keys_spec(store@, deep.take(i as int + 1));
            assert(pairs_view(prev).len() == by_keys_spec(store@, deep.take(i as int)).len());
            assert(prev.len() == i as int);
            assert(r@.len() == i as int + 1);
            assert forall|j: int| 0 <= j < pairs_view(r@).len() implies pairs_view(r@)[j]
                == goal[j] by {
                if j < i {
                    assert(pairs_view(prev)[j] == by_keys_spec(store@, deep.take(i as int))[j]);
                    assert(r@[j] == prev[j]);
                    assert(deep.take(i as int + 1)[j] == deep.take(i as int)[j]);
                } else {
                    assert(deep.take(i as int + 1)[j] == deep[i as int]);
                }
            }
            assert(pairs_view(r@) =~= goal);
        }
        i = i + 1;
    }
    proof {
        assert(keys.deep_view().take(n as int) =~= keys.deep_view());
    }
    r
}

/// The `byvals` result: the store's entries whose value stands in the
/// queried list, in the store's own key order.
pub open spec fn by_values_spec(
    entries: Seq<(Seq<char>, Seq<char>)>,
    values: Seq<Seq<char>>,
) -> Seq<(Seq<char>, Seq<char>)>
    decreases entries.len(),
{
    if entries.len() == 0 {
        seq![]
    } else {
        (if values.contains(entries[0].1) {
            seq![entries[0]]
        } else {
            seq![]
        }) + by_values_spec(entries.drop_first(), values)
    }
}

fn contains_string(values: &Vec<String>, v: &str) -> (r: bool)
    ensures
        r == values.deep_view().contains(v@),
{
    let n = values.len();
    let mut i: usize = 0;
    while i < n
        invariant
            0 <= i <= n,
            n == values@.len(),
            forall|j: int| 0 <= j < i ==> values.deep_view()[j] != v@,
        decreases n - i,
    {
        if bytes_eq(values[i].as_str().as_bytes(), v.as_bytes()) {
            proof {
                lemma_encode_injective(values@[i as int]@, v@);
                assert(values.deep_view()[i as int] == v@);
            }
            return true;
        }
        proof {
            if values.deep_view()[i as int] == v@ {
                assert(values@[i as int]@ == v@);
            }
        }
        i = i + 1;
    }
    false
}

/// Filters the entries by value membership, keeping the store's order.
pub fn by_values(store: &Store, values: &Vec<String>) -> (r: Vec<(String, String)>)
    requires
        store.wf(),
    ensures
        pairs_view(r@) == by_values_spec(store.seq_view(), values.deep_view()),
{
    let n = store.entries.len();
    let mut r: Vec<(String, String)> = Vec::new();
    let mut i: usize = 0;
    proof {
        assert(store.seq_view().skip(0) =~= store.seq_view());
        assert(pairs_view(r@) =~= Seq::<(Seq<char>, Seq<char>)>::empty());
        assert(Seq::<(Seq<char>, Seq<char>)>::empty() + by_values_spec(
            store.seq_view(),
            values.deep_view(),
        ) =~= by_values_spec(store.seq_view(), values.deep_view()));
    }
    while i < n
        invariant
            store.wf(),
            0 <= i <= n,
            n == store.entries@.len(),
            pairs_view(r@) + by_values_spec(store.seq_view().skip(i as int), values.deep_view())
                == by_values_spec(store.seq_view(), values.deep_view()),
        decreases n - i,
    {
        let ghost rest = store.seq_view().skip(i as int);
        proof {
            assert(rest[0] == store.seq_view()[i as int]);
            assert(rest.drop_first() =~= store.seq_view().skip(i as int + 1));
        }
        let entry = &store.entries[i];
        if contains_string(values, entry.1.as_str()) {
            r.push((entry.0.clone(), entry.1.clone()));
            proof {
                assert(pairs_view(r@) =~= pairs_view(r@.drop_last()) + seq![rest[0]]);
            }
        }
        i = i + 1;
    }
    proof {
        assert(store.seq_view().skip(n as int) =~= Seq::<(Seq<char>, Seq<char>)>::empty());
        assert(pairs_view(r@) =~= by_values_spec(store.seq_view(), values.deep_view()));
    }
    r
}

/// A `byvals` result is exactly the subset of entries whose value stands
/// in the queried list — every such entry and no other — and it keeps the
/// entries' strictly increasing key order, whatever order the entries
/// were inserted in.
pub proof fn lemma_by_values_exact(e: Seq<(Seq<char>, Seq<char>)>, v: Seq<Seq<char>>)
    requires
        crate::store::sorted_keys(e),
    ensures
        crate::store::sorted_keys(by_values_spec(e, v)),
        forall|x: (Seq<char>, Seq<char>)| #[trigger]
            by_values_spec(e, v).contains(x) ==> e.contains(x) && v.contains(x.1),
        forall|x: (Seq<char>, Seq<char>)|
            e.contains(x) && v.contains(#[trigger] x.1) ==> by_values_spec(e, v).contains(x),
    decreases e.len(),
{
    let r = by_values_spec(e, v);
    if e.len() == 0 {
        assert forall|x: (Seq<char>, Seq<char>)| #[trigger] r.contains(x) implies e.contains(x)
            && v.contains(x.1) by {
            let j = choose|j: int| 0 <= j < r.len() && r[j] == x;
        }
    } else {
        let tail = e.drop_first();
        assert(crate::store::sorted_keys(tail)) by {
            assert forall|p: int, q: int| 0 <= p < q < tail.len() implies crate::store::key_lt(
                tail[p].0,
                tail[q].0,
            ) by {
                assert(tail[p] == e[p + 1] && tail[q] == e[q + 1]);
            }
        }
        lemma_by_values_exact(tail, v);
        let rt = by_values_spec(tail, v);
        let kept = v.contains(e[0].1);
        assert(r == (if kept {
            seq![e[0]]
        } else {
            seq![]
        }) + rt);

        assert forall|x: (Seq<char>, Seq<char>)| #[trigger] r.contains(x) implies e.contains(x)
            && v.contains(x.1) by {
            let j = choose|j: int| 0 <= j < r.len() && r[j] == x;
            if kept && j == 0 {
                assert(x == e[0]);
                assert(e[0] == e[0] && 0 < e.len());
            } else {
                let j2 = if kept { j - 1 } else { j };
                assert(rt[j2] == x);
                assert(rt.contains(x));
                let m = choose|m: int| 0 <= m < tail.len() && tail[m] == x;
                assert(e[m + 1] == x);
            }
        }
        assert forall|x: (Seq<char>, Seq<char>)|
            e.contains(x) && v.contains(#[trigger] x.1) implies r.contains(x) by {
            let j = choose|j: int| 0 <= j < e.len() && e[j] == x;
            if j == 0 {
                assert(r[0] == x);
            } else {
                assert(tail[j - 1] == x);
                assert(tail.contains(x));
                assert(rt.contains(x));
                let m = choose|m: int| 0 <= m < rt.len() && rt[m] == x;
                let off: int = if kept {
                    1
                } else {
                    0
                };
                assert(r[m + off] == x);
            }
        }
        assert forall|p: int, q: int| 0 <= p < q < r.len() implies crate::store::key_lt(
            r[p].0,
            r[q].0,
        ) by {
            let off: int = if kept {
                1
            } else {
                0
            };
            if kept && p == 0 {
                assert(r[q] == rt[q - 1]);
                assert(rt.contains(rt[q - 1]));
                assert(tail.contains(rt[q - 1]));
                let m = choose|m: int| 0 <= m < tail.len() && tail[m] == rt[q - 1];
                assert(e[m + 1] == rt[q - 1]);
                assert(crate::store::key_lt(e[0].0, e[m + 1].0));
            } else {
                assert(r[p] == rt[p - off] && r[q] == rt[q - off]);
            }
        }
    }
}

/// The textual rendering of one (key, value) pair.
pub open spec fn render_entry(p: (Seq<char>, Seq<char>)) -> Seq<char> {
    seq!['"'] + p.0 + seq!['"', ':', ' ', '"'] + p.1 + seq!['"']
}

/// The pairs rendered in order, separated by a comma and a space.
pub open spec fn render_inner(ps: Seq<(Seq<char>, Seq<char>)>) -> Seq<char>
    decreases ps.len(),
{
    if ps.len() == 0 {
        seq![]
    } else if ps.len() == 1 {
        render_entry(ps[0])
    } else {
        render_inner(ps.drop_last()) + seq![',', ' '] + render_entry(ps.last())
    }
}

/// The rendering of a whole result mapping, in braces. Keys and values
/// stand verbatim between their quotes: the rendering is a deterministic
/// inspection format, not a machine-readable one, and has no escaping.
pub open spec fn render_pairs(ps: Seq<(Seq<char>, Seq<char>)>) -> Seq<char> {
    seq!['{'] + render_inner(ps) + seq!['}']
}

/// Renders a result mapping.
pub fn render_pairs_string(ps: &Vec<(String, String)>) -> (r: String)
    ensures
        r@ == render_pairs(pairs_view(ps@)),
{
    proof {
        reveal_strlit("{");
        reveal_strlit("}");
        reveal_strlit("\"");
        reveal_strlit("\": \"");
        reveal_strlit(", ");
    }
    let mut r: String = "{".to_owned();
    let n = ps.len();
    let mut i: usize = 0;
    proof {
        assert(r@ =~= seq!['{'] + render_inner(pairs_view(ps@).take(0)));
    }
    while i < n
        invariant
            0 <= i <= n,
            n == ps@.len(),
            r@ == seq!['{'] + render_inner(pairs_view(ps@).take(i as int)),
            "\""@ == seq!['"'],
            "\": \""@ == seq!['"', ':', ' ', '"'],
            ", "@ == seq![',', ' '],
            "}"@ == seq!['}'],
        decreases n - i,
    {
        if i > 0 {
            r.append(", ");
        }
        r.append("\"");
        r.append(ps[i].0.as_str());
        r.append("\": \"");
        r.append(ps[i].1.as_str());
        r.append("\"");
        proof {
            let view = pairs_view(ps@);
            assert(view.take(i as int + 1).drop_last() =~= view.take(i as int));
            assert(view.take(i as int + 1).last() == view[i as int]);
            assert(view[i as int] == (ps@[i as int].0@, ps@[i as int].1@));
            assert(r@ =~= seq!['{'] + render_inner(view.take(i as int + 1)));
        }
        i = i + 1;
    }
    proof {
        assert(pairs_view(ps@).take(n as int) =~= pairs_view(ps@));
    }
    r.append("}");
    proof {
        assert(r@ =~= render_pairs(pairs_view(ps@)));
    }
    r
}

/// The fixed response to an unrecognized task identifier.
pub fn unknown_response() -> (r: String)
    ensures
        r@ == "Unknown task."@,
{
    "Unknown task.".to_owned()
}

/// What one command asks of its caller: answer at once, or touch a file
/// first and then finish the command with the outcome.
pub enum TaskAction {
    Respond(String),
    ReadFile { path: String, delimiter: u8 },
    WriteFile { path: String, bytes: Vec<u8> },
}

/// A character sequence never encodes to nothing.
pub proof fn lemma_encode_nonempty(s: Seq<char>)
    requires
        s.len() > 0,
    ensures
        encode_utf8(s).len() > 0,
{
    broadcast use char_is_scalar;

    let u = s[0] as u32;
    assert(encode_scalar(u).len() > 0);
}

/// The first byte of the argument's UTF-8 encoding: the wire protocol
/// names a delimiter by the first byte of a delimiter argument.
fn first_byte(s: &str) -> (b: u8)
    requires
        s@.len() > 0,
    ensures
        b == encode_utf8(s@)[0],
{
    proof {
        lemma_encode_nonempty(s@);
    }
    s.as_bytes()[0]
}

/// Dispatches one command. Queries and mutations answer at once; `import`
/// and `export` with both arguments hand back the file action, which the
/// caller performs before calling `finish_import` or `finish_export`.
/// An `import` or `export` with fewer than two arguments is not a
/// recognized command. The delimiter argument must not be empty: the wire
/// protocol has no meaning for one.
pub fn process_task(store: &mut Store, task: &[u8], args: &Vec<String>) -> (r: TaskAction)
    requires
        old(store).wf(),
        (task_of(task@) is Import || task_of(task@) is Export) && args.deep_view().len() >= 2
            ==> args.deep_view()[1].len() > 0,
    ensures
        final(store).wf(),
        match task_of(task@) {
            Task::Update => final(store)@ == updates_applied(old(store)@, args.deep_view()) && (
            r matches TaskAction::Respond(s) && s@ == "OK"@),
            Task::Delete => final(store)@ == deletes_applied(old(store)@, args.deep_view()) && (
            r matches TaskAction::Respond(s) && s@ == "OK"@),
            Task::Length => *final(store) == *old(store) && (r matches TaskAction::Respond(s) && s@
                == dec_str(old(store)@.dom().len())),
            Task::ByKeys => *final(store) == *old(store) && (r matches TaskAction::Respond(s) && s@
                == render_pairs(by_keys_spec(old(store)@, args.deep_view()))),
            Task::ByVals => *final(store) == *old(store) && (r matches TaskAction::Respond(s) && s@
                == render_pairs(by_values_spec(old(store).seq_view(), args.deep_view()))),
            Task::Import => *final(store) == *old(store) && if args.deep_view().len() >= 2 {
                r matches TaskAction::ReadFile { path, delimiter } && path@
                    == args.deep_view()[0] && delimiter == encode_utf8(args.deep_view()[1])[0]
            } else {
                r matches TaskAction::Respond(s) && s@ == "Unknown task."@
            },
            Task::Export => *final(store) == *old(store) && if args.deep_view().len() >= 2 {
                r matches TaskAction::WriteFile { path, bytes } && path@ == args.deep_view()[0]
                    && bytes@ == encode_records(
                    old(store).seq_view(),
                    encode_utf8(args.deep_view()[1])[0],
                )
            } else {
                r matches TaskAction::Respond(s) && s@ == "Unknown task."@
            },
            Task::Unknown => *final(store) == *old(store) && (r matches TaskAction::Respond(s) && s@
                == "Unknown task."@),
        },
{
    let t = classify(task);
    match t {
        Task::Import => {
            if args.len() >= 2 {
                let path = args[0].clone();
                let delimiter = first_byte(args[1].as_str());
                TaskAction::ReadFile { path, delimiter }
            } else {
                TaskAction::Respond(unknown_response())
            }
        },
        Task::Export => {
            if args.len() >= 2 {
                let path = args[0].clone();
                let delimiter = first_byte(args[1].as_str());
                let bytes = export_bytes(&*store, delimiter);
                TaskAction::WriteFile { path, bytes }
            } else {
                TaskAction::Respond(unknown_response())
            }
        },
        Task::Update => TaskAction::Respond(update(store, args)),
        Task::Delete => TaskAction::Respond(delete(store, args)),
        Task::Length => TaskAction::Respond(render_usize(store.len())),
        Task::ByKeys => TaskAction::Respond(render_pairs_string(&by_keys(&*store, args))),
        Task::ByVals => TaskAction::Respond(render_pairs_string(&by_values(&*store, args))),
        Task::Unknown => TaskAction::Respond(unknown_response()),
    }
}

/// Finishes an `import` once the caller has read the file: `None` stands
/// for a failed read and leaves the store untouched; otherwise the rows
/// are loaded, and a row that fails to parse aborts the load with the
/// rows before it kept.
pub fn finish_import(store: &mut Store, data: Option<Vec<u8>>, delimiter: u8) -> (r: String)
    requires
        old(store).wf(),
    ensures
        final(store).wf(),
        match data {
            Option::None => final(store)@ == old(store)@ && r@ == "Error reading file"@,
            Option::Some(bytes) => {
                &&& final(store)@ == apply_records(
                    old(store)@,
                    parsed_records(split_crlf(bytes@), delimiter),
                )
                &&& (lines_ok(split_crlf(bytes@), delimiter) ==> r@ == "OK"@)
                &&& (!lines_ok(split_crlf(bytes@), delimiter) ==> r@ == "Error reading file"@)
            },
        },
{
    match data {
        Option::Some(bytes) => {
            let ok = import_bytes(store, bytes.as_slice(), delimiter);
            if ok {
                ok_response()
            } else {
                "Error reading file".to_owned()
            }
        },
        Option::None => "Error reading file".to_owned(),
    }
}

/// Finishes an `export` once the caller has written the file.
pub fn finish_export(succeeded: bool) -> (r: String)
    ensures
        succeeded ==> r@ == "OK"@,
        !succeeded ==> r@ == "Error writing file"@,
{
    if succeeded {
        ok_response()
    } else {
        "Error writing file".to_owned()
    }
}

/// The keys an `update` argument list inserts: the trimmed key of each
/// complete (key, value) pair.
pub open spec fn update_keys(args: Seq<Seq<char>>) -> Set<Seq<char>>
    decreases args.len(),
{
    if args.len() < 2 {
        Set::empty()
    } else {
        update_keys(args.skip(2)).insert(trimmed(args[0]))
    }
}

/// An `update` extends the mapping's domain by exactly the keys it names:
/// upserting a key twice overwrites rather than appends.
pub proof fn lemma_update_dom(m: Map<Seq<char>, Seq<char>>, args: Seq<Seq<char>>)
    ensures
        updates_applied(m, args).dom() == m.dom() + update_keys(args),
    decreases args.len(),
{
    if args.len() < 2 {
        assert(updates_applied(m, args).dom() =~= m.dom() + update_keys(args));
    } else {
        let m1 = m.insert(trimmed(args[0]), trimmed(args[1]));
        lemma_update_dom(m1, args.skip(2));
        assert(m1.dom() + update_keys(args.skip(2)) =~= m.dom() + update_keys(args));
    }
}

/// After any sequence of `update` pairs applied to an empty store, the
/// domain — what `length` counts — is exactly the set of distinct keys
/// inserted.
pub proof fn lemma_length_counts_distinct_keys(args: Seq<Seq<char>>)
    ensures
        updates_applied(Map::<Seq<char>, Seq<char>>::empty(), args).dom() == update_keys(args),
{
    lemma_update_dom(Map::empty(), args);
    assert(Map::<Seq<char>, Seq<char>>::empty().dom() + update_keys(args) =~= update_keys(args));
}

/// An `update` of (key, value) followed by a `bykeys` of that key answers
/// with the trimmed value, never the raw one.
pub proof fn lemma_update_then_bykeys(m: Map<Seq<char>, Seq<char>>, k: Seq<char>, v: Seq<char>)
    requires
        trimmed(k) == k,
    ensures
        by_keys_spec(updates_applied(m, seq![k, v]), seq![k]) == seq![(k, trimmed(v))],
{
    let args = seq![k, v];
    assert(args[0] == k && args[1] == v);
    let m1 = m.insert(k, trimmed(v));
    assert(updates_applied(m, args) == updates_applied(m1, args.skip(2))) by {
        assert(m.insert(trimmed(args[0]), trimmed(args[1])) == m1);
    }
    assert(args.skip(2) =~= Seq::<Seq<char>>::empty());
    assert(updates_applied(m1, args.skip(2)) == m1);
    assert(by_keys_spec(m1, seq![k]) =~= seq![(k, trimmed(v))]) by {
        assert(seq![k][0] == k);
        assert(lookup(m1, k) == trimmed(v));
    }
}

/// A `delete` of an absent key leaves the mapping unchanged (and, like
/// every `delete`, still answers `OK`).
pub proof fn lemma_delete_absent(m: Map<Seq<char>, Seq<char>>, k: Seq<char>)
    requires
        !m.dom().contains(k),
    ensures
        deletes_applied(m, seq![k]) == m,
{
    let keys = seq![k];
    assert(keys[0] == k);
    assert(m.remove(k) =~= m);
    assert(keys.drop_first() =~= Seq::<Seq<char>>::empty());
    assert(deletes_applied(m.remove(k), keys.drop_first()) == m.remove(k));
}

} // verus!
